use vstd::prelude::*;
use rand::seq::SliceRandom;

verus! {

/// Ranks of the 40-card deck, in ascending strength.
#[derive(Clone, Copy, Debug, PartialEq, Eq, PartialOrd, Ord, Hash, Structural)]
pub enum Rank {
    Four,
    Five,
    Six,
    Seven,
    Ten,
    Eleven,
    Twelve,
    One,
    Two,
    Three,
}

/// Suits, in ascending tie-break order.
#[derive(Clone, Copy, Debug, PartialEq, Eq, PartialOrd, Ord, Hash, Structural)]
pub enum Suit {
    Golds,
    Swords,
    Cups,
    Clubs,
}

#[derive(Clone, Copy, Debug, PartialEq, Eq, PartialOrd, Ord, Hash, Structural)]
pub struct Card {
    pub rank: Rank,
    pub suit: Suit,
}

pub open spec fn rank_index(r: Rank) -> int {
    match r {
        Rank::Four => 0,
        Rank::Five => 1,
        Rank::Six => 2,
        Rank::Seven => 3,
        Rank::Ten => 4,
        Rank::Eleven => 5,
        Rank::Twelve => 6,
        Rank::One => 7,
        Rank::Two => 8,
        Rank::Three => 9,
    }
}

pub open spec fn suit_index(s: Suit) -> int {
    match s {
        Suit::Golds => 0,
        Suit::Swords => 1,
        Suit::Cups => 2,
        Suit::Clubs => 3,
    }
}

/// The base value of a card: rank-major, suit as tie break; 0 to 93.
pub open spec fn card_value(c: Card) -> int {
    rank_index(c.rank) * 10 + suit_index(c.suit)
}

/// The rank after `r` in ascending order, wrapping Three back to Four.
pub open spec fn spec_next_rank(r: Rank) -> Rank {
    match r {
        Rank::Four => Rank::Five,
        Rank::Five => Rank::Six,
        Rank::Six => Rank::Seven,
        Rank::Seven => Rank::Ten,
        Rank::Ten => Rank::Eleven,
        Rank::Eleven => Rank::Twelve,
        Rank::Twelve => Rank::One,
        Rank::One => Rank::Two,
        Rank::Two => Rank::Three,
        Rank::Three => Rank::Four,
    }
}

pub open spec fn rank_of_index(i: int) -> Rank {
    if i == 0 {
        Rank::Four
    } else if i == 1 {
        Rank::Five
    } else if i == 2 {
        Rank::Six
    } else if i == 3 {
        Rank::Seven
    } else if i == 4 {
        Rank::Ten
    } else if i == 5 {
        Rank::Eleven
    } else if i == 6 {
        Rank::Twelve
    } else if i == 7 {
        Rank::One
    } else if i == 8 {
        Rank::Two
    } else {
        Rank::Three
    }
}

pub open spec fn suit_of_index(i: int) -> Suit {
    if i == 0 {
        Suit::Golds
    } else if i == 1 {
        Suit::Swords
    } else if i == 2 {
        Suit::Cups
    } else {
        Suit::Clubs
    }
}

/// The canonical deck: for each rank in ascending order, the four suits in
/// ascending order; 40 cards in ascending base value.
pub open spec fn deck_seq() -> Seq<Card> {
    Seq::new(
        40,
        |i: int| Card { rank: rank_of_index(i / 4), suit: suit_of_index(i % 4) },
    )
}

impl Rank {
    /// The next rank in ascending order, wrapping Three back to Four; a set's
    /// trump rank is the upcard's next rank.
    pub fn get_next(&self) -> (n: Rank)
        ensures
            n == spec_next_rank(*self),
    {
        match self {
            Rank::Four => Rank::Five,
            Rank::Five => Rank::Six,
            Rank::Six => Rank::Seven,
            Rank::Seven => Rank::Ten,
            Rank::Ten => Rank::Eleven,
            Rank::Eleven => Rank::Twelve,
            Rank::Twelve => Rank::One,
            Rank::One => Rank::Two,
            Rank::Two => Rank::Three,
            Rank::Three => Rank::Four,
        }
    }
}

fn rank_from_index(i: usize) -> (r: Rank)
    requires
        i < 10,
    ensures
        r == rank_of_index(i as int),
{
    if i == 0 {
        Rank::Four
    } else if i == 1 {
        Rank::Five
    } else if i == 2 {
        Rank::Six
    } else if i == 3 {
        Rank::Seven
    } else if i == 4 {
        Rank::Ten
    } else if i == 5 {
        Rank::Eleven
    } else if i == 6 {
        Rank::Twelve
    } else if i == 7 {
        Rank::One
    } else if i == 8 {
        Rank::Two
    } else {
        Rank::Three
    }
}

fn suit_from_index(i: usize) -> (s: Suit)
    requires
        i < 4,
    ensures
        s == suit_of_index(i as int),
{
    if i == 0 {
        Suit::Golds
    } else if i == 1 {
        Suit::Swords
    } else if i == 2 {
        Suit::Cups
    } else {
        Suit::Clubs
    }
}

impl Card {
    pub fn new(rank: Rank, suit: Suit) -> (c: Card)
        ensures
            c == (Card { rank, suit }),
    {
        Card { rank, suit }
    }

    /// The base value of the card, `rank_index * 10 + suit_index`.
    pub fn get_value(&self) -> (v: u8)
        ensures
            v as int == card_value(*self),
    {
        let rank: u8 = match self.rank {
            Rank::Four => 0,
            Rank::Five => 1,
            Rank::Six => 2,
            Rank::Seven => 3,
            Rank::Ten => 4,
            Rank::Eleven => 5,
            Rank::Twelve => 6,
            Rank::One => 7,
            Rank::Two => 8,
            Rank::Three => 9,
        };
        let suit: u8 = match self.suit {
            Suit::Golds => 0,
            Suit::Swords => 1,
            Suit::Cups => 2,
            Suit::Clubs => 3,
        };
        rank * 10 + suit
    }

    /// The canonical 40-card deck in ascending base value.
    pub fn deck() -> (d: Vec<Card>)
        ensures
            d@ == deck_seq(),
    {
        let mut d: Vec<Card> = Vec::new();
        let mut i: usize = 0;
        while i < 40
            invariant
                i <= 40,
                d@.len() == i,
                forall|j: int| 0 <= j < i ==> d@[j] == deck_seq()[j],
            decreases 40 - i,
        {
            let rank = rank_from_index(i / 4);
            let suit = suit_from_index(i % 4);
            d.push(Card { rank, suit });
            i = i + 1;
        }
        proof {
            assert(d@ =~= deck_seq());
        }
        d
    }

    /// A random permutation of the canonical deck.
    pub fn shuffled_deck() -> (d: Vec<Card>)
        ensures
            d@.to_multiset() == deck_seq().to_multiset(),
            d@.len() == 40,
    {
        let mut d = Card::deck();
        shuffle_cards(&mut d);
        d
    }
}

/// Cards ordered by base value.
pub open spec fn card_leq(a: Card, b: Card) -> bool {
    card_value(a) <= card_value(b)
}

/// A card's base value identifies it.
pub proof fn lemma_card_value_injective(a: Card, b: Card)
    requires
        card_value(a) == card_value(b),
    ensures
        a == b,
{
    assert(0 <= suit_index(a.suit) < 4 && 0 <= suit_index(b.suit) < 4);
    assert(rank_index(a.rank) == rank_index(b.rank));
    assert(a.rank == b.rank);
    assert(a.suit == b.suit);
}

/// The canonical deck lists its cards in ascending base value: card `i`
/// has value `(i / 4) * 10 + i % 4`.
pub proof fn lemma_deck_seq_sorted()
    ensures
        vstd::relations::sorted_by(deck_seq(), |a: Card, b: Card| card_leq(a, b)),
        forall|i: int| 0 <= i < 40 ==> card_value(#[trigger] deck_seq()[i]) == (i / 4) * 10 + i % 4,
{
    assert(forall|k: int| 0 <= k < 10 ==> rank_index(#[trigger] rank_of_index(k)) == k);
    assert(forall|k: int| 0 <= k < 4 ==> suit_index(#[trigger] suit_of_index(k)) == k);
    assert forall|i: int| 0 <= i < 40 implies card_value(#[trigger] deck_seq()[i]) == (i / 4) * 10
        + i % 4 by {
        vstd::arithmetic::div_mod::lemma_fundamental_div_mod(i, 4);
        vstd::arithmetic::div_mod::lemma_mod_division_less_than_divisor(i, 4);
        assert(0 <= i / 4 < 10) by (nonlinear_arith)
            requires 0 <= i < 40, i == 4 * (i / 4) + i % 4, 0 <= i % 4 < 4;
    }
    assert forall|i: int, j: int| 0 <= i < j < deck_seq().len() implies (|a: Card, b: Card|
        card_leq(a, b))(deck_seq()[i], deck_seq()[j]) by {
        vstd::arithmetic::div_mod::lemma_fundamental_div_mod(i, 4);
        vstd::arithmetic::div_mod::lemma_mod_division_less_than_divisor(i, 4);
        vstd::arithmetic::div_mod::lemma_fundamental_div_mod(j, 4);
        vstd::arithmetic::div_mod::lemma_mod_division_less_than_divisor(j, 4);
        assert(i / 4 <= j / 4) by (nonlinear_arith)
            requires
                i < j,
                i == 4 * (i / 4) + i % 4,
                j == 4 * (j / 4) + j % 4,
                0 <= i % 4 < 4,
                0 <= j % 4 < 4,
        ;
        assert(card_value(deck_seq()[i]) <= card_value(deck_seq()[j]));
    }
}

/// The canonical deck holds forty distinct cards.
pub proof fn lemma_deck_seq_distinct()
    ensures
        deck_seq().no_duplicates(),
{
    lemma_deck_seq_sorted();
    assert forall|i: int, j: int|
        0 <= i < 40 && 0 <= j < 40 && i != j implies deck_seq()[i] != deck_seq()[j] by {
        vstd::arithmetic::div_mod::lemma_fundamental_div_mod(i, 4);
        vstd::arithmetic::div_mod::lemma_mod_division_less_than_divisor(i, 4);
        vstd::arithmetic::div_mod::lemma_fundamental_div_mod(j, 4);
        vstd::arithmetic::div_mod::lemma_mod_division_less_than_divisor(j, 4);
        if deck_seq()[i] == deck_seq()[j] {
            assert(card_value(deck_seq()[i]) == card_value(deck_seq()[j]));
            assert((i / 4) * 10 + i % 4 == (j / 4) * 10 + j % 4);
            assert(i / 4 == j / 4 && i % 4 == j % 4);
            assert(i == j);
        }
    }
}

/// Any permutation of the canonical deck still holds forty distinct cards
/// of that deck.
pub proof fn lemma_deck_permutation(d: Seq<Card>)
    requires
        d.to_multiset() == deck_seq().to_multiset(),
    ensures
        d.len() == 40,
        d.no_duplicates(),
        forall|c: Card| d.contains(c) ==> deck_seq().contains(c),
{
    broadcast use vstd::seq_lib::group_to_multiset_ensures;

    lemma_deck_seq_distinct();
    deck_seq().lemma_multiset_has_no_duplicates();
    assert(d.to_multiset().len() == d.len());
    assert(deck_seq().to_multiset().len() == deck_seq().len());
    assert forall|x: Card| d.to_multiset().contains(x) implies d.to_multiset().count(x) == 1 by {
        assert(d.to_multiset().count(x) == deck_seq().to_multiset().count(x));
        assert(deck_seq().to_multiset().contains(x));
    }
    d.lemma_multiset_has_no_duplicates_conv();
    assert forall|c: Card| d.contains(c) implies deck_seq().contains(c) by {
        assert(d.to_multiset().count(c) > 0);
        assert(deck_seq().to_multiset().count(c) > 0);
    }
}

/// Shuffling and then sorting restores the canonical deck: any permutation
/// of it that stands in ascending base value is the canonical deck itself.
pub proof fn lemma_sorted_deck(v: Seq<Card>)
    requires
        v.to_multiset() == deck_seq().to_multiset(),
        vstd::relations::sorted_by(v, |a: Card, b: Card| card_leq(a, b)),
    ensures
        v == deck_seq(),
{
    let leq = |a: Card, b: Card| card_leq(a, b);
    assert forall|a: Card, b: Card| #[trigger] leq(a, b) && #[trigger] leq(b, a) implies a
        == b by {
        lemma_card_value_injective(a, b);
    }
    assert(forall|a: Card| #[trigger] leq(a, a));
    assert(forall|a: Card, b: Card| #[trigger] leq(a, b) || #[trigger] leq(b, a));
    assert(forall|a: Card, b: Card, c: Card|
        #[trigger] leq(a, b) && #[trigger] leq(b, c) ==> leq(a, c));
    assert(vstd::relations::total_ordering(leq));
    lemma_deck_seq_sorted();
    vstd::seq_lib::lemma_sorted_unique(v, deck_seq(), leq);
    assert(v =~= deck_seq());
}

/// Relies on rand's `SliceRandom::shuffle` with `thread_rng`: it permutes the
/// slice in place, so the cards after the call are the cards before it, in
/// some order.
#[verifier::external_body]
fn shuffle_cards(cards: &mut Vec<Card>)
    ensures
        final(cards)@.to_multiset() == old(cards)@.to_multiset(),
        final(cards)@.len() == old(cards)@.len(),
{
    cards.shuffle(&mut rand::thread_rng());
}

} // verus!
