use vstd::prelude::*;
use crate::cards::{Card, card_value, spec_next_rank, deck_seq, lemma_deck_permutation};
use crate::cycle::CyclicIterator;
use crate::player::{Player, Turn};
use crate::pmap::{
    key_index, lemma_key_index, pmap_seq, pmap_new, pmap_len, pmap_insert, pmap_get,
    pmap_get_index, pmap_get_index_of, pmap_entries,
};
use crate::messages::{GameError, BiddingError, TurnError, GameInfoDto, GameStageDto, PlayerInfoDto};

verus! {

/// One more card than can ever be dealt: the deck minus the upcard.
pub const MAX_AVAILABLE_CARDS: usize = 39;

pub const MAX_PLAYER_COUNT: usize = 13;

/// Direction in which the per-set hand size moves between sets.
#[derive(Debug, Clone, Copy, PartialEq, Eq, Structural)]
pub enum DealingMode {
    Increasing,
    Decreasing,
}

/// What a successful bid reports back: the lap goes on, or it is done and
/// card play starts.
#[derive(Debug, Clone, PartialEq, Eq)]
pub enum BiddingState {
    Active { next: String, possible_bids: Vec<usize> },
    Ended { next: String },
}

/// What a successful card play reports back.
#[derive(Debug, Clone, PartialEq, Eq)]
pub enum GameEvent {
    SetEnded {
        lifes: Vec<(String, usize)>,
        upcard: Card,
        decks: Vec<(String, Vec<Card>)>,
        next: String,
        possible: Vec<usize>,
    },
    RoundEnded { next: String, rounds: Vec<(String, usize)> },
    TurnPlayed { next: String },
    Ended { winner: Option<String>, lifes: Vec<(String, usize)> },
}

#[derive(Debug, Clone, PartialEq, Eq)]
pub struct DealState {
    pub event: GameEvent,
    pub pile: Vec<Turn>,
}

pub open spec fn spec_alive(p: Player) -> bool {
    p.lifes > 0
}

/// How many of the seats still hold a living player.
pub open spec fn alive_count(s: Seq<(String, Player)>) -> int
    decreases s.len(),
{
    if s.len() == 0 {
        0
    } else {
        alive_count(s.drop_last()) + if spec_alive(s.last().1) {
            1int
        } else {
            0int
        }
    }
}

pub open spec fn bid_of(p: Player) -> int {
    match p.bid {
        Some(b) => b as int,
        None => 0,
    }
}

/// The sum of the bids placed by living players.
pub open spec fn sum_bids(s: Seq<(String, Player)>) -> int
    decreases s.len(),
{
    if s.len() == 0 {
        0
    } else {
        sum_bids(s.drop_last()) + if spec_alive(s.last().1) {
            bid_of(s.last().1)
        } else {
            0int
        }
    }
}

/// How many tricks of the current set are already decided.
pub open spec fn tricks_done(s: Seq<(String, Player)>) -> int
    decreases s.len(),
{
    if s.len() == 0 {
        0
    } else {
        tricks_done(s.drop_last()) + s.last().1.rounds
    }
}

/// The living seats, in seat order.
pub open spec fn alive_filter(s: Seq<(String, Player)>) -> Seq<(String, Player)>
    decreases s.len(),
{
    if s.len() == 0 {
        Seq::empty()
    } else if spec_alive(s.last().1) {
        alive_filter(s.drop_last()).push(s.last())
    } else {
        alive_filter(s.drop_last())
    }
}

pub proof fn lemma_alive_count_nonneg(s: Seq<(String, Player)>)
    ensures
        0 <= alive_count(s) <= s.len(),
    decreases s.len(),
{
    if s.len() > 0 {
        lemma_alive_count_nonneg(s.drop_last());
    }
}

pub proof fn lemma_alive_filter(s: Seq<(String, Player)>)
    ensures
        alive_filter(s).len() == alive_count(s),
        forall|j: int|
            0 <= j < alive_filter(s).len() ==> spec_alive(#[trigger] alive_filter(s)[j].1),
        forall|i: int|
            0 <= i < s.len() && spec_alive(#[trigger] s[i].1) ==> alive_filter(s).contains(s[i]),
    decreases s.len(),
{
    if s.len() > 0 {
        lemma_alive_filter(s.drop_last());
        let f = alive_filter(s);
        let fd = alive_filter(s.drop_last());
        assert forall|i: int| 0 <= i < s.len() && spec_alive(#[trigger] s[i].1) implies f.contains(
            s[i],
        ) by {
            if i == s.len() - 1 {
                assert(spec_alive(s.last().1));
                assert(f.last() == s[i]);
                assert(f.contains(s[i]));
            } else {
                assert(s.drop_last()[i] == s[i]);
                assert(fd.contains(s[i]));
                let j = choose|j: int| 0 <= j < fd.len() && fd[j] == s[i];
                if spec_alive(s.last().1) {
                    assert(f[j] == fd[j]);
                } else {
                    assert(f == fd);
                }
                assert(f.contains(s[i]));
            }
        }
        assert forall|j: int| 0 <= j < f.len() implies spec_alive(#[trigger] f[j].1) by {
            if spec_alive(s.last().1) && j == f.len() - 1 {
                assert(f[j] == s[s.len() - 1]);
            } else {
                assert(f[j] == fd[j]);
            }
        }
    }
}

/// Every key of the living filter is a key of the full seat list.
pub proof fn lemma_alive_filter_key_from(s: Seq<(String, Player)>)
    ensures
        forall|j: int|
            0 <= j < alive_filter(s).len() ==> exists|i: int|
                0 <= i < s.len() && s[i].0 == (#[trigger] alive_filter(s)[j]).0,
    decreases s.len(),
{
    if s.len() > 0 {
        lemma_alive_filter_key_from(s.drop_last());
        let f = alive_filter(s);
        let fd = alive_filter(s.drop_last());
        assert forall|j: int| 0 <= j < f.len() implies exists|i: int|
            0 <= i < s.len() && s[i].0 == (#[trigger] f[j]).0 by {
            if spec_alive(s.last().1) && j == f.len() - 1 {
                assert(f[j] == s.last());
                assert(s[s.len() - 1].0 == f[j].0);
            } else {
                assert(f[j] == fd[j]);
                assert(exists|i: int|
                    0 <= i < s.drop_last().len() && s.drop_last()[i].0 == (
                    #[trigger] alive_filter(s.drop_last())[j]).0);
                let i = choose|i: int|
                    0 <= i < s.drop_last().len() && s.drop_last()[i].0 == alive_filter(
                        s.drop_last(),
                    )[j].0;
                assert(s[i].0 == fd[j].0);
            }
        }
    }
}

/// Every element of the living filter is an element of the full seat list.
pub proof fn lemma_alive_filter_from(s: Seq<(String, Player)>)
    ensures
        forall|j: int|
            0 <= j < alive_filter(s).len() ==> exists|i: int|
                0 <= i < s.len() && s[i] == (#[trigger] alive_filter(s)[j]),
    decreases s.len(),
{
    if s.len() > 0 {
        lemma_alive_filter_from(s.drop_last());
        let f = alive_filter(s);
        let fd = alive_filter(s.drop_last());
        assert forall|j: int| 0 <= j < f.len() implies exists|i: int|
            0 <= i < s.len() && s[i] == (#[trigger] f[j]) by {
            if spec_alive(s.last().1) && j == f.len() - 1 {
                assert(f[j] == s.last());
                assert(s[s.len() - 1] == f[j]);
            } else {
                assert(f[j] == fd[j]);
                assert(exists|i: int|
                    0 <= i < s.drop_last().len() && s.drop_last()[i] == (
                    #[trigger] alive_filter(s.drop_last())[j]));
                let i = choose|i: int|
                    0 <= i < s.drop_last().len() && s.drop_last()[i] == alive_filter(
                        s.drop_last(),
                    )[j];
                assert(s[i] == fd[j]);
            }
        }
    }
}

/// Filtering to the living keeps the keys distinct.
pub proof fn lemma_alive_filter_keys_distinct(s: Seq<(String, Player)>)
    requires
        forall|a: int, b: int| 0 <= a < b < s.len() ==> s[a].0@ != s[b].0@,
    ensures
        forall|a: int, b: int|
            0 <= a < b < alive_filter(s).len() ==> alive_filter(s)[a].0@ != alive_filter(s)[b].0@,
    decreases s.len(),
{
    if s.len() > 0 {
        assert(forall|i: int|
            0 <= i < s.drop_last().len() ==> #[trigger] s.drop_last()[i] == s[i]);
        lemma_alive_filter_keys_distinct(s.drop_last());
        lemma_alive_filter_key_from(s.drop_last());
        let f = alive_filter(s);
        let fd = alive_filter(s.drop_last());
        assert forall|a: int, b: int| 0 <= a < b < f.len() implies f[a].0@ != f[b].0@ by {
            if spec_alive(s.last().1) && b == f.len() - 1 {
                assert(f[b] == s.last());
                assert(f[a] == fd[a]);
                assert(exists|i: int|
                    0 <= i < s.drop_last().len() && s.drop_last()[i].0 == (
                    #[trigger] alive_filter(s.drop_last())[a]).0);
                let i = choose|i: int|
                    0 <= i < s.drop_last().len() && s.drop_last()[i].0 == alive_filter(
                        s.drop_last(),
                    )[a].0;
                assert(s[i].0@ == f[a].0@);
                assert(s[i].0@ != s[s.len() - 1].0@);
            } else {
                assert(f[a] == fd[a] && f[b] == fd[b]);
            }
        }
    }
}

/// When everyone lives, the living filter is the whole list.
pub proof fn lemma_alive_filter_all(s: Seq<(String, Player)>)
    requires
        forall|i: int| 0 <= i < s.len() ==> spec_alive((#[trigger] s[i]).1),
    ensures
        alive_filter(s) == s,
    decreases s.len(),
{
    if s.len() > 0 {
        assert(forall|i: int|
            0 <= i < s.drop_last().len() ==> #[trigger] s.drop_last()[i] == s[i]);
        lemma_alive_filter_all(s.drop_last());
        assert(spec_alive(s.last().1));
        assert(alive_filter(s) =~= s);
    }
}

/// A strictly positive count of living players yields a witness.
pub proof fn lemma_alive_witness(s: Seq<(String, Player)>)
    requires
        alive_count(s) > 0,
    ensures
        exists|i: int| 0 <= i < s.len() && spec_alive(#[trigger] s[i].1),
    decreases s.len(),
{
    if s.len() > 0 {
        if spec_alive(s.last().1) {
            assert(spec_alive(s[s.len() - 1].1));
        } else {
            lemma_alive_witness(s.drop_last());
            let i = choose|i: int|
                0 <= i < s.drop_last().len() && spec_alive(#[trigger] s.drop_last()[i].1);
            assert(spec_alive(s[i].1));
        }
    }
}

/// Every player's trick count is bounded by the total.
pub proof fn lemma_tricks_each(s: Seq<(String, Player)>, i: int)
    requires
        0 <= i < s.len(),
        forall|j: int| 0 <= j < s.len() ==> (#[trigger] s[j].1).rounds >= 0,
    ensures
        s[i].1.rounds <= tricks_done(s),
    decreases s.len(),
{
    if s.len() > 0 {
        if i == s.len() - 1 {
            lemma_tricks_nonneg(s.drop_last());
        } else {
            assert(s.drop_last()[i] == s[i]);
            lemma_tricks_each(s.drop_last(), i);
        }
    }
}

pub proof fn lemma_tricks_nonneg(s: Seq<(String, Player)>)
    ensures
        tricks_done(s) >= 0,
    decreases s.len(),
{
    if s.len() > 0 {
        lemma_tricks_nonneg(s.drop_last());
    }
}

/// A distinct list of positions that points only at living seats and misses
/// none of them has exactly one slot per living seat.
pub proof fn lemma_enum_count(s: Seq<(String, Player)>, items: Seq<usize>)
    requires
        s.len() <= usize::MAX,
        forall|j1: int, j2: int|
            0 <= j1 < j2 < items.len() ==> items[j1] != items[j2],
        forall|j: int|
            0 <= j < items.len() ==> (#[trigger] items[j]) < s.len() && spec_alive(
                s[items[j] as int].1,
            ),
        forall|i: int|
            0 <= i < s.len() && spec_alive(#[trigger] s[i].1) ==> items.contains(i as usize),
    ensures
        items.len() == alive_count(s),
    decreases s.len(),
{
    if s.len() == 0 {
        assert(items.len() == 0) by {
            if items.len() > 0 {
                assert(items[0] < s.len());
            }
        }
    } else {
        let n = s.len() - 1;
        if spec_alive(s[n].1) {
            assert(items.contains(n as usize));
            let j = choose|j: int| 0 <= j < items.len() && items[j] == n as usize;
            let rest = items.remove(j);
            assert forall|j1: int, j2: int| 0 <= j1 < j2 < rest.len() implies rest[j1]
                != rest[j2] by {
                let a1 = if j1 < j { j1 } else { j1 + 1 };
                let a2 = if j2 < j { j2 } else { j2 + 1 };
                assert(rest[j1] == items[a1]);
                assert(rest[j2] == items[a2]);
            }
            assert forall|k: int| 0 <= k < rest.len() implies (#[trigger] rest[k]) < n
                && spec_alive(s.drop_last()[rest[k] as int].1) by {
                let a = if k < j { k } else { k + 1 };
                assert(rest[k] == items[a]);
                assert(items[a] != items[j]);
                assert(items[a] < s.len());
                assert(rest[k] as int != n);
                assert(s.drop_last()[rest[k] as int] == s[rest[k] as int]);
            }
            assert forall|i: int|
                0 <= i < s.drop_last().len() && spec_alive(#[trigger] s.drop_last()[i].1) implies
                rest.contains(i as usize) by {
                assert(s.drop_last()[i] == s[i]);
                assert(items.contains(i as usize));
                let a = choose|a: int| 0 <= a < items.len() && items[a] == i as usize;
                assert(a != j);
                let b = if a < j { a } else { a - 1 };
                assert(rest[b] == items[a]);
            }
            lemma_enum_count(s.drop_last(), rest);
        } else {
            assert forall|j: int| 0 <= j < items.len() implies (#[trigger] items[j]) < n
                && spec_alive(s.drop_last()[items[j] as int].1) by {
                assert(items[j] < s.len());
                assert(spec_alive(s[items[j] as int].1));
                assert(items[j] as int != n);
                assert(s.drop_last()[items[j] as int] == s[items[j] as int]);
            }
            assert forall|i: int|
                0 <= i < s.drop_last().len() && spec_alive(#[trigger] s.drop_last()[i].1) implies
                items.contains(i as usize) by {
                assert(s.drop_last()[i] == s[i]);
            }
            lemma_enum_count(s.drop_last(), items);
        }
    }
}

/// The per-game state machine: seats, pile, cursors and the set bookkeeping.
#[derive(Debug)]
pub struct Game {
    pub players: indexmap::IndexMap<String, Player>,
    pub pile: Vec<(u16, Turn)>,
    pub dealing_mode: DealingMode,
    pub bidding_iter: CyclicIterator,
    pub round_iter: CyclicIterator,
    pub cards_count: usize,
    pub upcard: Card,
}

impl Game {
    /// The seats in seat order.
    pub open spec fn entries(self) -> Seq<(String, Player)> {
        pmap_seq(self.players)
    }

    /// The stage is bidding exactly while some living player still owes a bid.
    pub open spec fn is_bidding(self) -> bool {
        exists|i: int|
            0 <= i < self.entries().len() && spec_alive(#[trigger] self.entries()[i].1)
                && self.entries()[i].1.bid is None
    }

    /// The value a card plays at under this set's upcard: trumps gain 100.
    pub open spec fn effective_value(self, c: Card) -> int {
        card_value(c) + if c.rank == spec_next_rank(self.upcard.rank) {
            100int
        } else {
            0int
        }
    }

    /// Seat `i` has already thrown a card into the current trick.
    pub open spec fn played(self, i: int) -> bool {
        exists|j: int|
            0 <= j < self.round_iter.current_index && (#[trigger] self.round_iter.items@[j]) as int
                == i
    }

    /// A cursor is sound for this game: distinct positions, all of living
    /// seats, and no living seat missing.
    pub open spec fn cursor_ok(self, it: CyclicIterator) -> bool {
        let s = self.entries();
        &&& forall|j1: int, j2: int|
            0 <= j1 < j2 < it.items@.len() ==> it.items@[j1] != it.items@[j2]
        &&& forall|j: int|
            0 <= j < it.items@.len() ==> (#[trigger] it.items@[j]) < s.len() && spec_alive(
                s[it.items@[j] as int].1,
            )
        &&& forall|i: int|
            0 <= i < s.len() && spec_alive(#[trigger] s[i].1) ==> it.items@.contains(i as usize)
    }

    pub open spec fn wf(self) -> bool {
        let s = self.entries();
        let bi = self.bidding_iter;
        let ri = self.round_iter;
        &&& 2 <= s.len() <= MAX_PLAYER_COUNT
        &&& forall|i: int, j: int| 0 <= i < j < s.len() ==> s[i].0@ != s[j].0@
        &&& self.cursor_ok(bi)
        &&& self.cursor_ok(ri)
        &&& bi.current_index <= bi.items@.len()
        &&& forall|j: int|
            0 <= j < bi.current_index ==> s[(#[trigger] bi.items@[j]) as int].1.bid is Some
        &&& self.is_bidding() ==> forall|j: int|
            bi.current_index <= j < bi.items@.len() ==> s[(#[trigger] bi.items@[j]) as int].1.bid
                is None
        &&& (!self.is_bidding() && alive_count(s) >= 2) ==> bi.current_index == bi.items@.len()
        &&& self.pile@.len() == ri.current_index
        &&& ri.current_index <= ri.items@.len()
        &&& forall|j: int|
            0 <= j < self.pile@.len() ==> (#[trigger] self.pile@[j]).1.player_id@ == s[ri.items@[j] as int].0@
        &&& forall|j: int|
            0 <= j < self.pile@.len() ==> (#[trigger] self.pile@[j]).0 as int
                == self.effective_value(self.pile@[j].1.card)
        &&& self.is_bidding() ==> ri.current_index == 0
        &&& (!self.is_bidding() && alive_count(s) >= 2) ==> sum_bids(s) != self.cards_count
        &&& 1 <= self.cards_count <= MAX_AVAILABLE_CARDS
        &&& alive_count(s) * self.cards_count + 1 <= 40
        &&& forall|i: int| 0 <= i < s.len() ==> (#[trigger] s[i].1).lifes <= 5
        &&& forall|i: int|
            0 <= i < s.len() && !spec_alive(#[trigger] s[i].1) ==> s[i].1.rounds == 0
                && s[i].1.deck@.len() == 0
        &&& forall|i: int| 0 <= i < s.len() ==> (#[trigger] s[i].1).rounds <= tricks_done(s)
        &&& alive_count(s) >= 2 ==> forall|i: int|
            0 <= i < s.len() && spec_alive(#[trigger] s[i].1) ==> s[i].1.deck@.len() + tricks_done(
                s,
            ) + (if self.played(i) {
                1int
            } else {
                0int
            }) == self.cards_count
        &&& alive_count(s) <= 1 ==> (ri.current_index == 0 && forall|i: int|
            0 <= i < s.len() ==> (#[trigger] s[i].1).deck@.len() == 0 && s[i].1.rounds == 0)
        &&& forall|i: int|
            0 <= i < s.len() && spec_alive(#[trigger] s[i].1) && s[i].1.bid is Some ==> bid_of(
                s[i].1,
            ) <= self.cards_count
    }

    /// Make a game over the given players with one card dealt to each.
    pub fn new_default(players: Vec<String>) -> (r: Result<Game, GameError>)
        requires
            forall|i: int, j: int| 0 <= i < j < players@.len() ==> players@[i]@ != players@[j]@,
        ensures
            match r {
                Ok(g) => g.wf() && 2 <= players@.len() <= 13 && Game::fresh(g, players@, 1),
                Err(GameError::NotEnoughPlayers) => players@.len() < 2,
                Err(GameError::TooManyPlayers) => players@.len() > 13,
                Err(_) => false,
            },
    {
        Game::new(players, 1)
    }

    /// Freshly dealt hands: every card in any hand is a distinct card of
    /// the canonical deck, and the upcard lies outside every hand.
    pub open spec fn fresh_hands(g: Game) -> bool {
        let s = g.entries();
        &&& forall|i: int, j: int, a: int, b: int|
            0 <= i < s.len() && 0 <= j < s.len() && 0 <= a < s[i].1.deck@.len() && 0 <= b
                < s[j].1.deck@.len() && (i != j || a != b) ==> (#[trigger] s[i].1.deck@[a]) != (
            #[trigger] s[j].1.deck@[b])
        &&& forall|i: int, a: int|
            0 <= i < s.len() && 0 <= a < s[i].1.deck@.len() ==> deck_seq().contains(
                #[trigger] s[i].1.deck@[a],
            )
        &&& forall|i: int, a: int|
            0 <= i < s.len() && 0 <= a < s[i].1.deck@.len() ==> g.upcard != (
            #[trigger] s[i].1.deck@[a])
        &&& deck_seq().contains(g.upcard)
    }

    /// What `new` promises of the game it hands back.
    pub open spec fn fresh(g: Game, names: Seq<String>, cards: int) -> bool {
        let s = g.entries();
        &&& s.len() == names.len()
        &&& forall|i: int| 0 <= i < s.len() ==> (#[trigger] s[i]).0 == names[i]
        &&& forall|i: int|
            0 <= i < s.len() ==> (#[trigger] s[i]).1.lifes == 5 && s[i].1.bid is None
                && s[i].1.rounds == 0 && s[i].1.deck@.len() == cards
        &&& g.cards_count == cards
        &&& g.dealing_mode == DealingMode::Increasing
        &&& g.pile@.len() == 0
        &&& g.bidding_iter.current_index == 0
        &&& g.round_iter.current_index == 0
        &&& g.bidding_iter.items@ == Seq::new(names.len(), |i: int| i as usize)
        &&& g.round_iter.items@ == Seq::new(names.len(), |i: int| i as usize)
        &&& g.is_bidding()
        &&& Game::fresh_hands(g)
    }

    /// Make a game: between 2 and 13 distinct players, `initial_cards_count`
    /// cards each, a fresh shuffle, the card after the dealt ones as upcard.
    pub fn new(player_names: Vec<String>, initial_cards_count: usize) -> (r: Result<
        Game,
        GameError,
    >)
        requires
            forall|i: int, j: int|
                0 <= i < j < player_names@.len() ==> player_names@[i]@ != player_names@[j]@,
            1 <= initial_cards_count,
            2 <= player_names@.len() <= 13 ==> player_names@.len() * initial_cards_count + 1 <= 40,
        ensures
            match r {
                Ok(g) => g.wf() && 2 <= player_names@.len() <= 13 && Game::fresh(
                    g,
                    player_names@,
                    initial_cards_count as int,
                ),
                Err(GameError::NotEnoughPlayers) => player_names@.len() < 2,
                Err(GameError::TooManyPlayers) => player_names@.len() > 13,
                Err(_) => false,
            },
    {
        let n = player_names.len();
        if n < 2 {
            return Err(GameError::NotEnoughPlayers);
        }
        if n > MAX_PLAYER_COUNT {
            return Err(GameError::TooManyPlayers);
        }

        let mut deck = Card::shuffled_deck();
        let mut players = pmap_new();
        let mut pos: usize = 0;
        let mut i: usize = 0;
        while i < n
            invariant
                i <= n,
                2 <= n <= 13,
                n == player_names@.len(),
                n * initial_cards_count + 1 <= 40,
                1 <= initial_cards_count,
                pos == i * initial_cards_count,
                deck@.len() == 40,
                pmap_seq(players).len() == i,
                forall|k: int, l: int|
                    0 <= k < l < player_names@.len() ==> player_names@[k]@ != player_names@[l]@,
                forall|k: int|
                    0 <= k < i ==> (#[trigger] pmap_seq(players)[k]).0 == player_names@[k],
                forall|k: int|
                    0 <= k < i ==> (#[trigger] pmap_seq(players)[k]).1.lifes == 5 && pmap_seq(
                        players,
                    )[k].1.bid is None && pmap_seq(players)[k].1.rounds == 0 && pmap_seq(
                        players,
                    )[k].1.deck@.len() == initial_cards_count,
                forall|k: int|
                    0 <= k < i ==> (#[trigger] pmap_seq(players)[k]).1.deck@ == deck@.subrange(
                        k * initial_cards_count,
                        (k + 1) * initial_cards_count,
                    ),
            decreases n - i,
        {
            proof {
                assert(i * initial_cards_count + initial_cards_count == (i + 1)
                    * initial_cards_count) by (nonlinear_arith);
                assert((i + 1) * initial_cards_count <= n * initial_cards_count)
                    by (nonlinear_arith)
                    requires i + 1 <= n, initial_cards_count >= 1;
            }
            let mut hand: Vec<Card> = Vec::new();
            proof {
                assert(hand@ =~= deck@.subrange(pos as int, pos as int));
            }
            let mut c: usize = 0;
            while c < initial_cards_count
                invariant
                    c <= initial_cards_count,
                    deck@.len() == 40,
                    pos + initial_cards_count <= 40,
                    hand@.len() == c,
                    hand@ == deck@.subrange(pos as int, pos + c),
                decreases initial_cards_count - c,
            {
                hand.push(deck[pos + c]);
                proof {
                    assert(hand@ =~= deck@.subrange(pos as int, pos + c + 1));
                }
                c = c + 1;
            }
            let name = player_names[i].clone();
            proof {
                lemma_key_index(pmap_seq(players), name@);
                let ki = key_index(pmap_seq(players), name@);
                if ki >= 0 {
                    assert(pmap_seq(players)[ki].0 == player_names@[ki]);
                    assert(player_names@[ki]@ == name@);
                    assert(false);
                }
            }
            pmap_insert(&mut players, name, Player::new(hand));
            pos = pos + initial_cards_count;
            i = i + 1;
        }
        let upcard = deck[pos];

        let g = Game {
            players,
            pile: Vec::new(),
            dealing_mode: DealingMode::Increasing,
            cards_count: initial_cards_count,
            bidding_iter: CyclicIterator::new(n),
            round_iter: CyclicIterator::new(n),
            upcard,
        };
        proof {
            let s = g.entries();
            assert(2 * initial_cards_count <= n * initial_cards_count) by (nonlinear_arith)
                requires n >= 2, initial_cards_count >= 0;
            assert(spec_alive(s[0].1));
            assert(g.is_bidding());
            lemma_enum_count_full(s, g.bidding_iter.items@);
            assert(alive_count(s) == n);
            assert(forall|j: int|
                0 <= j < g.bidding_iter.items@.len() ==> (#[trigger] g.bidding_iter.items@[j])
                    as int == j);
            assert forall|i2: int| 0 <= i2 < s.len() && spec_alive(#[trigger] s[i2].1) implies
                g.bidding_iter.items@.contains(i2 as usize) by {
                assert(g.bidding_iter.items@[i2] == i2 as usize);
            }
            assert forall|i2: int| 0 <= i2 < s.len() && spec_alive(#[trigger] s[i2].1) implies
                g.round_iter.items@.contains(i2 as usize) by {
                assert(g.round_iter.items@[i2] == i2 as usize);
            }
            lemma_all_fresh_tricks(s);
            assert(g.wf());
            // the dealt hands are disjoint segments of one shuffle, and the
            // upcard is the card just past them
            lemma_deck_permutation(deck@);
            let icc = initial_cards_count as int;
            assert(pos == n * icc);
            assert(n * icc + 1 <= 40);
            assert forall|i2: int, j2: int, a: int, b: int|
                0 <= i2 < s.len() && 0 <= j2 < s.len() && 0 <= a < s[i2].1.deck@.len() && 0 <= b
                    < s[j2].1.deck@.len() && (i2 != j2 || a != b) implies (
            #[trigger] s[i2].1.deck@[a]) != (#[trigger] s[j2].1.deck@[b]) by {
                assert((i2 + 1) * icc == i2 * icc + icc) by (nonlinear_arith);
                assert((j2 + 1) * icc == j2 * icc + icc) by (nonlinear_arith);
                assert(0 <= i2 * icc && 0 <= j2 * icc) by (nonlinear_arith)
                    requires 0 <= i2, 0 <= j2, icc >= 1;
                assert(i2 * icc + icc <= n * icc && j2 * icc + icc <= n * icc)
                    by (nonlinear_arith)
                    requires i2 + 1 <= n, j2 + 1 <= n, icc >= 1;
                assert(s[i2].1.deck@ == deck@.subrange(i2 * icc, (i2 + 1) * icc));
                assert(s[j2].1.deck@ == deck@.subrange(j2 * icc, (j2 + 1) * icc));
                assert(s[i2].1.deck@.len() == icc);
                assert(s[j2].1.deck@.len() == icc);
                assert(deck@.subrange(i2 * icc, (i2 + 1) * icc)[a] == deck@[i2 * icc + a]);
                assert(deck@.subrange(j2 * icc, (j2 + 1) * icc)[b] == deck@[j2 * icc + b]);
                if i2 < j2 {
                    assert(i2 * icc + icc <= j2 * icc) by (nonlinear_arith)
                        requires i2 + 1 <= j2, icc >= 1;
                    assert(i2 * icc + a < j2 * icc + b);
                } else if j2 < i2 {
                    assert(j2 * icc + icc <= i2 * icc) by (nonlinear_arith)
                        requires j2 + 1 <= i2, icc >= 1;
                    assert(j2 * icc + b < i2 * icc + a);
                }
                assert(i2 * icc + a != j2 * icc + b);
                assert(deck@[i2 * icc + a] != deck@[j2 * icc + b]);
            }
            assert forall|i2: int, a: int|
                0 <= i2 < s.len() && 0 <= a < s[i2].1.deck@.len() implies deck_seq().contains(
                #[trigger] s[i2].1.deck@[a]) by {
                assert((i2 + 1) * icc == i2 * icc + icc) by (nonlinear_arith);
                assert(0 <= i2 * icc) by (nonlinear_arith)
                    requires 0 <= i2, icc >= 1;
                assert(i2 * icc + icc <= n * icc) by (nonlinear_arith)
                    requires i2 + 1 <= n, icc >= 1;
                assert(s[i2].1.deck@ == deck@.subrange(i2 * icc, (i2 + 1) * icc));
                assert(s[i2].1.deck@.len() == icc);
                assert(deck@.subrange(i2 * icc, (i2 + 1) * icc)[a] == deck@[i2 * icc + a]);
                assert(deck@.contains(deck@[i2 * icc + a]));
            }
            assert forall|i2: int, a: int|
                0 <= i2 < s.len() && 0 <= a < s[i2].1.deck@.len() implies g.upcard != (
            #[trigger] s[i2].1.deck@[a]) by {
                assert((i2 + 1) * icc == i2 * icc + icc) by (nonlinear_arith);
                assert(0 <= i2 * icc) by (nonlinear_arith)
                    requires 0 <= i2, icc >= 1;
                assert(i2 * icc + icc <= n * icc) by (nonlinear_arith)
                    requires i2 + 1 <= n, icc >= 1;
                assert(s[i2].1.deck@ == deck@.subrange(i2 * icc, (i2 + 1) * icc));
                assert(s[i2].1.deck@.len() == icc);
                assert(deck@.subrange(i2 * icc, (i2 + 1) * icc)[a] == deck@[i2 * icc + a]);
                assert(i2 * icc + a < n * icc);
                assert(g.upcard == deck@[n * icc]);
                assert(deck@[i2 * icc + a] != deck@[n * icc]);
            }
            assert(deck@.contains(deck@[n * icc]));
        }
        Ok(g)
    }
}

impl Game {
    /// The current bidder is the last of the lap.
    pub open spec fn spec_last_bidder(self) -> bool {
        self.bidding_iter.current_index + 1 >= self.bidding_iter.items@.len()
    }

    pub open spec fn current_bidder_index(self) -> int {
        self.bidding_iter.items@[self.bidding_iter.current_index as int] as int
    }

    pub open spec fn current_bidder_key(self) -> Seq<char> {
        self.entries()[self.current_bidder_index()].0@
    }

    pub open spec fn current_dealer_index(self) -> int {
        self.round_iter.items@[self.round_iter.current_index as int] as int
    }

    pub open spec fn current_dealer_key(self) -> Seq<char> {
        self.entries()[self.current_dealer_index()].0@
    }

    /// A bid the rules accept right now: within the hand size, and never
    /// letting the last bidder make the bids sum to the hand size.
    pub open spec fn bid_allowed(self, b: int) -> bool {
        b <= self.cards_count && !(self.spec_last_bidder() && sum_bids(self.entries()) + b
            == self.cards_count)
    }

    /// While bidding, the bidding cursor still points at a seat.
    pub proof fn lemma_bidding_cursor_live(self)
        requires
            self.wf(),
            self.is_bidding(),
        ensures
            self.bidding_iter.current_index < self.bidding_iter.items@.len(),
            0 <= self.current_bidder_index() < self.entries().len(),
            spec_alive(self.entries()[self.current_bidder_index()].1),
            self.entries()[self.current_bidder_index()].1.bid is None,
    {
        let s = self.entries();
        let bi = self.bidding_iter;
        let i = choose|i: int|
            0 <= i < s.len() && spec_alive(#[trigger] s[i].1) && s[i].1.bid is None;
        assert(bi.items@.contains(i as usize));
        let j = choose|j: int| 0 <= j < bi.items@.len() && bi.items@[j] == i as usize;
        if j < bi.current_index {
            assert(s[bi.items@[j] as int].1.bid is Some);
            assert(false);
        }
        assert(bi.current_index < bi.items@.len());
        assert(s[bi.items@[bi.current_index as int] as int].1.bid is None);
    }
}

/// What a list of selectable bids must be: strictly increasing, and holding
/// exactly the values the rules accept.
pub open spec fn possible_bids_ok(g: Game, v: Seq<usize>) -> bool {
    &&& forall|a: int, b: int| 0 <= a < b < v.len() ==> v[a] < v[b]
    &&& forall|b: usize| v.contains(b) <==> g.bid_allowed(b as int)
}

// Fold lemmas: how the per-seat aggregates move under a single-seat update.

pub proof fn lemma_sum_bids_update(s: Seq<(String, Player)>, i: int, e: (String, Player))
    requires
        0 <= i < s.len(),
    ensures
        sum_bids(s.update(i, e)) == sum_bids(s) - (if spec_alive(s[i].1) {
            bid_of(s[i].1)
        } else {
            0int
        }) + (if spec_alive(e.1) {
            bid_of(e.1)
        } else {
            0int
        }),
    decreases s.len(),
{
    let t = s.update(i, e);
    if i == s.len() - 1 {
        assert(t.drop_last() =~= s.drop_last());
        assert(t.last() == e);
    } else {
        assert(t.drop_last() =~= s.drop_last().update(i, e));
        assert(t.last() == s.last());
        lemma_sum_bids_update(s.drop_last(), i, e);
        assert(s.drop_last()[i] == s[i]);
    }
}

pub proof fn lemma_alive_count_update(s: Seq<(String, Player)>, i: int, e: (String, Player))
    requires
        0 <= i < s.len(),
    ensures
        alive_count(s.update(i, e)) == alive_count(s) - (if spec_alive(s[i].1) {
            1int
        } else {
            0int
        }) + (if spec_alive(e.1) {
            1int
        } else {
            0int
        }),
    decreases s.len(),
{
    let t = s.update(i, e);
    if i == s.len() - 1 {
        assert(t.drop_last() =~= s.drop_last());
        assert(t.last() == e);
    } else {
        assert(t.drop_last() =~= s.drop_last().update(i, e));
        assert(t.last() == s.last());
        lemma_alive_count_update(s.drop_last(), i, e);
        assert(s.drop_last()[i] == s[i]);
    }
}

pub proof fn lemma_tricks_done_update(s: Seq<(String, Player)>, i: int, e: (String, Player))
    requires
        0 <= i < s.len(),
    ensures
        tricks_done(s.update(i, e)) == tricks_done(s) - s[i].1.rounds + e.1.rounds,
    decreases s.len(),
{
    let t = s.update(i, e);
    if i == s.len() - 1 {
        assert(t.drop_last() =~= s.drop_last());
        assert(t.last() == e);
    } else {
        assert(t.drop_last() =~= s.drop_last().update(i, e));
        assert(t.last() == s.last());
        lemma_tricks_done_update(s.drop_last(), i, e);
        assert(s.drop_last()[i] == s[i]);
    }
}

/// The bid sum of living players stays within `len * cap` when each living
/// bid does.
pub proof fn lemma_sum_bids_bound(s: Seq<(String, Player)>, cap: int)
    requires
        cap >= 0,
        forall|i: int|
            0 <= i < s.len() && spec_alive(#[trigger] s[i].1) && s[i].1.bid is Some ==> bid_of(
                s[i].1,
            ) <= cap,
    ensures
        0 <= sum_bids(s) <= s.len() * cap,
    decreases s.len(),
{
    if s.len() == 0 {
    } else {
        assert(forall|i: int|
            0 <= i < s.drop_last().len() ==> #[trigger] s.drop_last()[i] == s[i]);
        lemma_sum_bids_bound(s.drop_last(), cap);
        assert(s.last() == s[s.len() - 1]);
        assert((s.len() - 1) * cap + cap == s.len() * cap) by (nonlinear_arith);
    }
}

/// All seats of a fresh game carry zero tricks.
proof fn lemma_all_fresh_tricks(s: Seq<(String, Player)>)
    requires
        forall|i: int| 0 <= i < s.len() ==> (#[trigger] s[i]).1.rounds == 0,
    ensures
        tricks_done(s) == 0,
    decreases s.len(),
{
    if s.len() > 0 {
        lemma_all_fresh_tricks(s.drop_last());
    }
}

impl Game {
    /// The stage, recomputed: bidding while any living player owes a bid.
    pub fn stage_is_bidding(&self) -> (b: bool)
        ensures
            b == self.is_bidding(),
    {
        let es = pmap_entries(&self.players);
        let mut i: usize = 0;
        while i < es.len()
            invariant
                i <= es@.len(),
                es@ == self.entries(),
                forall|k: int|
                    0 <= k < i ==> !(spec_alive(#[trigger] self.entries()[k].1)
                        && self.entries()[k].1.bid is None),
            decreases es@.len() - i,
        {
            let e = &es[i];
            if e.1.lifes != 0 && e.1.bid.is_none() {
                proof {
                    assert(spec_alive(self.entries()[i as int].1) && self.entries()[i as int].1.bid
                        is None);
                }
                return true;
            }
            i = i + 1;
        }
        false
    }

    /// The sum of the bids living players have placed so far.
    fn sum_bids_exec(&self) -> (t: usize)
        requires
            self.wf(),
        ensures
            t == sum_bids(self.entries()),
            t <= self.entries().len() * self.cards_count,
    {
        proof {
            lemma_sum_bids_bound(self.entries(), self.cards_count as int);
        }
        let es = pmap_entries(&self.players);
        let mut t: usize = 0;
        let mut i: usize = 0;
        while i < es.len()
            invariant
                i <= es@.len(),
                es@ == self.entries(),
                self.wf(),
                t == sum_bids(self.entries().take(i as int)),
                t <= i * self.cards_count,
            decreases es@.len() - i,
        {
            proof {
                assert(self.entries().take(i + 1).drop_last() =~= self.entries().take(i as int));
                assert(self.entries().take(i + 1).last() == self.entries()[i as int]);
                assert(i * self.cards_count + self.cards_count == (i + 1) * self.cards_count)
                    by (nonlinear_arith);
            }
            let e = &es[i];
            if e.1.lifes != 0 {
                match e.1.bid {
                    Some(b) => {
                        proof {
                            assert(spec_alive(self.entries()[i as int].1));
                            assert(self.entries()[i as int].1.bid == Some(b));
                            assert(bid_of(self.entries()[i as int].1) <= self.cards_count);
                            assert(i * self.cards_count + self.cards_count <= 507)
                                by (nonlinear_arith)
                                requires i + 1 <= 13, 0 <= self.cards_count <= 39;
                        }
                        t = t + b;
                    },
                    None => {},
                }
            }
            i = i + 1;
        }
        proof {
            assert(self.entries().take(self.entries().len() as int) =~= self.entries());
            lemma_alive_count_nonneg(self.entries());
        }
        t
    }

    /// How many seats still hold a living player.
    fn alive_count_exec(&self) -> (c: usize)
        ensures
            c == alive_count(self.entries()),
    {
        let es = pmap_entries(&self.players);
        let mut c: usize = 0;
        let mut i: usize = 0;
        while i < es.len()
            invariant
                i <= es@.len(),
                es@ == self.entries(),
                c == alive_count(self.entries().take(i as int)),
                c <= i,
            decreases es@.len() - i,
        {
            proof {
                assert(self.entries().take(i + 1).drop_last() =~= self.entries().take(i as int));
                assert(self.entries().take(i + 1).last() == self.entries()[i as int]);
                lemma_alive_count_nonneg(self.entries().take(i as int));
            }
            let e = &es[i];
            if e.1.lifes != 0 {
                c = c + 1;
            }
            i = i + 1;
        }
        proof {
            assert(self.entries().take(self.entries().len() as int) =~= self.entries());
        }
        c
    }

    /// The seat name at `idx`.
    fn get_player(&self, idx: usize) -> (name: String)
        requires
            idx < self.entries().len(),
        ensures
            name == self.entries()[idx as int].0,
    {
        match pmap_get_index(&self.players, idx) {
            Some(p) => p.0,
            None => vstd::pervasive::unreached(),
        }
    }

    /// The seat whose card play is awaited, if the round cursor points at one.
    fn peek_dealer(&self) -> (r: Option<String>)
        requires
            forall|j: int|
                0 <= j < self.round_iter.items@.len() ==> (#[trigger] self.round_iter.items@[j])
                    < self.entries().len(),
        ensures
            match r {
                Some(name) => self.round_iter.current_index < self.round_iter.items@.len()
                    && name == self.entries()[self.current_dealer_index()].0,
                None => self.round_iter.current_index >= self.round_iter.items@.len(),
            },
    {
        match self.round_iter.peek() {
            Some(idx) => Some(self.get_player(idx)),
            None => None,
        }
    }

    /// The seat whose bid is awaited, if the bidding cursor points at one.
    fn peek_bidder(&self) -> (r: Option<String>)
        requires
            forall|j: int|
                0 <= j < self.bidding_iter.items@.len() ==> (#[trigger] self.bidding_iter.items@[j])
                    < self.entries().len(),
        ensures
            match r {
                Some(name) => self.bidding_iter.current_index < self.bidding_iter.items@.len()
                    && name == self.entries()[self.current_bidder_index()].0,
                None => self.bidding_iter.current_index >= self.bidding_iter.items@.len(),
            },
    {
        match self.bidding_iter.peek() {
            Some(idx) => Some(self.get_player(idx)),
            None => None,
        }
    }

    /// The player whose bid the game waits for; only meaningful while bidding.
    pub fn get_bidding_player(&self) -> (name: String)
        requires
            self.wf(),
            self.is_bidding(),
        ensures
            name@ == self.current_bidder_key(),
    {
        proof {
            self.lemma_bidding_cursor_live();
        }
        match self.peek_bidder() {
            Some(n) => n,
            None => vstd::pervasive::unreached(),
        }
    }

    /// Every bid the rules would accept right now, in increasing order.
    pub fn get_possible_bids(&self) -> (v: Vec<usize>)
        requires
            self.wf(),
        ensures
            possible_bids_ok(*self, v@),
    {
        let last = self.bidding_iter.peek_next().is_none();
        let total = self.sum_bids_exec();
        proof {
            lemma_sum_bids_bound(self.entries(), self.cards_count as int);
            assert(self.entries().len() * self.cards_count <= 507) by (nonlinear_arith)
                requires
                    self.entries().len() <= 13,
                    0 <= self.cards_count <= 39,
            ;
        }
        let mut v: Vec<usize> = Vec::new();
        let mut b: usize = 0;
        while b <= self.cards_count
            invariant
                b <= self.cards_count + 1,
                self.cards_count <= MAX_AVAILABLE_CARDS,
                last == self.spec_last_bidder(),
                total == sum_bids(self.entries()),
                0 <= total <= 507,
                forall|a: int, c: int| 0 <= a < c < v@.len() ==> v@[a] < v@[c],
                forall|x: int| 0 <= x < v@.len() ==> v@[x] < b,
                forall|x: usize| v@.contains(x) <==> (x < b && self.bid_allowed(x as int)),
            decreases self.cards_count + 1 - b,
        {
            let ghost vold = v@;
            if !(last && total + b == self.cards_count) {
                v.push(b);
            }
            proof {
                assert forall|x: usize| v@.contains(x) implies (x < b + 1 && self.bid_allowed(
                    x as int,
                )) by {
                    if vold.contains(x) {
                    } else {
                        assert(v@.last() == x);
                    }
                }
                assert forall|x: usize| (x < b + 1 && self.bid_allowed(x as int)) implies
                    v@.contains(x) by {
                    if x < b {
                        assert(vold.contains(x));
                        let k = choose|k: int| 0 <= k < vold.len() && vold[k] == x;
                        assert(v@[k] == x);
                    } else {
                        assert(x == b);
                        assert(v@.last() == x);
                    }
                }
            }
            b = b + 1;
        }
        proof {
            assert forall|x: usize| v@.contains(x) <==> self.bid_allowed(x as int) by {
                if self.bid_allowed(x as int) {
                    assert(x <= self.cards_count);
                }
            }
        }
        v
    }
}

/// A living seat makes the count strictly positive.
pub proof fn lemma_alive_count_pos(s: Seq<(String, Player)>, i: int)
    requires
        0 <= i < s.len(),
        spec_alive(s[i].1),
    ensures
        alive_count(s) >= 1,
    decreases s.len(),
{
    lemma_alive_count_nonneg(s.drop_last());
    if s.len() > 0 && !(i == s.len() - 1 && spec_alive(s.last().1)) {
        if i < s.len() - 1 {
            assert(s.drop_last()[i] == s[i]);
            lemma_alive_count_pos(s.drop_last(), i);
        }
    }
}

impl Game {
    /// Record `bid` for `player_id` and advance the bidding lap.
    ///
    /// Errors, checked in this order and leaving the game untouched:
    /// `DealingStageActive` when no bid is owed, `BidOutOfRange` when the bid
    /// exceeds the hand size or would let the last bidder make the bids sum
    /// to it, `NotYourTurn` when it is another player's lap position.
    pub fn bid(&mut self, player_id: &String, bid: usize) -> (r: Result<BiddingState, BiddingError>)
        requires
            old(self).wf(),
        ensures
            final(self).wf(),
            match r {
                Err(e) => *final(self) == *old(self) && match e {
                    BiddingError::DealingStageActive => !old(self).is_bidding(),
                    BiddingError::NotYourTurn => old(self).is_bidding() && player_id@ != old(self).current_bidder_key(),
                    BiddingError::BidOutOfRange => old(self).is_bidding() && player_id@ == old(self).current_bidder_key() && !old(self).bid_allowed(bid as int),
                    _ => false,
                },
                Ok(state) => {
                    let s0 = old(self).entries();
                    let w = old(self).current_bidder_index();
                    &&& old(self).is_bidding()
                    &&& old(self).bid_allowed(bid as int)
                    &&& player_id@ == old(self).current_bidder_key()
                    &&& final(self).entries() == s0.update(
                        w,
                        (
                            s0[w].0,
                            Player {
                                lifes: s0[w].1.lifes,
                                deck: s0[w].1.deck,
                                bid: Some(bid),
                                rounds: s0[w].1.rounds,
                            },
                        ),
                    )
                    &&& final(self).bidding_iter.items@ == old(self).bidding_iter.items@
                    &&& final(self).bidding_iter.current_index == old(self).bidding_iter.current_index + 1
                    &&& final(self).round_iter == old(self).round_iter
                    &&& final(self).pile == old(self).pile
                    &&& final(self).cards_count == old(self).cards_count
                    &&& final(self).upcard == old(self).upcard
                    &&& final(self).dealing_mode == old(self).dealing_mode
                    &&& match state {
                        BiddingState::Active { next, possible_bids } => {
                            &&& final(self).is_bidding()
                            &&& final(self).bidding_iter.current_index < final(self).bidding_iter.items@.len()
                            &&& next@ == final(self).current_bidder_key()
                            &&& possible_bids_ok(*final(self), possible_bids@)
                        },
                        BiddingState::Ended { next } => {
                            &&& !final(self).is_bidding()
                            &&& final(self).round_iter.current_index < final(self).round_iter.items@.len()
                            &&& next@ == final(self).current_dealer_key()
                        },
                    }
                },
            },
    {
        if !self.stage_is_bidding() {
            return Err(BiddingError::DealingStageActive);
        }
        proof {
            self.lemma_bidding_cursor_live();
        }
        let current = self.get_bidding_player();
        if !(current == *player_id) {
            return Err(BiddingError::NotYourTurn);
        }
        let last = self.bidding_iter.peek_next().is_none();
        let total = self.sum_bids_exec();
        proof {
            lemma_sum_bids_bound(self.entries(), self.cards_count as int);
            assert(self.entries().len() * self.cards_count <= 507) by (nonlinear_arith)
                requires
                    self.entries().len() <= 13,
                    0 <= self.cards_count <= 39,
            ;
        }
        if bid > self.cards_count {
            return Err(BiddingError::BidOutOfRange);
        }
        if last && total + bid == self.cards_count {
            return Err(BiddingError::BidOutOfRange);
        }

        let ghost s0 = self.entries();
        let ghost w = self.current_bidder_index();
        proof {
            lemma_key_index(s0, player_id@);
            let ki = key_index(s0, player_id@);
            if ki < 0 {
                assert(s0[w].0@ != player_id@);
                assert(false);
            }
            if ki != w {
                assert(s0[ki].0@ == s0[w].0@);
                assert(false);
            }
        }
        let p = match pmap_get(&self.players, player_id) {
            Some(p) => p,
            None => vstd::pervasive::unreached(),
        };
        // a seat the bidding cursor points at never holds a bid yet, so this
        // guard can never fire; it stays as defence in depth
        if p.bid.is_some() {
            proof {
                assert(false);
            }
            return Err(BiddingError::AlreadyBidded);
        }
        let p2 = Player { lifes: p.lifes, deck: p.deck, bid: Some(bid), rounds: p.rounds };
        pmap_insert(&mut self.players, player_id.clone(), p2);
        self.bidding_iter.next();

        let ghost s1 = self.entries();
        let ghost e2 = (s0[w].0, p2);
        proof {
            assert(s1 == s0.update(w, e2));
            lemma_sum_bids_update(s0, w, e2);
            lemma_alive_count_update(s0, w, e2);
            lemma_tricks_done_update(s0, w, e2);
            assert(forall|i: int| 0 <= i < s1.len() && i != w ==> s1[i] == s0[i]);
            assert(s1[w] == e2);
            assert(forall|i: int| 0 <= i < s1.len() ==> (#[trigger] s1[i]).0 == s0[i].0);
            assert(forall|i: int|
                0 <= i < s1.len() ==> spec_alive(#[trigger] s1[i].1) == spec_alive(s0[i].1));
            assert(forall|i: int|
                0 <= i < s1.len() ==> (#[trigger] s1[i]).1.deck == s0[i].1.deck);
            assert(sum_bids(s1) == sum_bids(s0) + bid);
            self.lemma_after_bid_wf(*old(self), player_id@, bid);
        }

        match self.peek_bidder() {
            Some(next) => {
                let pb = self.get_possible_bids();
                proof {
                    assert(self.entries()[self.current_bidder_index()].1.bid is None);
                    assert(spec_alive(self.entries()[self.current_bidder_index()].1));
                    assert(self.is_bidding());
                }
                Ok(BiddingState::Active { next, possible_bids: pb })
            },
            None => {
                proof {
                    let bi = self.bidding_iter;
                    assert forall|i: int|
                        0 <= i < s1.len() && spec_alive(#[trigger] s1[i].1) implies s1[i].1.bid
                        is Some by {
                        assert(bi.items@.contains(i as usize));
                        let j = choose|j: int| 0 <= j < bi.items@.len() && bi.items@[j] == i
                            as usize;
                        assert(s1[bi.items@[j] as int].1.bid is Some);
                    }
                    assert(!self.is_bidding());
                    lemma_alive_count_pos(s1, w);
                    lemma_enum_count(s1, self.round_iter.items@);
                    assert(self.round_iter.current_index == 0);
                    assert(self.round_iter.items@.len() >= 1);
                }
                let next = match self.peek_dealer() {
                    Some(n) => n,
                    None => vstd::pervasive::unreached(),
                };
                Ok(BiddingState::Ended { next })
            },
        }
    }

    /// Restoring well-formedness after one bid is recorded and the lap moves.
    proof fn lemma_after_bid_wf(self, g0: Game, pid: Seq<char>, bid: usize)
        requires
            g0.wf(),
            g0.is_bidding(),
            g0.bidding_iter.current_index < g0.bidding_iter.items@.len(),
            bid <= g0.cards_count,
            !(g0.spec_last_bidder() && sum_bids(g0.entries()) + bid == g0.cards_count),
            g0.entries()[g0.current_bidder_index()].1.bid is None,
            self.entries() == g0.entries().update(
                g0.current_bidder_index(),
                (
                    g0.entries()[g0.current_bidder_index()].0,
                    Player {
                        lifes: g0.entries()[g0.current_bidder_index()].1.lifes,
                        deck: g0.entries()[g0.current_bidder_index()].1.deck,
                        bid: Some(bid),
                        rounds: g0.entries()[g0.current_bidder_index()].1.rounds,
                    },
                ),
            ),
            self.bidding_iter.items@ == g0.bidding_iter.items@,
            self.bidding_iter.current_index == g0.bidding_iter.current_index + 1,
            self.round_iter == g0.round_iter,
            self.pile == g0.pile,
            self.cards_count == g0.cards_count,
            self.upcard == g0.upcard,
        ensures
            self.wf(),
    {
        let s0 = g0.entries();
        let s1 = self.entries();
        let w = g0.current_bidder_index();
        let ci = g0.bidding_iter.current_index as int;
        let bits = g0.bidding_iter.items@;
        lemma_sum_bids_update(s0, w, s1[w]);
        lemma_alive_count_update(s0, w, s1[w]);
        lemma_tricks_done_update(s0, w, s1[w]);
        assert(forall|i: int| 0 <= i < s1.len() && i != w ==> s1[i] == s0[i]);
        assert(forall|i: int| 0 <= i < s1.len() ==> (#[trigger] s1[i]).0 == s0[i].0);
        assert(forall|i: int|
            0 <= i < s1.len() ==> spec_alive(#[trigger] s1[i].1) == spec_alive(s0[i].1));
        assert(alive_count(s1) == alive_count(s0));
        assert(tricks_done(s1) == tricks_done(s0));
        assert(sum_bids(s1) == sum_bids(s0) + bid);

        assert forall|j: int| 0 <= j < self.bidding_iter.current_index implies s1[(
        #[trigger] bits[j]) as int].1.bid is Some by {
            if j < ci {
                assert(s0[bits[j] as int].1.bid is Some);
                if bits[j] as int == w {
                    assert(s0[w].1.bid is None);
                    assert(false);
                }
            } else {
                assert(j == ci);
                assert(bits[j] as int == w);
            }
        }
        assert forall|j: int|
            self.bidding_iter.current_index <= j < bits.len() implies s1[(
        #[trigger] bits[j]) as int].1.bid is None by {
            assert(s0[bits[j] as int].1.bid is None);
            assert(bits[j] != bits[ci]);
        }
        if self.is_bidding() {
            let i = choose|i: int|
                0 <= i < s1.len() && spec_alive(#[trigger] s1[i].1) && s1[i].1.bid is None;
            assert(spec_alive(s0[i].1) && s0[i].1.bid is None);
            assert(g0.is_bidding());
            assert(self.round_iter.current_index == 0);
        }
        if !self.is_bidding() && alive_count(s1) >= 2 {
            if ci + 1 < bits.len() {
                assert(s1[bits[ci + 1] as int].1.bid is None);
                assert(spec_alive(s1[bits[ci + 1] as int].1));
                assert(self.is_bidding());
                assert(false);
            }
            assert(g0.spec_last_bidder());
            assert(sum_bids(s1) != self.cards_count);
        }
        if alive_count(s1) >= 2 {
            assert forall|i: int|
                0 <= i < s1.len() && spec_alive(#[trigger] s1[i].1) implies s1[i].1.deck@.len()
                + tricks_done(s1) + (if self.played(i) {
                1int
            } else {
                0int
            }) == self.cards_count by {
                assert(s1[i].1.deck == s0[i].1.deck);
                assert(s1[i].1.deck@.len() == s0[i].1.deck@.len());
                assert(g0.played(i) == self.played(i));
            }
        } else {
            assert(forall|i: int|
                0 <= i < s1.len() ==> (#[trigger] s1[i].1).deck@.len() == s0[i].1.deck@.len()
                    && s1[i].1.rounds == s0[i].1.rounds);
        }
    }
}

/// Where the hand size goes when a set ends: up by one until the deck would
/// run out for the living players, then down by one until one, then up again.
pub open spec fn spec_next_cards(mode: DealingMode, count: int, players: int) -> (DealingMode, int) {
    match mode {
        DealingMode::Increasing => if count + 1 < 39int / players {
            (DealingMode::Increasing, count + 1)
        } else {
            (DealingMode::Decreasing, count - 1)
        },
        DealingMode::Decreasing => if count - 1 == 0 {
            (DealingMode::Increasing, count + 1)
        } else {
            (DealingMode::Decreasing, count - 1)
        },
    }
}

impl Game {
    /// The hand size and direction for the next set.
    pub fn get_new_cards_mode(mode: DealingMode, count: usize, player_count: usize) -> (r: (
        DealingMode,
        usize,
    ))
        requires
            1 <= count,
            count < usize::MAX,
            1 <= player_count,
        ensures
            (r.0, r.1 as int) == spec_next_cards(mode, count as int, player_count as int),
    {
        match mode {
            DealingMode::Increasing => {
                if count + 1 < 39 / player_count {
                    (DealingMode::Increasing, count + 1)
                } else {
                    (DealingMode::Decreasing, count - 1)
                }
            },
            DealingMode::Decreasing => {
                if count - 1 == 0 {
                    (DealingMode::Increasing, count + 1)
                } else {
                    (DealingMode::Decreasing, count - 1)
                }
            },
        }
    }

    /// The value a card plays at: its base value, plus 100 when its rank is
    /// the trump rank (the upcard's next rank).
    fn get_card_value(&self, card: Card) -> (v: u16)
        ensures
            v as int == self.effective_value(card),
    {
        let base = card.get_value() as u16;
        let trump = self.upcard.rank.get_next();
        if trump == card.rank {
            base + 100
        } else {
            base
        }
    }

    /// The cards thrown into the current trick so far, in play order.
    fn get_pile(&self) -> (p: Vec<Turn>)
        ensures
            p@.len() == self.pile@.len(),
            forall|j: int| 0 <= j < p@.len() ==> p@[j] == self.pile@[j].1,
    {
        let mut p: Vec<Turn> = Vec::new();
        let mut i: usize = 0;
        while i < self.pile.len()
            invariant
                i <= self.pile@.len(),
                p@.len() == i,
                forall|j: int| 0 <= j < i ==> p@[j] == self.pile@[j].1,
            decreases self.pile@.len() - i,
        {
            let e = &self.pile[i];
            p.push(Turn { player_id: e.1.player_id.clone(), card: e.1.card });
            i = i + 1;
        }
        p
    }

    /// Whether every living player's hand is empty, which ends the set.
    fn all_alive_decks_empty(&self) -> (b: bool)
        ensures
            b == (forall|i: int|
                0 <= i < self.entries().len() && spec_alive(#[trigger] self.entries()[i].1)
                    ==> self.entries()[i].1.deck@.len() == 0),
    {
        let es = pmap_entries(&self.players);
        let mut i: usize = 0;
        while i < es.len()
            invariant
                i <= es@.len(),
                es@ == self.entries(),
                forall|k: int|
                    0 <= k < i && spec_alive(#[trigger] self.entries()[k].1)
                        ==> self.entries()[k].1.deck@.len() == 0,
            decreases es@.len() - i,
        {
            let e = &es[i];
            if e.1.lifes != 0 && e.1.deck.len() > 0 {
                proof {
                    assert(spec_alive(self.entries()[i as int].1));
                }
                return false;
            }
            i = i + 1;
        }
        true
    }

    /// Every seat's lifes, in seat order.
    fn get_lifes(&self) -> (r: Vec<(String, usize)>)
        ensures
            r@.len() == self.entries().len(),
            forall|i: int|
                0 <= i < r@.len() ==> #[trigger] r@[i] == (
                    self.entries()[i].0,
                    self.entries()[i].1.lifes,
                ),
    {
        let es = pmap_entries(&self.players);
        let mut r: Vec<(String, usize)> = Vec::new();
        let mut i: usize = 0;
        while i < es.len()
            invariant
                i <= es@.len(),
                es@ == self.entries(),
                r@.len() == i,
                forall|k: int|
                    0 <= k < i ==> #[trigger] r@[k] == (
                        self.entries()[k].0,
                        self.entries()[k].1.lifes,
                    ),
            decreases es@.len() - i,
        {
            let e = &es[i];
            r.push((e.0.clone(), e.1.lifes));
            i = i + 1;
        }
        r
    }

    /// The living players' trick counts, in seat order.
    fn get_points(&self) -> (r: Vec<(String, usize)>)
        ensures
            r@.len() == alive_filter(self.entries()).len(),
            forall|j: int|
                0 <= j < r@.len() ==> #[trigger] r@[j] == (
                    alive_filter(self.entries())[j].0,
                    alive_filter(self.entries())[j].1.rounds,
                ),
    {
        let es = pmap_entries(&self.players);
        let mut r: Vec<(String, usize)> = Vec::new();
        let mut i: usize = 0;
        while i < es.len()
            invariant
                i <= es@.len(),
                es@ == self.entries(),
                r@.len() == alive_filter(self.entries().take(i as int)).len(),
                forall|j: int|
                    0 <= j < r@.len() ==> #[trigger] r@[j] == (
                        alive_filter(self.entries().take(i as int))[j].0,
                        alive_filter(self.entries().take(i as int))[j].1.rounds,
                    ),
            decreases es@.len() - i,
        {
            proof {
                assert(self.entries().take(i + 1).drop_last() =~= self.entries().take(i as int));
                assert(self.entries().take(i + 1).last() == self.entries()[i as int]);
            }
            let e = &es[i];
            if e.1.lifes != 0 {
                r.push((e.0.clone(), e.1.rounds));
            }
            i = i + 1;
        }
        proof {
            assert(self.entries().take(self.entries().len() as int) =~= self.entries());
        }
        r
    }

    /// An element-for-element copy of a hand.
    fn copy_cards(v: &Vec<Card>) -> (r: Vec<Card>)
        ensures
            r@ == v@,
    {
        let mut r: Vec<Card> = Vec::new();
        let mut i: usize = 0;
        while i < v.len()
            invariant
                i <= v@.len(),
                r@.len() == i,
                forall|j: int| 0 <= j < i ==> r@[j] == v@[j],
            decreases v@.len() - i,
        {
            r.push(v[i]);
            i = i + 1;
        }
        proof {
            assert(r@ =~= v@);
        }
        r
    }

    /// The living players' private hands in seat order, and the upcard.
    pub fn get_decks(&self) -> (r: (Vec<(String, Vec<Card>)>, Card))
        ensures
            r.1 == self.upcard,
            r.0@.len() == alive_filter(self.entries()).len(),
            forall|j: int|
                0 <= j < r.0@.len() ==> (#[trigger] r.0@[j]).0 == alive_filter(self.entries())[j].0
                    && r.0@[j].1@ == alive_filter(self.entries())[j].1.deck@,
    {
        let es = pmap_entries(&self.players);
        let mut r: Vec<(String, Vec<Card>)> = Vec::new();
        let mut i: usize = 0;
        while i < es.len()
            invariant
                i <= es@.len(),
                es@ == self.entries(),
                r@.len() == alive_filter(self.entries().take(i as int)).len(),
                forall|j: int|
                    0 <= j < r@.len() ==> (#[trigger] r@[j]).0 == alive_filter(
                        self.entries().take(i as int),
                    )[j].0 && r@[j].1@ == alive_filter(self.entries().take(i as int))[j].1.deck@,
            decreases es@.len() - i,
        {
            proof {
                assert(self.entries().take(i + 1).drop_last() =~= self.entries().take(i as int));
                assert(self.entries().take(i + 1).last() == self.entries()[i as int]);
            }
            let e = &es[i];
            if e.1.lifes != 0 {
                r.push((e.0.clone(), Game::copy_cards(&e.1.deck)));
            }
            i = i + 1;
        }
        proof {
            assert(self.entries().take(self.entries().len() as int) =~= self.entries());
        }
        (r, self.upcard)
    }

    /// The first living seat's name.
    fn first_alive_key(&self) -> (name: String)
        requires
            alive_count(self.entries()) > 0,
        ensures
            exists|i: int|
                0 <= i < self.entries().len() && spec_alive(#[trigger] self.entries()[i].1)
                    && name == self.entries()[i].0,
    {
        proof {
            lemma_alive_witness(self.entries());
        }
        let es = pmap_entries(&self.players);
        let mut i: usize = 0;
        while i < es.len()
            invariant
                i <= es@.len(),
                es@ == self.entries(),
                exists|k: int|
                    0 <= k < self.entries().len() && spec_alive(#[trigger] self.entries()[k].1),
                forall|k: int| 0 <= k < i ==> !spec_alive(#[trigger] self.entries()[k].1),
            decreases es@.len() - i,
        {
            let e = &es[i];
            if e.1.lifes != 0 {
                proof {
                    assert(spec_alive(self.entries()[i as int].1));
                }
                return e.0.clone();
            }
            i = i + 1;
        }
        proof {
            let k = choose|k: int|
                0 <= k < self.entries().len() && spec_alive(#[trigger] self.entries()[k].1);
            assert(false);
        }
        vstd::pervasive::unreached()
    }
}

/// Rotating a distinct list keeps it distinct and keeps its members.
pub proof fn lemma_rotate_at(items: Seq<usize>, j: int)
    requires
        0 <= j <= items.len(),
        forall|a: int, b: int| 0 <= a < b < items.len() ==> items[a] != items[b],
    ensures
        ({
            let r = items.subrange(j, items.len() as int) + items.subrange(0, j);
            &&& r.len() == items.len()
            &&& forall|a: int, b: int| 0 <= a < b < r.len() ==> r[a] != r[b]
            &&& forall|x: usize| r.contains(x) <==> items.contains(x)
        }),
{
    let n = items.len() as int;
    let r = items.subrange(j, n) + items.subrange(0, j);
    assert(forall|k: int| 0 <= k < n - j ==> r[k] == items[j + k]);
    assert(forall|k: int| n - j <= k < n ==> r[k] == items[k - (n - j)]);
    assert forall|a: int, b: int| 0 <= a < b < r.len() implies r[a] != r[b] by {
        if a < n - j && b < n - j {
            assert(r[a] == items[j + a] && r[b] == items[j + b]);
        } else if a < n - j && b >= n - j {
            assert(r[a] == items[j + a] && r[b] == items[b - (n - j)]);
            assert(b - (n - j) < j <= j + a);
        } else {
            assert(r[a] == items[a - (n - j)] && r[b] == items[b - (n - j)]);
        }
    }
    assert forall|x: usize| r.contains(x) implies items.contains(x) by {
        let k = choose|k: int| 0 <= k < r.len() && r[k] == x;
        if k < n - j {
            assert(items[j + k] == x);
        } else {
            assert(items[k - (n - j)] == x);
        }
    }
    assert forall|x: usize| items.contains(x) implies r.contains(x) by {
        let i = choose|i: int| 0 <= i < items.len() && items[i] == x;
        if i >= j {
            assert(r[i - j] == x);
        } else {
            assert(r[i + (n - j)] == x);
        }
    }
}

/// The smallest hand slot holding card `c`, or -1 when the hand lacks it.
pub open spec fn card_index(deck: Seq<Card>, c: Card) -> int
    decreases deck.len(),
{
    if deck.len() == 0 {
        -1
    } else if deck[0] == c {
        0
    } else {
        let r = card_index(deck.drop_first(), c);
        if r < 0 {
            -1
        } else {
            r + 1
        }
    }
}

pub proof fn lemma_card_index(deck: Seq<Card>, c: Card)
    ensures
        -1 <= card_index(deck, c) < deck.len(),
        card_index(deck, c) >= 0 ==> deck[card_index(deck, c)] == c,
        card_index(deck, c) == -1 ==> forall|i: int| 0 <= i < deck.len() ==> deck[i] != c,
        forall|i: int| 0 <= i < card_index(deck, c) ==> deck[i] != c,
    decreases deck.len(),
{
    if deck.len() > 0 && deck[0] != c {
        lemma_card_index(deck.drop_first(), c);
        assert forall|i: int|
            0 <= i < deck.len() && card_index(deck, c) == -1 implies deck[i] != c by {
            if i > 0 {
                assert(deck.drop_first()[i - 1] == deck[i]);
            }
        }
        assert forall|i: int| 0 <= i < card_index(deck, c) implies deck[i] != c by {
            if i > 0 {
                assert(deck.drop_first()[i - 1] == deck[i]);
            }
        }
    }
}

/// Settlement speaks only of lifes and trick counts, so it survives any
/// step that keeps both.
pub proof fn lemma_settled_transfer(g0: Game, ga: Game, gb: Game)
    requires
        Game::spec_settled(g0, ga),
        ga.entries().len() == g0.entries().len(),
        gb.entries().len() == ga.entries().len(),
        forall|i: int|
            0 <= i < ga.entries().len() ==> (#[trigger] gb.entries()[i]).1.lifes
                == ga.entries()[i].1.lifes && gb.entries()[i].1.rounds == ga.entries()[i].1.rounds,
    ensures
        Game::spec_settled(g0, gb),
{
    reveal(Game::spec_settled);
    let jw = choose|jw: int|
        #[trigger] is_pile_max(g0.pile@, jw) && ({
            let wi = key_index(g0.entries(), g0.pile@[jw].1.player_id@);
            forall|i: int|
                0 <= i < g0.entries().len() ==> {
                    let e0 = #[trigger] g0.entries()[i];
                    let tricks = e0.1.rounds + (if i == wi {
                        1int
                    } else {
                        0int
                    });
                    &&& ga.entries()[i].1.lifes == e0.1.lifes - (if spec_alive(e0.1) && (
                    match e0.1.bid {
                        Some(b) => b as int != tricks,
                        None => true,
                    }) {
                        1int
                    } else {
                        0int
                    })
                    &&& ga.entries()[i].1.rounds == 0
                }
        });
    let wi = key_index(g0.entries(), g0.pile@[jw].1.player_id@);
    assert forall|i: int|
        0 <= i < g0.entries().len() implies {
        let e0 = #[trigger] g0.entries()[i];
        let tricks = e0.1.rounds + (if i == wi {
            1int
        } else {
            0int
        });
        &&& gb.entries()[i].1.lifes == e0.1.lifes - (if spec_alive(e0.1) && (match e0.1.bid {
            Some(b) => b as int != tricks,
            None => true,
        }) {
            1int
        } else {
            0int
        })
        &&& gb.entries()[i].1.rounds == 0
    } by {
        assert(gb.entries()[i].1.lifes == ga.entries()[i].1.lifes);
        assert(gb.entries()[i].1.rounds == ga.entries()[i].1.rounds);
    }
}

/// Lifting the settlement over the card play that closed the set: the mid
/// state differs from the starting state only in the dealer's hand and the
/// pile, neither of which the settlement formula reads.
pub proof fn lemma_settled_lift(g0: Game, g1: Game, turn: Turn, gf: Game)
    requires
        Game::spec_settled(g1, gf),
        g1.entries().len() == g0.entries().len(),
        gf.entries().len() == g0.entries().len(),
        forall|i: int|
            0 <= i < g0.entries().len() ==> (#[trigger] g1.entries()[i]).0@
                == g0.entries()[i].0@,
        forall|i: int|
            0 <= i < g0.entries().len() ==> {
                let e1 = #[trigger] g1.entries()[i];
                let e0 = g0.entries()[i];
                &&& e1.1.lifes == e0.1.lifes
                &&& e1.1.bid == e0.1.bid
                &&& e1.1.rounds == e0.1.rounds
            },
        g1.pile@ == g0.pile@.push((((g0.effective_value(turn.card)) as u16), turn)),
    ensures
        g0.settled_after(turn, gf),
{
    reveal(Game::spec_settled);
    reveal(Game::settled_after);
    let s0 = g0.entries();
    let s1 = g1.entries();
    let full_pile = g0.pile@.push((((g0.effective_value(turn.card)) as u16), turn));
    let jw = choose|jw: int|
        #[trigger] is_pile_max(g1.pile@, jw) && ({
            let wi = key_index(g1.entries(), g1.pile@[jw].1.player_id@);
            forall|i: int|
                0 <= i < g1.entries().len() ==> {
                    let e0 = #[trigger] g1.entries()[i];
                    let tricks = e0.1.rounds + (if i == wi {
                        1int
                    } else {
                        0int
                    });
                    &&& gf.entries()[i].1.lifes == e0.1.lifes - (if spec_alive(e0.1) && (
                    match e0.1.bid {
                        Some(b) => b as int != tricks,
                        None => true,
                    }) {
                        1int
                    } else {
                        0int
                    })
                    &&& gf.entries()[i].1.rounds == 0
                }
        });
    let wkey = full_pile[jw].1.player_id@;
    assert(g1.pile@[jw] == full_pile[jw]);
    crate::pmap::lemma_key_index_same_keys(s1, s0, wkey);
    let wi = key_index(s0, wkey);
    assert forall|i: int|
        0 <= i < s0.len() implies {
        let e0 = #[trigger] s0[i];
        let tricks = e0.1.rounds + (if i == wi {
            1int
        } else {
            0int
        });
        &&& gf.entries()[i].1.lifes == e0.1.lifes - (if spec_alive(e0.1) && (match e0.1.bid {
            Some(b) => b as int != tricks,
            None => true,
        }) {
            1int
        } else {
            0int
        })
        &&& gf.entries()[i].1.rounds == 0
    } by {
        assert(s1[i].1.lifes == s0[i].1.lifes);
        assert(s1[i].1.bid == s0[i].1.bid);
        assert(s1[i].1.rounds == s0[i].1.rounds);
        assert(spec_alive(s1[i].1) == spec_alive(s0[i].1));
    }
    assert(is_pile_max(full_pile, jw));
}

/// Any player loses one life at set end when the bid misses the tricks won.
pub open spec fn loses_life(p: Player) -> bool {
    spec_alive(p) && p.bid != Some(p.rounds)
}

/// The first pile slot carrying the pile's highest effective value.
pub open spec fn is_pile_max(pile: Seq<(u16, Turn)>, j: int) -> bool {
    &&& 0 <= j < pile.len()
    &&& forall|k: int| 0 <= k < pile.len() ==> (#[trigger] pile[k]).0 <= pile[j].0
    &&& forall|k: int| 0 <= k < j ==> (#[trigger] pile[k]).0 < pile[j].0
}

/// In a list with distinct keys, the key at `i` is found at `i`.
pub proof fn lemma_key_index_of(s: Seq<(String, Player)>, i: int)
    requires
        0 <= i < s.len(),
        forall|a: int, b: int| 0 <= a < b < s.len() ==> s[a].0@ != s[b].0@,
    ensures
        key_index(s, s[i].0@) == i,
{
    lemma_key_index(s, s[i].0@);
    let ki = key_index(s, s[i].0@);
    if ki < 0 {
        assert(s[i].0@ != s[i].0@);
    }
    if ki != i {
        assert(s[ki].0@ == s[i].0@);
        assert(false);
    }
}

/// Removing one slot from a distinct list keeps it distinct and drops
/// exactly that value.
pub proof fn lemma_distinct_remove(items: Seq<usize>, j: int)
    requires
        0 <= j < items.len(),
        forall|a: int, b: int| 0 <= a < b < items.len() ==> items[a] != items[b],
    ensures
        forall|a: int, b: int|
            0 <= a < b < items.remove(j).len() ==> items.remove(j)[a] != items.remove(j)[b],
        forall|x: usize|
            items.remove(j).contains(x) <==> (items.contains(x) && x != items[j]),
{
    let r = items.remove(j);
    assert forall|a: int, b: int| 0 <= a < b < r.len() implies r[a] != r[b] by {
        let a2 = if a < j { a } else { a + 1 };
        let b2 = if b < j { b } else { b + 1 };
        assert(r[a] == items[a2]);
        assert(r[b] == items[b2]);
    }
    assert forall|x: usize| r.contains(x) implies (items.contains(x) && x != items[j]) by {
        let k = choose|k: int| 0 <= k < r.len() && r[k] == x;
        let k2 = if k < j { k } else { k + 1 };
        assert(items[k2] == x);
        assert(k2 != j);
    }
    assert forall|x: usize| items.contains(x) && x != items[j] implies r.contains(x) by {
        let a = choose|a: int| 0 <= a < items.len() && items[a] == x;
        assert(a != j);
        let b = if a < j { a } else { a - 1 };
        assert(r[b] == items[a]);
    }
}

/// Counting only liveness, two equally long lists with the same living
/// pattern count alike.
pub proof fn lemma_alive_count_same(s0: Seq<(String, Player)>, s1: Seq<(String, Player)>)
    requires
        s0.len() == s1.len(),
        forall|i: int| 0 <= i < s0.len() ==> spec_alive(#[trigger] s1[i].1) == spec_alive(s0[i].1),
    ensures
        alive_count(s1) == alive_count(s0),
    decreases s0.len(),
{
    if s0.len() > 0 {
        assert(forall|i: int|
            0 <= i < s0.drop_last().len() ==> #[trigger] s0.drop_last()[i] == s0[i]);
        assert(forall|i: int|
            0 <= i < s1.drop_last().len() ==> #[trigger] s1.drop_last()[i] == s1[i]);
        lemma_alive_count_same(s0.drop_last(), s1.drop_last());
        assert(s0.last() == s0[s0.len() - 1]);
        assert(s1.last() == s1[s1.len() - 1]);
    }
}

/// Lifes only going down can only shrink the living count.
pub proof fn lemma_alive_count_mono(s0: Seq<(String, Player)>, s1: Seq<(String, Player)>)
    requires
        s0.len() == s1.len(),
        forall|i: int| 0 <= i < s0.len() ==> (spec_alive(#[trigger] s1[i].1) ==> spec_alive(s0[i].1)),
    ensures
        alive_count(s1) <= alive_count(s0),
    decreases s0.len(),
{
    if s0.len() > 0 {
        assert(forall|i: int|
            0 <= i < s0.drop_last().len() ==> #[trigger] s0.drop_last()[i] == s0[i]);
        assert(forall|i: int|
            0 <= i < s1.drop_last().len() ==> #[trigger] s1.drop_last()[i] == s1[i]);
        lemma_alive_count_mono(s0.drop_last(), s1.drop_last());
        assert(s0.last() == s0[s0.len() - 1]);
        assert(s1.last() == s1[s1.len() - 1]);
    }
}

/// A prefix never counts more living seats than the whole.
pub proof fn lemma_alive_count_take_le(s: Seq<(String, Player)>, k: int)
    requires
        0 <= k <= s.len(),
    ensures
        alive_count(s.take(k)) <= alive_count(s),
        alive_count(s.take(k)) >= 0,
    decreases s.len() - k,
{
    lemma_alive_count_nonneg(s.take(k));
    if k < s.len() {
        assert(s.take(k + 1).drop_last() =~= s.take(k));
        assert(s.take(k + 1).last() == s[k]);
        lemma_alive_count_take_le(s, k + 1);
    } else {
        assert(s.take(k) =~= s);
    }
}

impl Game {
    /// Close the trick: the highest card takes it, its player gains a trick,
    /// the pile is emptied. Returns the trick in play order and the winner.
    fn award_points(&mut self) -> (r: (Vec<Turn>, String))
        requires
            old(self).pile@.len() >= 1,
            forall|a: int, b: int|
                0 <= a < b < old(self).entries().len() ==> old(self).entries()[a].0@ != old(self).entries()[b].0@,
            forall|j: int|
                0 <= j < old(self).pile@.len() ==> exists|i: int|
                    0 <= i < old(self).entries().len() && (#[trigger] old(self).entries()[i]).0@
                        == (#[trigger] old(self).pile@[j]).1.player_id@ && spec_alive(
                        old(self).entries()[i].1,
                    ),
            forall|i: int|
                0 <= i < old(self).entries().len() ==> (#[trigger] old(self).entries()[i]).1.rounds <= 39,
        ensures
            r.0@.len() == old(self).pile@.len(),
            forall|j: int| 0 <= j < r.0@.len() ==> #[trigger] r.0@[j] == old(self).pile@[j].1,
            final(self).pile@.len() == 0,
            exists|jw: int| #[trigger] is_pile_max(old(self).pile@, jw) && r.1@ == old(self).pile@[jw].1.player_id@,
            ({
                let s0 = old(self).entries();
                let wi = key_index(s0, r.1@);
                &&& 0 <= wi < s0.len()
                &&& s0[wi].0@ == r.1@
                &&& spec_alive(s0[wi].1)
                &&& final(self).entries() == s0.update(
                    wi,
                    (
                        s0[wi].0,
                        Player {
                            lifes: s0[wi].1.lifes,
                            deck: s0[wi].1.deck,
                            bid: s0[wi].1.bid,
                            rounds: (s0[wi].1.rounds + 1) as usize,
                        },
                    ),
                )
            }),
            final(self).bidding_iter == old(self).bidding_iter,
            final(self).round_iter == old(self).round_iter,
            final(self).cards_count == old(self).cards_count,
            final(self).upcard == old(self).upcard,
            final(self).dealing_mode == old(self).dealing_mode,
    {
        let mut jw: usize = 0;
        let mut k: usize = 1;
        while k < self.pile.len()
            invariant
                self.pile@.len() >= 1,
                0 <= jw < k <= self.pile@.len(),
                forall|t: int| 0 <= t < k ==> (#[trigger] self.pile@[t]).0 <= self.pile@[jw as int].0,
                forall|t: int| 0 <= t < jw ==> (#[trigger] self.pile@[t]).0 < self.pile@[jw as int].0,
            decreases self.pile@.len() - k,
        {
            if self.pile[k].0 > self.pile[jw].0 {
                jw = k;
            }
            k = k + 1;
        }
        proof {
            assert(is_pile_max(self.pile@, jw as int));
        }
        let winner_id = self.pile[jw].1.player_id.clone();
        let pile_list = self.get_pile();
        self.pile.clear();

        let ghost s0 = old(self).entries();
        proof {
            let i = choose|i: int|
                0 <= i < s0.len() && (#[trigger] s0[i]).0@ == old(self).pile@[jw as int].1.player_id@
                    && spec_alive(s0[i].1);
            lemma_key_index_of(s0, i);
        }
        let p = match pmap_get(&self.players, &winner_id) {
            Some(p) => p,
            None => vstd::pervasive::unreached(),
        };
        let p2 = Player { lifes: p.lifes, deck: p.deck, bid: p.bid, rounds: p.rounds + 1 };
        pmap_insert(&mut self.players, winner_id.clone(), p2);
        (pile_list, winner_id)
    }

    /// Settle the set: every living player whose bid missed their tricks
    /// loses a life, trick counts restart at zero, and seats that ran out of
    /// lifes leave both cursors.
    fn remove_lifes(&mut self)
        requires
            old(self).entries().len() <= 13,
            forall|a: int, b: int|
                0 <= a < b < old(self).entries().len() ==> old(self).entries()[a].0@ != old(self).entries()[b].0@,
            old(self).cursor_ok(old(self).bidding_iter),
            old(self).cursor_ok(old(self).round_iter),
            forall|i: int|
                0 <= i < old(self).entries().len() && !spec_alive(
                    #[trigger] old(self).entries()[i].1,
                ) ==> old(self).entries()[i].1.rounds == 0,
        ensures
            final(self).entries().len() == old(self).entries().len(),
            forall|i: int|
                0 <= i < old(self).entries().len() ==> {
                    let e0 = #[trigger] old(self).entries()[i];
                    let e1 = final(self).entries()[i];
                    &&& e1.0 == e0.0
                    &&& e1.1.deck == e0.1.deck
                    &&& e1.1.bid == e0.1.bid
                    &&& e1.1.rounds == 0
                    &&& e1.1.lifes == (if loses_life(e0.1) {
                        (e0.1.lifes - 1) as usize
                    } else {
                        e0.1.lifes
                    })
                },
            final(self).cursor_ok(final(self).bidding_iter),
            final(self).cursor_ok(final(self).round_iter),
            final(self).bidding_iter.current_index == old(self).bidding_iter.current_index,
            final(self).round_iter.current_index == old(self).round_iter.current_index,
            final(self).pile == old(self).pile,
            final(self).cards_count == old(self).cards_count,
            final(self).upcard == old(self).upcard,
            final(self).dealing_mode == old(self).dealing_mode,
    {
        let ghost s0 = old(self).entries();
        let n = pmap_len(&self.players);
        let mut i: usize = 0;
        while i < n
            invariant
                i <= n,
                n == s0.len(),
                s0 == old(self).entries(),
                forall|a: int, b: int| 0 <= a < b < s0.len() ==> s0[a].0@ != s0[b].0@,
                self.entries().len() == n,
                forall|k: int| i <= k < n ==> #[trigger] self.entries()[k] == s0[k],
                forall|k: int|
                    0 <= k < i ==> {
                        let e0 = #[trigger] s0[k];
                        let e1 = self.entries()[k];
                        &&& e1.0 == e0.0
                        &&& e1.1.deck == e0.1.deck
                        &&& e1.1.bid == e0.1.bid
                        &&& e1.1.rounds == 0
                        &&& e1.1.lifes == (if loses_life(e0.1) {
                            (e0.1.lifes - 1) as usize
                        } else {
                            e0.1.lifes
                        })
                    },
                forall|k: int|
                    0 <= k < n && !spec_alive(#[trigger] s0[k].1) ==> s0[k].1.rounds == 0,
                self.bidding_iter == old(self).bidding_iter,
                self.round_iter == old(self).round_iter,
                self.pile == old(self).pile,
                self.cards_count == old(self).cards_count,
                self.upcard == old(self).upcard,
                self.dealing_mode == old(self).dealing_mode,
            decreases n - i,
        {
            let e = match pmap_get_index(&self.players, i) {
                Some(e) => e,
                None => vstd::pervasive::unreached(),
            };
            if e.1.lifes != 0 {
                let loses = match e.1.bid {
                    Some(b) => b != e.1.rounds,
                    None => true,
                };
                let lifes2 = if loses {
                    e.1.lifes - 1
                } else {
                    e.1.lifes
                };
                let p2 = Player { lifes: lifes2, deck: e.1.deck, bid: e.1.bid, rounds: 0 };
                proof {
                    assert(forall|k: int|
                        0 <= k < n ==> (#[trigger] self.entries()[k]).0 == s0[k].0);
                    assert forall|a: int, b: int|
                        0 <= a < b < self.entries().len() implies self.entries()[a].0@
                        != self.entries()[b].0@ by {
                        assert(self.entries()[a].0 == s0[a].0);
                        assert(self.entries()[b].0 == s0[b].0);
                    }
                    lemma_key_index_of(self.entries(), i as int);
                }
                pmap_insert(&mut self.players, e.0.clone(), p2);
            } else {
                proof {
                    assert(s0[i as int].1.rounds == 0);
                }
            }
            i = i + 1;
        }

        // seats that ran out of lifes leave both cursors
        let ghost s1 = self.entries();
        proof {
            assert(forall|k: int|
                0 <= k < n && spec_alive(#[trigger] s1[k].1) ==> spec_alive(s0[k].1));
        }
        let mut i: usize = 0;
        while i < n
            invariant
                i <= n,
                n == s1.len(),
                s1 == self.entries(),
                forall|a: int, b: int|
                    0 <= a < b < self.bidding_iter.items@.len() ==> self.bidding_iter.items@[a]
                        != self.bidding_iter.items@[b],
                forall|a: int, b: int|
                    0 <= a < b < self.round_iter.items@.len() ==> self.round_iter.items@[a]
                        != self.round_iter.items@[b],
                forall|j: int|
                    0 <= j < self.bidding_iter.items@.len() ==> (
                    #[trigger] self.bidding_iter.items@[j]) < n,
                forall|j: int|
                    0 <= j < self.round_iter.items@.len() ==> (#[trigger] self.round_iter.items@[j])
                        < n,
                forall|j: int|
                    0 <= j < self.bidding_iter.items@.len() ==> (spec_alive(
                        s1[(#[trigger] self.bidding_iter.items@[j]) as int].1,
                    ) || self.bidding_iter.items@[j] >= i),
                forall|j: int|
                    0 <= j < self.round_iter.items@.len() ==> (spec_alive(
                        s1[(#[trigger] self.round_iter.items@[j]) as int].1,
                    ) || self.round_iter.items@[j] >= i),
                forall|k: int|
                    0 <= k < n && spec_alive(#[trigger] s1[k].1)
                        ==> self.bidding_iter.items@.contains(k as usize),
                forall|k: int|
                    0 <= k < n && spec_alive(#[trigger] s1[k].1)
                        ==> self.round_iter.items@.contains(k as usize),
                self.bidding_iter.current_index == old(self).bidding_iter.current_index,
                self.round_iter.current_index == old(self).round_iter.current_index,
                self.pile == old(self).pile,
                self.cards_count == old(self).cards_count,
                self.upcard == old(self).upcard,
                self.dealing_mode == old(self).dealing_mode,
            decreases n - i,
        {
            let e = match pmap_get_index(&self.players, i) {
                Some(e) => e,
                None => vstd::pervasive::unreached(),
            };
            if e.1.lifes == 0 {
                let ghost ritems = self.round_iter.items@;
                let ghost bitems = self.bidding_iter.items@;
                proof {
                    crate::cycle::lemma_first_index(ritems, i);
                    crate::cycle::lemma_first_index(bitems, i);
                    let jr = crate::cycle::first_index(ritems, i);
                    if jr >= 0 {
                        lemma_distinct_remove(ritems, jr);
                    }
                    let jb = crate::cycle::first_index(bitems, i);
                    if jb >= 0 {
                        lemma_distinct_remove(bitems, jb);
                    }
                }
                let _ = self.round_iter.remove(i);
                let _ = self.bidding_iter.remove(i);
                proof {
                    assert(!spec_alive(s1[i as int].1));
                    assert forall|k: int|
                        0 <= k < n && spec_alive(#[trigger] s1[k].1) implies
                        self.bidding_iter.items@.contains(k as usize) by {
                        assert(bitems.contains(k as usize));
                        assert(k != i as int);
                    }
                    assert forall|k: int|
                        0 <= k < n && spec_alive(#[trigger] s1[k].1) implies
                        self.round_iter.items@.contains(k as usize) by {
                        assert(ritems.contains(k as usize));
                        assert(k != i as int);
                    }
                    assert forall|j: int|
                        0 <= j < self.round_iter.items@.len() implies (
                    #[trigger] self.round_iter.items@[j]) < n && (spec_alive(
                        s1[self.round_iter.items@[j] as int].1,
                    ) || self.round_iter.items@[j] >= i + 1) by {
                        assert(self.round_iter.items@.contains(self.round_iter.items@[j]));
                        assert(ritems.contains(self.round_iter.items@[j]));
                        let a = choose|a: int|
                            0 <= a < ritems.len() && ritems[a] == self.round_iter.items@[j];
                        assert(self.round_iter.items@[j] != i as usize);
                    }
                    assert forall|j: int|
                        0 <= j < self.bidding_iter.items@.len() implies (
                    #[trigger] self.bidding_iter.items@[j]) < n && (spec_alive(
                        s1[self.bidding_iter.items@[j] as int].1,
                    ) || self.bidding_iter.items@[j] >= i + 1) by {
                        assert(self.bidding_iter.items@.contains(self.bidding_iter.items@[j]));
                        assert(bitems.contains(self.bidding_iter.items@[j]));
                        assert(self.bidding_iter.items@[j] != i as usize);
                    }
                }
            }
            i = i + 1;
        }
    }
}

impl Game {
    /// Open the next set: pick the next hand size and direction, shuffle,
    /// deal each living player their hand, clear their bids, and set the new
    /// upcard aside.
    fn start_new_set(&mut self)
        requires
            2 <= old(self).entries().len() <= 13,
            forall|a: int, b: int|
                0 <= a < b < old(self).entries().len() ==> old(self).entries()[a].0@ != old(self).entries()[b].0@,
            2 <= alive_count(old(self).entries()),
            old(self).cursor_ok(old(self).bidding_iter),
            old(self).cursor_ok(old(self).round_iter),
            old(self).bidding_iter.current_index == 0,
            old(self).round_iter.current_index == 0,
            old(self).pile@.len() == 0,
            forall|i: int|
                0 <= i < old(self).entries().len() ==> (#[trigger] old(self).entries()[i]).1.rounds == 0,
            forall|i: int|
                0 <= i < old(self).entries().len() && !spec_alive(#[trigger] old(self).entries()[i].1) ==> old(self).entries()[i].1.deck@.len() == 0,
            forall|i: int|
                0 <= i < old(self).entries().len() ==> (#[trigger] old(self).entries()[i]).1.lifes <= 5,
            1 <= old(self).cards_count <= 39,
            alive_count(old(self).entries()) * old(self).cards_count + 1 <= 40,
        ensures
            final(self).wf(),
            final(self).is_bidding(),
            final(self).entries().len() == old(self).entries().len(),
            forall|i: int|
                0 <= i < old(self).entries().len() ==> {
                    let e0 = #[trigger] old(self).entries()[i];
                    let e1 = final(self).entries()[i];
                    &&& e1.0 == e0.0
                    &&& e1.1.lifes == e0.1.lifes
                    &&& e1.1.rounds == 0
                    &&& (spec_alive(e0.1) ==> e1.1.bid is None && e1.1.deck@.len() == final(self).cards_count)
                    &&& (!spec_alive(e0.1) ==> e1 == e0)
                },
            (final(self).dealing_mode, final(self).cards_count as int) == spec_next_cards(
                old(self).dealing_mode,
                old(self).cards_count as int,
                alive_count(old(self).entries()),
            ),
            final(self).bidding_iter == old(self).bidding_iter,
            final(self).round_iter == old(self).round_iter,
            final(self).pile == old(self).pile,
            Game::fresh_hands(*final(self)),
    {
        let ghost s0 = old(self).entries();
        let alive = self.alive_count_exec();
        let (mode, count) = Game::get_new_cards_mode(self.dealing_mode, self.cards_count, alive);
        proof {
            let ac = alive as int;
            let cc = old(self).cards_count as int;
            lemma_alive_count_nonneg(s0);
            vstd::arithmetic::div_mod::lemma_fundamental_div_mod(39, ac);
            vstd::arithmetic::div_mod::lemma_mod_division_less_than_divisor(39, ac);
            assert(ac * (39int / ac) <= 39);
            assert(39int / ac >= 3) by (nonlinear_arith)
                requires 2 <= ac <= 13, ac * (39int / ac) <= 39, 39int == ac * (39int / ac) + 39int % ac, 0 <= 39int % ac < ac;
            match old(self).dealing_mode {
                DealingMode::Increasing => {
                    if cc + 1 < 39int / ac {
                        assert(ac * (cc + 1) <= ac * (39int / ac - 1)) by (nonlinear_arith)
                            requires ac >= 2, cc + 1 <= 39int / ac - 1;
                        assert(ac * (39int / ac - 1) == ac * (39int / ac) - ac) by (nonlinear_arith);
                        assert(ac * (cc + 1) + 1 <= 40);
                    } else {
                        assert(cc + 1 >= 39int / ac);
                        assert(cc >= 2);
                        assert(ac * (cc - 1) <= ac * cc) by (nonlinear_arith)
                            requires ac >= 0, cc - 1 <= cc;
                    }
                },
                DealingMode::Decreasing => {
                    if cc == 1 {
                        assert(ac * 2 + 1 <= 40) by (nonlinear_arith)
                            requires 2 <= ac <= 13;
                    } else {
                        assert(ac * (cc - 1) <= ac * cc) by (nonlinear_arith)
                            requires ac >= 0, cc - 1 <= cc;
                    }
                },
            }
            assert(1 <= count);
            assert(alive as int * count as int + 1 <= 40);
            assert(count <= 39);
        }
        self.dealing_mode = mode;
        self.cards_count = count;
        let mut deck = Card::shuffled_deck();
        let n = pmap_len(&self.players);
        let mut pos: usize = 0;
        let mut i: usize = 0;
        while i < n
            invariant
                i <= n,
                n == s0.len(),
                s0 == old(self).entries(),
                2 <= n <= 13,
                forall|a: int, b: int| 0 <= a < b < s0.len() ==> s0[a].0@ != s0[b].0@,
                deck@.len() == 40,
                1 <= count <= 39,
                self.cards_count == count,
                self.dealing_mode == mode,
                alive_count(s0) * count + 1 <= 40,
                pos == alive_count(s0.take(i as int)) * count,
                0 <= alive_count(s0.take(i as int)),
                self.entries().len() == n,
                forall|k: int| i <= k < n ==> #[trigger] self.entries()[k] == s0[k],
                forall|k: int|
                    0 <= k < i ==> {
                        let e0 = #[trigger] s0[k];
                        let e1 = self.entries()[k];
                        &&& e1.0 == e0.0
                        &&& e1.1.lifes == e0.1.lifes
                        &&& e1.1.rounds == e0.1.rounds
                        &&& (spec_alive(e0.1) ==> e1.1.bid is None && e1.1.deck@.len() == count)
                        &&& (!spec_alive(e0.1) ==> e1 == e0)
                    },
                forall|k: int|
                    0 <= k < i && spec_alive(s0[k].1) ==> (#[trigger] self.entries()[k]).1.deck@
                        == deck@.subrange(
                        alive_count(s0.take(k)) * count,
                        (alive_count(s0.take(k)) + 1) * count,
                    ),
                self.bidding_iter == old(self).bidding_iter,
                self.round_iter == old(self).round_iter,
                self.pile == old(self).pile,
            decreases n - i,
        {
            proof {
                assert(s0.take(i + 1).drop_last() =~= s0.take(i as int));
                assert(s0.take(i + 1).last() == s0[i as int]);
                lemma_alive_count_take_le(s0, i as int);
                lemma_alive_count_take_le(s0, i + 1);
            }
            let e = match pmap_get_index(&self.players, i) {
                Some(e) => e,
                None => vstd::pervasive::unreached(),
            };
            if e.1.lifes != 0 {
                proof {
                    assert(spec_alive(s0[i as int].1));
                    assert(alive_count(s0.take(i + 1)) == alive_count(s0.take(i as int)) + 1);
                    assert((alive_count(s0.take(i as int)) + 1) * count <= alive_count(s0) * count)
                        by (nonlinear_arith)
                        requires
                            count >= 0,
                            alive_count(s0.take(i as int)) + 1 <= alive_count(s0),
                    ;
                    assert((alive_count(s0.take(i as int)) + 1) * count == alive_count(
                        s0.take(i as int),
                    ) * count + count) by (nonlinear_arith);
                    assert(pos + count <= 39);
                }
                let mut hand: Vec<Card> = Vec::new();
                proof {
                    assert(hand@ =~= deck@.subrange(pos as int, pos as int));
                }
                let mut c: usize = 0;
                while c < count
                    invariant
                        c <= count,
                        deck@.len() == 40,
                        pos + count <= 39,
                        hand@.len() == c,
                        hand@ == deck@.subrange(pos as int, pos + c),
                    decreases count - c,
                {
                    hand.push(deck[pos + c]);
                    proof {
                        assert(hand@ =~= deck@.subrange(pos as int, pos + c + 1));
                    }
                    c = c + 1;
                }
                let p2 = Player { lifes: e.1.lifes, deck: hand, bid: None, rounds: e.1.rounds };
                proof {
                    assert(forall|k: int|
                        0 <= k < n ==> (#[trigger] self.entries()[k]).0 == s0[k].0);
                    assert forall|a: int, b: int|
                        0 <= a < b < self.entries().len() implies self.entries()[a].0@
                        != self.entries()[b].0@ by {
                        assert(self.entries()[a].0 == s0[a].0);
                        assert(self.entries()[b].0 == s0[b].0);
                    }
                    lemma_key_index_of(self.entries(), i as int);
                }
                pmap_insert(&mut self.players, e.0.clone(), p2);
                pos = pos + count;
            } else {
                proof {
                    assert(!spec_alive(s0[i as int].1));
                    assert(alive_count(s0.take(i + 1)) == alive_count(s0.take(i as int)));
                }
            }
            i = i + 1;
        }
        proof {
            lemma_alive_count_take_le(s0, n as int);
            assert(s0.take(n as int) =~= s0);
            assert(alive_count(s0.take(n as int)) == alive_count(s0));
            assert(alive_count(s0) * count <= 39);
            assert(pos <= 39);
        }
        self.upcard = deck[pos];

        proof {
            let s1 = self.entries();
            assert(forall|i: int|
                0 <= i < n ==> spec_alive(#[trigger] s1[i].1) == spec_alive(s0[i].1));
            lemma_alive_count_same(s0, s1);
            lemma_all_fresh_tricks(s1);
            lemma_alive_witness(s0);
            let w = choose|i: int| 0 <= i < s0.len() && spec_alive(#[trigger] s0[i].1);
            assert(spec_alive(s1[w].1) && s1[w].1.bid is None);
            assert(self.is_bidding());
            assert forall|a: int, b: int| 0 <= a < b < s1.len() implies s1[a].0@ != s1[b].0@ by {
                assert(s1[a].0 == s0[a].0);
                assert(s1[b].0 == s0[b].0);
            }
            assert(self.wf());
            // the re-dealt hands are disjoint segments of one fresh shuffle,
            // and the new upcard is the card just past them
            assert(s0.take(n as int) =~= s0);
            assert(pos == alive_count(s0) * (count as int));
            lemma_dealt_segments(s0, s1, deck@, count as int, self.upcard);
        }
    }
}

/// Hands dealt as consecutive segments of one duplicate-free shuffle are
/// pairwise disjoint deck cards, and the card just past them is none of them.
proof fn lemma_dealt_segments(
    s0: Seq<(String, Player)>,
    s1: Seq<(String, Player)>,
    deckv: Seq<Card>,
    cnt: int,
    up: Card,
)
    requires
        deckv.to_multiset() == deck_seq().to_multiset(),
        cnt >= 1,
        s1.len() == s0.len(),
        alive_count(s0) * cnt <= 39,
        forall|k: int|
            0 <= k < s0.len() && !spec_alive(#[trigger] s0[k].1) ==> s1[k].1.deck@.len() == 0,
        forall|k: int|
            0 <= k < s0.len() && spec_alive(#[trigger] s0[k].1) ==> s1[k].1.deck@
                == deckv.subrange(
                alive_count(s0.take(k)) * cnt,
                (alive_count(s0.take(k)) + 1) * cnt,
            ),
        up == deckv[alive_count(s0) * cnt],
    ensures
        forall|i: int, j: int, a: int, b: int|
            0 <= i < s1.len() && 0 <= j < s1.len() && 0 <= a < s1[i].1.deck@.len() && 0 <= b
                < s1[j].1.deck@.len() && (i != j || a != b) ==> (#[trigger] s1[i].1.deck@[a]) != (
            #[trigger] s1[j].1.deck@[b]),
        forall|i: int, a: int|
            0 <= i < s1.len() && 0 <= a < s1[i].1.deck@.len() ==> deck_seq().contains(
                #[trigger] s1[i].1.deck@[a],
            ),
        forall|i: int, a: int|
            0 <= i < s1.len() && 0 <= a < s1[i].1.deck@.len() ==> up != (
            #[trigger] s1[i].1.deck@[a]),
        deck_seq().contains(up),
{
    lemma_deck_permutation(deckv);
    assert(deckv.len() == 40);
    // each living seat's segment sits inside the dealt prefix
    assert forall|i: int|
        0 <= i < s0.len() && spec_alive(#[trigger] s0[i].1) implies ({
        let p = alive_count(s0.take(i)) * cnt;
        &&& 0 <= p
        &&& p + cnt <= alive_count(s0) * cnt
        &&& (alive_count(s0.take(i)) + 1) * cnt == p + cnt
        &&& s1[i].1.deck@.len() == cnt
        &&& forall|a: int| 0 <= a < cnt ==> #[trigger] s1[i].1.deck@[a] == deckv[p + a]
    }) by {
        let ac = alive_count(s0.take(i));
        lemma_alive_count_take_le(s0, i);
        assert((ac + 1) * cnt == ac * cnt + cnt) by (nonlinear_arith);
        assert(0 <= ac * cnt) by (nonlinear_arith)
            requires ac >= 0, cnt >= 1;
        assert(s0.take(i + 1).drop_last() =~= s0.take(i));
        assert(s0.take(i + 1).last() == s0[i]);
        assert(alive_count(s0.take(i + 1)) == ac + 1);
        lemma_alive_count_take_mono(s0, i + 1, s0.len() as int);
        assert(s0.take(s0.len() as int) =~= s0);
        assert(ac + 1 <= alive_count(s0));
        assert(ac * cnt + cnt <= alive_count(s0) * cnt) by (nonlinear_arith)
            requires ac + 1 <= alive_count(s0), cnt >= 1;
        assert(s1[i].1.deck@ == deckv.subrange(ac * cnt, ac * cnt + cnt));
        assert forall|a: int| 0 <= a < cnt implies #[trigger] s1[i].1.deck@[a] == deckv[ac * cnt
            + a] by {
            assert(deckv.subrange(ac * cnt, ac * cnt + cnt)[a] == deckv[ac * cnt + a]);
        }
    }
    // distinct slots hold distinct cards
    assert forall|i: int, j: int, a: int, b: int|
        0 <= i < s1.len() && 0 <= j < s1.len() && 0 <= a < s1[i].1.deck@.len() && 0 <= b
            < s1[j].1.deck@.len() && (i != j || a != b) implies (#[trigger] s1[i].1.deck@[a]) != (
    #[trigger] s1[j].1.deck@[b]) by {
        assert(spec_alive(s0[i].1) && spec_alive(s0[j].1));
        let pi = alive_count(s0.take(i)) * cnt;
        let pj = alive_count(s0.take(j)) * cnt;
        if i < j {
            assert(s0.take(i + 1).drop_last() =~= s0.take(i));
            assert(s0.take(i + 1).last() == s0[i]);
            lemma_alive_count_take_mono(s0, i + 1, j);
            assert(alive_count(s0.take(i)) + 1 <= alive_count(s0.take(j)));
            assert(pi + cnt <= pj) by (nonlinear_arith)
                requires
                    pi == alive_count(s0.take(i)) * cnt,
                    pj == alive_count(s0.take(j)) * cnt,
                    alive_count(s0.take(i)) + 1 <= alive_count(s0.take(j)),
                    cnt >= 1,
            ;
            assert(pi + a < pj + b);
        } else if j < i {
            assert(s0.take(j + 1).drop_last() =~= s0.take(j));
            assert(s0.take(j + 1).last() == s0[j]);
            lemma_alive_count_take_mono(s0, j + 1, i);
            assert(alive_count(s0.take(j)) + 1 <= alive_count(s0.take(i)));
            assert(pj + cnt <= pi) by (nonlinear_arith)
                requires
                    pi == alive_count(s0.take(i)) * cnt,
                    pj == alive_count(s0.take(j)) * cnt,
                    alive_count(s0.take(j)) + 1 <= alive_count(s0.take(i)),
                    cnt >= 1,
            ;
            assert(pj + b < pi + a);
        }
        assert(s1[i].1.deck@[a] == deckv[pi + a]);
        assert(s1[j].1.deck@[b] == deckv[pj + b]);
        assert(pi + a != pj + b);
        assert(deckv[pi + a] != deckv[pj + b]);
    }
    // every dealt card is a deck card
    assert forall|i: int, a: int|
        0 <= i < s1.len() && 0 <= a < s1[i].1.deck@.len() implies deck_seq().contains(
        #[trigger] s1[i].1.deck@[a]) by {
        assert(spec_alive(s0[i].1));
        let pi = alive_count(s0.take(i)) * cnt;
        assert(s1[i].1.deck@[a] == deckv[pi + a]);
        assert(deckv.contains(deckv[pi + a]));
    }
    // the upcard lies past every dealt slot
    assert forall|i: int, a: int|
        0 <= i < s1.len() && 0 <= a < s1[i].1.deck@.len() implies up != (
    #[trigger] s1[i].1.deck@[a]) by {
        assert(spec_alive(s0[i].1));
        let pi = alive_count(s0.take(i)) * cnt;
        assert(s1[i].1.deck@[a] == deckv[pi + a]);
        assert(pi + a < alive_count(s0) * cnt);
        assert(deckv[pi + a] != deckv[alive_count(s0) * cnt]);
    }
    lemma_alive_count_nonneg(s0);
    assert(0 <= alive_count(s0) * cnt) by (nonlinear_arith)
        requires alive_count(s0) >= 0, cnt >= 1;
    assert(deckv.contains(deckv[alive_count(s0) * cnt]));
}

impl Game {
    /// After the played card moves from the hand to the pile and the round
    /// cursor advances, the game is still well formed and still mid-set.
    proof fn lemma_after_play_mid(self, g0: Game, pi: int, ci: int)
        requires
            g0.wf(),
            !g0.is_bidding(),
            2 <= alive_count(g0.entries()),
            0 <= pi < g0.entries().len(),
            g0.round_iter.current_index < g0.round_iter.items@.len(),
            pi == g0.current_dealer_index(),
            0 <= ci < g0.entries()[pi].1.deck@.len(),
            self.entries().len() == g0.entries().len(),
            forall|i: int|
                0 <= i < g0.entries().len() && i != pi ==> #[trigger] self.entries()[i]
                    == g0.entries()[i],
            self.entries()[pi].0 == g0.entries()[pi].0,
            self.entries()[pi].1.lifes == g0.entries()[pi].1.lifes,
            self.entries()[pi].1.bid == g0.entries()[pi].1.bid,
            self.entries()[pi].1.rounds == g0.entries()[pi].1.rounds,
            self.entries()[pi].1.deck@ == g0.entries()[pi].1.deck@.remove(ci),
            self.pile@.len() == g0.pile@.len() + 1,
            forall|j: int| 0 <= j < g0.pile@.len() ==> #[trigger] self.pile@[j] == g0.pile@[j],
            self.pile@[g0.pile@.len() as int].1.player_id@ == g0.entries()[pi].0@,
            self.pile@[g0.pile@.len() as int].0 as int == g0.effective_value(
                self.pile@[g0.pile@.len() as int].1.card,
            ),
            self.round_iter.items@ == g0.round_iter.items@,
            self.round_iter.current_index == g0.round_iter.current_index + 1,
            self.bidding_iter == g0.bidding_iter,
            self.cards_count == g0.cards_count,
            self.upcard == g0.upcard,
            self.dealing_mode == g0.dealing_mode,
        ensures
            self.wf(),
            !self.is_bidding(),
            alive_count(self.entries()) == alive_count(g0.entries()),
            tricks_done(self.entries()) == tricks_done(g0.entries()),
            self.pile@.len() >= 1,
            forall|i: int|
                0 <= i < g0.entries().len() ==> (#[trigger] self.entries()[i]).0
                    == g0.entries()[i].0,
    {
        let s0 = g0.entries();
        let s1 = self.entries();
        let ri0 = g0.round_iter;
        let ci0 = ri0.current_index as int;
        assert(s1 =~= s0.update(pi, s1[pi]));
        lemma_alive_count_update(s0, pi, s1[pi]);
        lemma_tricks_done_update(s0, pi, s1[pi]);
        lemma_sum_bids_update(s0, pi, s1[pi]);
        assert(spec_alive(s0[pi].1));
        assert(alive_count(s1) == alive_count(s0));
        assert(tricks_done(s1) == tricks_done(s0));
        assert(sum_bids(s1) == sum_bids(s0));
        assert(forall|i: int|
            0 <= i < s1.len() ==> spec_alive(#[trigger] s1[i].1) == spec_alive(s0[i].1));
        if self.is_bidding() {
            let i = choose|i: int|
                0 <= i < s1.len() && spec_alive(#[trigger] s1[i].1) && s1[i].1.bid is None;
            assert(spec_alive(s0[i].1) && s0[i].1.bid is None);
            assert(g0.is_bidding());
            assert(false);
        }
        // the dealer had not yet played into this trick
        assert(!g0.played(pi)) by {
            if g0.played(pi) {
                let j = choose|j: int|
                    0 <= j < ci0 && (#[trigger] ri0.items@[j]) as int == pi;
                assert(ri0.items@[j] == ri0.items@[ci0]);
                assert(false);
            }
        }
        assert forall|i: int|
            0 <= i < s1.len() && spec_alive(#[trigger] s1[i].1) implies s1[i].1.deck@.len()
            + tricks_done(s1) + (if self.played(i) {
            1int
        } else {
            0int
        }) == self.cards_count by {
            if i == pi {
                assert(self.played(pi)) by {
                    assert((self.round_iter.items@[ci0]) as int == pi);
                }
                assert(s1[pi].1.deck@.len() == s0[pi].1.deck@.len() - 1);
            } else {
                assert(self.played(i) == g0.played(i)) by {
                    if self.played(i) && !g0.played(i) {
                        let j = choose|j: int|
                            0 <= j < self.round_iter.current_index && (
                            #[trigger] self.round_iter.items@[j]) as int == i;
                        assert(j == ci0);
                        assert(false);
                    }
                }
            }
        }
        assert forall|j: int| 0 <= j < self.pile@.len() implies (
        #[trigger] self.pile@[j]).1.player_id@ == s1[self.round_iter.items@[j] as int].0@ by {
            if j < g0.pile@.len() {
                assert(g0.pile@[j].1.player_id@ == s0[ri0.items@[j] as int].0@);
            }
        }
        assert forall|j: int| 0 <= j < self.pile@.len() implies (#[trigger] self.pile@[j]).0 as int
            == self.effective_value(self.pile@[j].1.card) by {
            if j < g0.pile@.len() {
                assert(g0.pile@[j].0 as int == g0.effective_value(g0.pile@[j].1.card));
            }
        }
        assert(self.wf());
    }

    /// The pile is ready for `award_points`: everyone in it is a living seat
    /// and all trick counts stay clear of overflow.
    proof fn lemma_award_pre(self)
        requires
            self.wf(),
            self.pile@.len() >= 1,
            alive_count(self.entries()) >= 2,
        ensures
            forall|j: int|
                0 <= j < self.pile@.len() ==> exists|i: int|
                    0 <= i < self.entries().len() && (#[trigger] self.entries()[i]).0@ == (
                    #[trigger] self.pile@[j]).1.player_id@ && spec_alive(self.entries()[i].1),
            forall|i: int| 0 <= i < self.entries().len() ==> (#[trigger] self.entries()[i]).1.rounds
                <= 39,
    {
        let s = self.entries();
        let ri = self.round_iter;
        assert forall|j: int| 0 <= j < self.pile@.len() implies exists|i: int|
            0 <= i < s.len() && (#[trigger] s[i]).0@ == (#[trigger] self.pile@[j]).1.player_id@
                && spec_alive(s[i].1) by {
            let w = ri.items@[j] as int;
            assert(self.pile@[j].1.player_id@ == s[w].0@);
            assert(spec_alive(s[w].1));
        }
        lemma_alive_witness(s);
        let a = choose|i: int| 0 <= i < s.len() && spec_alive(#[trigger] s[i].1);
        assert(s[a].1.deck@.len() + tricks_done(s) + (if self.played(a) {
            1int
        } else {
            0int
        }) == self.cards_count);
        assert(tricks_done(s) <= self.cards_count);
    }

    /// Every check of `deal` passes: it is card-play time, the player is
    /// seated, it is their turn, and the card is in their hand.
    pub open spec fn deal_ok(self, t: Turn) -> bool {
        &&& !self.is_bidding()
        &&& key_index(self.entries(), t.player_id@) >= 0
        &&& self.round_iter.current_index < self.round_iter.items@.len()
        &&& t.player_id@ == self.current_dealer_key()
        &&& self.entries()[key_index(self.entries(), t.player_id@)].1.deck@.contains(t.card)
    }

    /// Playing this card empties the last non-empty hand: the set ends.
    pub open spec fn deal_ends_set(self, t: Turn) -> bool {
        forall|i: int|
            0 <= i < self.entries().len() && spec_alive(#[trigger] self.entries()[i].1)
                ==> self.entries()[i].1.deck@.len() == (if i == self.current_dealer_index() {
                1int
            } else {
                0int
            })
    }

    /// Playing one more card completes the trick.
    pub open spec fn deal_ends_trick(self) -> bool {
        self.pile@.len() + 1 == alive_count(self.entries())
    }

    /// How a set's close settles the seats: the final trick's winner counts
    /// one more trick; then every living player whose bid missed their trick
    /// count loses one life, and all trick counts restart at zero.
    #[verifier::opaque]
    pub open spec fn spec_settled(g0: Game, g1: Game) -> bool {
        exists|jw: int|
            #[trigger] is_pile_max(g0.pile@, jw) && ({
                let wi = key_index(g0.entries(), g0.pile@[jw].1.player_id@);
                forall|i: int|
                    0 <= i < g0.entries().len() ==> {
                        let e0 = #[trigger] g0.entries()[i];
                        let tricks = e0.1.rounds + (if i == wi {
                            1int
                        } else {
                            0int
                        });
                        &&& g1.entries()[i].1.lifes == e0.1.lifes - (if spec_alive(e0.1) && (
                        match e0.1.bid {
                            Some(b) => b as int != tricks,
                            None => true,
                        }) {
                            1int
                        } else {
                            0int
                        })
                        &&& g1.entries()[i].1.rounds == 0
                    }
            })
    }

    /// The settlement of `spec_settled`, seen from the state before the
    /// set's closing card was played: the card joins the pile first.
    #[verifier::opaque]
    pub open spec fn settled_after(self, turn: Turn, post: Game) -> bool {
        let full_pile = self.pile@.push((((self.effective_value(turn.card)) as u16), turn));
        exists|jw: int|
            #[trigger] is_pile_max(full_pile, jw) && ({
                let wi = key_index(self.entries(), full_pile[jw].1.player_id@);
                forall|i: int|
                    0 <= i < self.entries().len() ==> {
                        let e0 = #[trigger] self.entries()[i];
                        let tricks = e0.1.rounds + (if i == wi {
                            1int
                        } else {
                            0int
                        });
                        &&& post.entries()[i].1.lifes == e0.1.lifes - (if spec_alive(e0.1) && (
                        match e0.1.bid {
                            Some(b) => b as int != tricks,
                            None => true,
                        }) {
                            1int
                        } else {
                            0int
                        })
                        &&& post.entries()[i].1.rounds == 0
                    }
            })
    }

    /// The one-card state step: the played card left the dealer's hand (all
    /// other cards and seats intact), it lies atop the pile at its effective
    /// value, and the round cursor moved one seat onward.
    #[verifier::opaque]
    pub open spec fn deal_hand_update(self, turn: Turn, post: Game) -> bool {
        let s0 = self.entries();
        let pi = key_index(s0, turn.player_id@);
        let ci = card_index(s0[pi].1.deck@, turn.card);
        &&& forall|i: int|
            0 <= i < s0.len() && i != pi ==> #[trigger] post.entries()[i] == s0[i]
        &&& post.entries()[pi].1.deck@ == s0[pi].1.deck@.remove(ci)
        &&& post.entries()[pi].1.lifes == s0[pi].1.lifes
        &&& post.entries()[pi].1.bid == s0[pi].1.bid
        &&& post.entries()[pi].1.rounds == s0[pi].1.rounds
        &&& post.pile@ == self.pile@.push((((self.effective_value(turn.card)) as u16), turn))
        &&& post.round_iter.items@ == self.round_iter.items@
        &&& post.round_iter.current_index == self.round_iter.current_index + 1
        &&& post.bidding_iter == self.bidding_iter
        &&& post.cards_count == self.cards_count
        &&& post.upcard == self.upcard
        &&& post.dealing_mode == self.dealing_mode
    }

    /// The trick-close state step: beyond the played card leaving the hand,
    /// the winner counts one more trick, the pile empties, and the round
    /// cursor restarts with the winner's seat first.
    #[verifier::opaque]
    pub open spec fn deal_trick_update(self, turn: Turn, wkey: Seq<char>, post: Game) -> bool {
        let s0 = self.entries();
        let pi = key_index(s0, turn.player_id@);
        let ci = card_index(s0[pi].1.deck@, turn.card);
        let wi = key_index(s0, wkey);
        &&& 0 <= wi < s0.len()
        &&& forall|i: int|
            0 <= i < s0.len() ==> {
                let e0 = #[trigger] s0[i];
                let e1 = post.entries()[i];
                &&& e1.1.lifes == e0.1.lifes
                &&& e1.1.bid == e0.1.bid
                &&& e1.1.deck@ == (if i == pi {
                    e0.1.deck@.remove(ci)
                } else {
                    e0.1.deck@
                })
                &&& e1.1.rounds == e0.1.rounds + (if i == wi {
                    1int
                } else {
                    0int
                })
            }
        &&& post.pile@.len() == 0
        &&& post.round_iter.current_index == 0
        &&& post.round_iter.items@.len() == self.round_iter.items@.len()
        &&& (post.round_iter.items@[0]) as int == wi
        &&& post.bidding_iter == self.bidding_iter
        &&& post.cards_count == self.cards_count
        &&& post.upcard == self.upcard
        &&& post.dealing_mode == self.dealing_mode
    }

    /// Play one card.
    ///
    /// Errors, checked in this order and leaving the game untouched:
    /// `BiddingStageActive`, `InvalidPlayer`, `NotYourTurn` (with the awaited
    /// player), `NotYourCard`. On success the card moves from the hand to
    /// the pile and the returned event says how the game went on: the next
    /// player, a finished trick, a finished set, or the end of the game.
    #[verifier::rlimit(100)]
    pub fn deal(&mut self, turn: Turn) -> (r: Result<DealState, TurnError>)
        requires
            old(self).wf(),
        ensures
            final(self).wf(),
            final(self).entries().len() == old(self).entries().len(),
            forall|i: int|
                0 <= i < old(self).entries().len() ==> (#[trigger] final(self).entries()[i]).0
                    == old(self).entries()[i].0,
            match r {
                Err(e) => *final(self) == *old(self) && match e {
                    TurnError::BiddingStageActive => old(self).is_bidding(),
                    TurnError::InvalidPlayer => !old(self).is_bidding() && key_index(
                        old(self).entries(),
                        turn.player_id@,
                    ) < 0,
                    TurnError::NotYourTurn { expected } => !old(self).is_bidding() && key_index(
                        old(self).entries(),
                        turn.player_id@,
                    ) >= 0 && match expected {
                        Some(n) => old(self).round_iter.current_index < old(self).round_iter.items@.len() && n@ == old(self).current_dealer_key()
                            && turn.player_id@ != n@,
                        None => old(self).round_iter.current_index >= old(self).round_iter.items@.len(),
                    },
                    TurnError::NotYourCard => !old(self).is_bidding() && key_index(
                        old(self).entries(),
                        turn.player_id@,
                    ) >= 0 && old(self).round_iter.current_index < old(self).round_iter.items@.len() && turn.player_id@ == old(self).current_dealer_key()
                        && !old(self).entries()[key_index(
                        old(self).entries(),
                        turn.player_id@,
                    )].1.deck@.contains(turn.card),
                },
                Ok(ds) => old(self).deal_ok(turn) && {
                    &&& ds.pile@.len() == old(self).pile@.len() + 1
                    &&& forall|j: int|
                        0 <= j < old(self).pile@.len() ==> #[trigger] ds.pile@[j] == old(self).pile@[j].1
                    &&& ds.pile@[old(self).pile@.len() as int] == turn
                    &&& match ds.event {
                        GameEvent::TurnPlayed { next } => {
                            &&& !old(self).deal_ends_set(turn)
                            &&& !old(self).deal_ends_trick()
                            &&& !final(self).is_bidding()
                            &&& final(self).round_iter.current_index < final(self).round_iter.items@.len()
                            &&& next@ == final(self).current_dealer_key()
                            &&& old(self).deal_hand_update(turn, *final(self))
                        },
                        GameEvent::RoundEnded { next, rounds } => {
                            &&& !old(self).deal_ends_set(turn)
                            &&& old(self).deal_ends_trick()
                            &&& exists|i: int|
                                0 <= i < final(self).entries().len() && (#[trigger] final(self).entries()[i]).0@ == next@ && spec_alive(final(self).entries()[i].1)
                            &&& exists|jw: int|
                                #[trigger] is_pile_max(
                                    old(self).pile@.push(
                                        (
                                            (old(self).effective_value(turn.card)) as u16,
                                            turn,
                                        ),
                                    ),
                                    jw,
                                ) && next@ == old(self).pile@.push(
                                    ((old(self).effective_value(turn.card)) as u16, turn),
                                )[jw].1.player_id@
                            &&& rounds@.len() == alive_filter(final(self).entries()).len()
                            &&& forall|j: int|
                                0 <= j < rounds@.len() ==> #[trigger] rounds@[j] == (
                                    alive_filter(final(self).entries())[j].0,
                                    alive_filter(final(self).entries())[j].1.rounds,
                                )
                            &&& old(self).deal_trick_update(turn, next@, *final(self))
                        },
                        GameEvent::SetEnded { lifes, upcard, decks, next, possible } => {
                            &&& old(self).deal_ends_set(turn)
                            &&& alive_count(final(self).entries()) >= 2
                            &&& final(self).is_bidding()
                            &&& Game::fresh_hands(*final(self))
                            &&& next@ == final(self).current_bidder_key()
                            &&& possible_bids_ok(*final(self), possible@)
                            &&& upcard == final(self).upcard
                            &&& lifes@.len() == final(self).entries().len()
                            &&& forall|i: int|
                                0 <= i < lifes@.len() ==> #[trigger] lifes@[i] == (
                                    final(self).entries()[i].0,
                                    final(self).entries()[i].1.lifes,
                                )
                            &&& decks@.len() == alive_filter(final(self).entries()).len()
                            &&& forall|j: int|
                                0 <= j < decks@.len() ==> (#[trigger] decks@[j]).0 == alive_filter(
                                    final(self).entries(),
                                )[j].0 && decks@[j].1@ == alive_filter(
                                    final(self).entries(),
                                )[j].1.deck@
                            &&& old(self).settled_after(turn, *final(self))
                            &&& final(self).pile@.len() == 0
                            &&& (final(self).dealing_mode, final(self).cards_count as int)
                                == spec_next_cards(
                                old(self).dealing_mode,
                                old(self).cards_count as int,
                                alive_count(final(self).entries()),
                            )
                            &&& forall|i: int|
                                0 <= i < final(self).entries().len() && spec_alive(
                                    #[trigger] final(self).entries()[i].1,
                                ) ==> final(self).entries()[i].1.deck@.len() == final(self).cards_count && final(self).entries()[i].1.bid is None
                        },
                        GameEvent::Ended { winner, lifes } => {
                            &&& old(self).deal_ends_set(turn)
                            &&& alive_count(final(self).entries()) <= 1
                            &&& old(self).settled_after(turn, *final(self))
                            &&& final(self).pile@.len() == 0
                            &&& forall|i: int|
                                0 <= i < final(self).entries().len() ==> (#[trigger] final(self).entries()[i]).1.deck@.len() == 0
                            &&& lifes@.len() == final(self).entries().len()
                            &&& forall|j: int|
                                0 <= j < lifes@.len() ==> #[trigger] lifes@[j] == (
                                    final(self).entries()[j].0,
                                    final(self).entries()[j].1.lifes,
                                )
                            &&& match winner {
                                Some(w) => alive_count(final(self).entries()) == 1 && exists|i: int|
                                    0 <= i < final(self).entries().len() && spec_alive(
                                        (#[trigger] final(self).entries()[i]).1,
                                    ) && final(self).entries()[i].0@ == w@,
                                None => alive_count(final(self).entries()) == 0,
                            }
                        },
                    }
                },
            },
    {
        if self.stage_is_bidding() {
            return Err(TurnError::BiddingStageActive);
        }
        let ghost s0 = self.entries();
        proof {
            lemma_key_index(s0, turn.player_id@);
        }
        let p = match pmap_get(&self.players, &turn.player_id) {
            Some(p) => p,
            None => {
                return Err(TurnError::InvalidPlayer);
            },
        };
        let ghost pi = key_index(s0, turn.player_id@);
        let current_dealer = self.peek_dealer();
        let dealer_matches = match &current_dealer {
            Some(d) => *d == turn.player_id,
            None => false,
        };
        if !dealer_matches {
            return Err(TurnError::NotYourTurn { expected: current_dealer });
        }
        proof {
            lemma_key_index_of(s0, old(self).current_dealer_index());
        }
        let ghost di = old(self).current_dealer_index();

        // find the card in the hand
        let mut ci: usize = 0;
        let mut found = false;
        while ci < p.deck.len() && !found
            invariant
                ci <= p.deck@.len(),
                found ==> ci < p.deck@.len() && p.deck@[ci as int] == turn.card && ci as int
                    == card_index(p.deck@, turn.card),
                !found ==> forall|j: int| 0 <= j < ci ==> p.deck@[j] != turn.card,
            decreases p.deck@.len() - ci + (if found { 0int } else { 1int }),
        {
            if p.deck[ci] == turn.card {
                found = true;
                proof {
                    lemma_card_index(p.deck@, turn.card);
                    let cix = card_index(p.deck@, turn.card);
                    if cix < 0 {
                        assert(p.deck@[ci as int] != turn.card);
                    }
                    if cix > ci as int {
                        assert(p.deck@[ci as int] != turn.card);
                    }
                    if cix < ci as int {
                        assert(p.deck@[cix] != turn.card);
                    }
                }
            } else {
                ci = ci + 1;
            }
        }
        if !found {
            proof {
                assert(forall|j: int| 0 <= j < p.deck@.len() ==> p.deck@[j] != turn.card);
                assert(!s0[pi].1.deck@.contains(turn.card));
            }
            return Err(TurnError::NotYourCard);
        }
        proof {
            assert(s0[pi].1.deck@.contains(turn.card));
            assert(old(self).deal_ok(turn));
            // a live hand holds a card, so the game cannot be over
            if alive_count(s0) <= 1 {
                assert(s0[pi].1.deck@.len() == 0);
                assert(false);
            }
            lemma_alive_count_nonneg(s0);
        }

        // move the card from the hand onto the pile
        let mut deck2 = p.deck;
        deck2.remove(ci);
        let p2 = Player { lifes: p.lifes, deck: deck2, bid: p.bid, rounds: p.rounds };
        pmap_insert(&mut self.players, turn.player_id.clone(), p2);
        let v = self.get_card_value(turn.card);
        self.pile.push((v, Turn { player_id: turn.player_id.clone(), card: turn.card }));
        self.round_iter.next();

        proof {
            assert(self.pile@[old(self).pile@.len() as int].1 == turn);
            self.lemma_after_play_mid(*old(self), pi, ci as int);
        }
        let ghost s1 = self.entries();
        let ghost g1 = *self;

        if self.all_alive_decks_empty() {
            proof {
                assert(old(self).deal_ends_set(turn)) by {
                    assert forall|i: int|
                        0 <= i < s0.len() && spec_alive(#[trigger] s0[i].1) implies
                        s0[i].1.deck@.len() == (if i == di {
                        1int
                    } else {
                        0int
                    }) by {
                        assert(spec_alive(s1[i].1));
                        assert(s1[i].1.deck@.len() == 0);
                        if i == di {
                            assert(s1[i].1.deck@ == s0[i].1.deck@.remove(ci as int));
                        } else {
                            assert(s1[i].1 == s0[i].1);
                        }
                    }
                }
                assert(g1.pile@ =~= old(self).pile@.push(
                    ((old(self).effective_value(turn.card)) as u16, turn),
                ));
            }
            let (pile_list, event) = self.finish_set();
            proof {
                assert forall|i: int| 0 <= i < s0.len() implies (
                #[trigger] self.entries()[i]).0 == s0[i].0 by {
                    assert(self.entries()[i].0 == s1[i].0);
                    assert(s1[i].0 == s0[i].0);
                }
                assert(forall|i: int|
                    0 <= i < s0.len() ==> (#[trigger] s1[i]).1.lifes == s0[i].1.lifes
                        && s1[i].1.bid == s0[i].1.bid && s1[i].1.rounds == s0[i].1.rounds);
                lemma_settled_lift(*old(self), g1, turn, *self);
            }
            return Ok(DealState { event, pile: pile_list });
        }

        let alive = self.alive_count_exec();
        if self.pile.len() == alive {
            proof {
                assert(old(self).deal_ends_trick());
                assert(!old(self).deal_ends_set(turn)) by {
                    if old(self).deal_ends_set(turn) {
                        assert forall|i2: int|
                            0 <= i2 < s1.len() && spec_alive(#[trigger] s1[i2].1) implies
                            s1[i2].1.deck@.len() == 0 by {
                            if i2 == di {
                                assert(s1[i2].1.deck@ == s0[i2].1.deck@.remove(ci as int));
                            }
                        }
                        assert(false);
                    }
                }
                assert(g1.pile@ =~= old(self).pile@.push(
                    ((old(self).effective_value(turn.card)) as u16, turn),
                ));
            }
            let (pile_list, event) = self.finish_trick();
            proof {
                assert forall|i: int| 0 <= i < s0.len() implies (
                #[trigger] self.entries()[i]).0 == s0[i].0 by {
                    assert(self.entries()[i].0 == s1[i].0);
                    assert(s1[i].0 == s0[i].0);
                }
                match &event {
                    GameEvent::RoundEnded { next, rounds } => {
                    reveal(Game::deal_trick_update);
                    crate::pmap::lemma_key_index_same_keys(s1, s0, next@);
                    let wi = key_index(s0, next@);
                    assert(key_index(s1, next@) == wi);
                    assert(self.round_iter.items@.len() == old(self).round_iter.items@.len());
                    assert forall|i: int|
                        0 <= i < s0.len() implies {
                        let e0 = #[trigger] s0[i];
                        let e1 = self.entries()[i];
                        &&& e1.1.lifes == e0.1.lifes
                        &&& e1.1.bid == e0.1.bid
                        &&& e1.1.deck@ == (if i == pi {
                            e0.1.deck@.remove(ci as int)
                        } else {
                            e0.1.deck@
                        })
                        &&& e1.1.rounds == e0.1.rounds + (if i == wi {
                            1int
                        } else {
                            0int
                        })
                    } by {
                        assert(self.entries()[i].1.lifes == s1[i].1.lifes);
                        assert(self.entries()[i].1.bid == s1[i].1.bid);
                        assert(self.entries()[i].1.deck == s1[i].1.deck);
                        if i != pi {
                            assert(s1[i] == s0[i]);
                        } else {
                            assert(s1[pi].1.deck@ == s0[pi].1.deck@.remove(ci as int));
                        }
                    }
                    },
                    _ => {},
                }
            }
            return Ok(DealState { event, pile: pile_list });
        }

        proof {
            assert(!old(self).deal_ends_trick());
            assert(!old(self).deal_ends_set(turn)) by {
                if old(self).deal_ends_set(turn) {
                    assert forall|i: int|
                        0 <= i < s1.len() && spec_alive(#[trigger] s1[i].1) implies
                        s1[i].1.deck@.len() == 0 by {
                        if i == di {
                            assert(s1[i].1.deck@ == s0[i].1.deck@.remove(ci as int));
                        }
                    }
                    assert(false);
                }
            }
            lemma_enum_count(s1, self.round_iter.items@);
            assert(self.round_iter.current_index < self.round_iter.items@.len());
            assert(self.wf());
        }
        let next = match self.peek_dealer() {
            Some(n) => n,
            None => vstd::pervasive::unreached(),
        };
        let pile_now = self.get_pile();
        proof {
            reveal(Game::deal_hand_update);
            assert(pile_now@[old(self).pile@.len() as int] == turn);
            assert(forall|i: int|
                0 <= i < s0.len() && i != pi ==> #[trigger] self.entries()[i] == s0[i]);
            assert(self.entries()[pi].1.deck@ == s0[pi].1.deck@.remove(ci as int));
            assert(self.pile@ =~= old(self).pile@.push(
                ((old(self).effective_value(turn.card)) as u16, turn),
            ));
        }
        Ok(DealState { pile: pile_now, event: GameEvent::TurnPlayed { next } })
    }
}

impl Game {
    /// Whether a snapshot can name an awaited player: always while bidding,
    /// and while the round cursor still points at a seat.
    pub open spec fn has_current_player(self) -> bool {
        self.is_bidding() || self.round_iter.current_index < self.round_iter.items@.len()
    }

    /// The snapshot a reconnecting client needs: their hand, the upcard, the
    /// awaited player, the stage, and every living player's public state.
    pub fn get_game_info(&self, player_id: &str) -> (info: GameInfoDto)
        requires
            self.wf(),
            key_index(self.entries(), player_id@) >= 0,
            self.has_current_player(),
        ensures
            ({
                let s = self.entries();
                let pi = key_index(s, player_id@);
                &&& info.deck@ == s[pi].1.deck@
                &&& info.upcard == self.upcard
                &&& info.current_player@ == (if self.is_bidding() {
                    self.current_bidder_key()
                } else {
                    self.current_dealer_key()
                })
                &&& match info.stage {
                    GameStageDto::Bidding { possible_bids } => self.is_bidding()
                        && possible_bids_ok(*self, possible_bids@),
                    GameStageDto::Dealing => !self.is_bidding(),
                }
                &&& info.info@.len() == alive_filter(s).len()
                &&& forall|j: int|
                    0 <= j < info.info@.len() ==> {
                        let e = alive_filter(s)[j];
                        &&& (#[trigger] info.info@[j]).id == e.0
                        &&& info.info@[j].lifes == e.1.lifes
                        &&& info.info@[j].rounds == e.1.rounds
                        &&& info.info@[j].bid == e.1.bid
                    }
            }),
    {
        let pid = player_id.to_owned();
        let p = match pmap_get(&self.players, &pid) {
            Some(p) => p,
            None => vstd::pervasive::unreached(),
        };
        let deck = p.deck;

        let es = pmap_entries(&self.players);
        let mut info: Vec<PlayerInfoDto> = Vec::new();
        let mut i: usize = 0;
        while i < es.len()
            invariant
                i <= es@.len(),
                es@ == self.entries(),
                info@.len() == alive_filter(self.entries().take(i as int)).len(),
                forall|j: int|
                    0 <= j < info@.len() ==> {
                        let e = alive_filter(self.entries().take(i as int))[j];
                        &&& (#[trigger] info@[j]).id == e.0
                        &&& info@[j].lifes == e.1.lifes
                        &&& info@[j].rounds == e.1.rounds
                        &&& info@[j].bid == e.1.bid
                    },
            decreases es@.len() - i,
        {
            proof {
                assert(self.entries().take(i + 1).drop_last() =~= self.entries().take(i as int));
                assert(self.entries().take(i + 1).last() == self.entries()[i as int]);
            }
            let e = &es[i];
            if e.1.lifes != 0 {
                info.push(
                    PlayerInfoDto {
                        id: e.0.clone(),
                        lifes: e.1.lifes,
                        rounds: e.1.rounds,
                        bid: e.1.bid,
                    },
                );
            }
            i = i + 1;
        }
        proof {
            assert(self.entries().take(self.entries().len() as int) =~= self.entries());
        }

        let bidding = self.stage_is_bidding();
        let (current_player, stage) = if bidding {
            let possible_bids = self.get_possible_bids();
            (self.get_bidding_player(), GameStageDto::Bidding { possible_bids })
        } else {
            let d = match self.peek_dealer() {
                Some(n) => n,
                None => vstd::pervasive::unreached(),
            };
            (d, GameStageDto::Dealing)
        };
        GameInfoDto { info, deck, upcard: self.upcard, current_player, stage }
    }
}

/// Every player keeps at most five lifes and never wins more tricks than
/// the hand size, in every well-formed game state.
pub proof fn lemma_lifes_and_rounds_bounded(g: Game)
    requires
        g.wf(),
    ensures
        forall|i: int|
            0 <= i < g.entries().len() ==> 0 <= (#[trigger] g.entries()[i]).1.lifes <= 5
                && g.entries()[i].1.rounds <= g.cards_count,
{
    let s = g.entries();
    if alive_count(s) >= 2 {
        lemma_alive_witness(s);
        let a = choose|i: int| 0 <= i < s.len() && spec_alive(#[trigger] s[i].1);
        assert(s[a].1.deck@.len() + tricks_done(s) + (if g.played(a) {
            1int
        } else {
            0int
        }) == g.cards_count);
        assert(tricks_done(s) <= g.cards_count);
    } else {
        lemma_alive_count_nonneg(s);
        assert(forall|i: int| 0 <= i < s.len() ==> (#[trigger] s[i]).1.rounds == 0);
    }
}

/// While at least two players are in the game: a dealing stage means the
/// bidding lap is spent, and a bidding stage means the trick pile is empty.
pub proof fn lemma_stage_cursor(g: Game)
    requires
        g.wf(),
        alive_count(g.entries()) >= 2,
    ensures
        !g.is_bidding() <==> g.bidding_iter.current_index >= g.bidding_iter.items@.len(),
        g.is_bidding() ==> g.pile@.len() == 0,
{
    let s = g.entries();
    let bi = g.bidding_iter;
    if bi.current_index >= bi.items@.len() && g.is_bidding() {
        let i = choose|i: int|
            0 <= i < s.len() && spec_alive(#[trigger] s[i].1) && s[i].1.bid is None;
        assert(bi.items@.contains(i as usize));
        let j = choose|j: int| 0 <= j < bi.items@.len() && bi.items@[j] == i as usize;
        assert(s[bi.items@[j] as int].1.bid is Some);
        assert(false);
    }
}

/// No list of selectable bids ever offers the last bidder a value that
/// makes the bids sum to the hand size.
pub proof fn lemma_no_perfect_round_offer(g: Game, v: Seq<usize>, b: usize)
    requires
        g.wf(),
        possible_bids_ok(g, v),
        g.spec_last_bidder(),
        v.contains(b),
    ensures
        sum_bids(g.entries()) + b != g.cards_count,
{
}

/// Right after construction, every seated player can be asked for a
/// snapshot: the preconditions of `get_game_info` hold for each of them.
pub proof fn lemma_game_info_total(g: Game, names: Seq<String>, cards: int, i: int)
    requires
        g.wf(),
        Game::fresh(g, names, cards),
        0 <= i < names.len(),
    ensures
        key_index(g.entries(), names[i]@) >= 0,
        g.has_current_player(),
{
    let s = g.entries();
    lemma_key_index_of(s, i);
    assert(s[i].0 == names[i]);
}

/// The cards still held by living players, in total.
pub open spec fn sum_alive_decks(s: Seq<(String, Player)>) -> int
    decreases s.len(),
{
    if s.len() == 0 {
        0
    } else {
        sum_alive_decks(s.drop_last()) + if spec_alive(s.last().1) {
            s.last().1.deck@.len() as int
        } else {
            0int
        }
    }
}

/// How many living seats of `s` appear among the positions `pref`.
pub open spec fn played_cnt(s: Seq<(String, Player)>, pref: Seq<usize>) -> int
    decreases s.len(),
{
    if s.len() == 0 {
        0
    } else {
        played_cnt(s.drop_last(), pref) + if spec_alive(s.last().1) && pref.contains(
            (s.len() - 1) as usize,
        ) {
            1int
        } else {
            0int
        }
    }
}

proof fn lemma_played_cnt_empty(s: Seq<(String, Player)>, pref: Seq<usize>)
    requires
        pref.len() == 0,
    ensures
        played_cnt(s, pref) == 0,
    decreases s.len(),
{
    if s.len() > 0 {
        lemma_played_cnt_empty(s.drop_last(), pref);
        if pref.contains((s.len() - 1) as usize) {
            let j = choose|j: int| 0 <= j < pref.len() && pref[j] == (s.len() - 1) as usize;
            assert(false);
        }
    }
}

proof fn lemma_played_cnt_push(s: Seq<(String, Player)>, pref: Seq<usize>, x: usize)
    requires
        s.len() <= usize::MAX,
        (x as int) < s.len(),
        spec_alive(s[x as int].1),
        !pref.contains(x),
    ensures
        played_cnt(s, pref.push(x)) == played_cnt(s, pref) + 1,
    decreases s.len(),
{
    let n = s.len() - 1;
    assert forall|v: usize| #[trigger] pref.push(x).contains(v) implies (pref.contains(v) || v
        == x) by {
        let j = choose|j: int| 0 <= j < pref.push(x).len() && pref.push(x)[j] == v;
        if j < pref.len() {
            assert(pref[j] == v);
        }
    }
    assert(forall|v: usize|
        pref.contains(v) ==> #[trigger] pref.push(x).contains(v)) by {
        assert forall|v: usize| pref.contains(v) implies #[trigger] pref.push(x).contains(v) by {
            let j = choose|j: int| 0 <= j < pref.len() && pref[j] == v;
            assert(pref.push(x)[j] == v);
        }
    }
    assert(pref.push(x)[pref.len() as int] == x);
    assert(pref.push(x).contains(x));
    if x as int == n {
        lemma_played_cnt_same(s.drop_last(), pref, pref.push(x), x);
    } else {
        lemma_played_cnt_push(s.drop_last(), pref, x);
        assert(s.drop_last()[x as int] == s[x as int]);
    }
}

/// Counting over positions other than `x` does not see `x` added.
proof fn lemma_played_cnt_same(
    s: Seq<(String, Player)>,
    p1: Seq<usize>,
    p2: Seq<usize>,
    x: usize,
)
    requires
        s.len() <= x as int,
        forall|v: usize| v != x ==> (p1.contains(v) <==> p2.contains(v)),
    ensures
        played_cnt(s, p1) == played_cnt(s, p2),
    decreases s.len(),
{
    if s.len() > 0 {
        lemma_played_cnt_same(s.drop_last(), p1, p2, x);
        assert(((s.len() - 1) as usize) != x);
    }
}

/// A distinct list of living positions is counted in full.
proof fn lemma_played_cnt_full(s: Seq<(String, Player)>, pref: Seq<usize>)
    requires
        s.len() <= usize::MAX,
        forall|a: int, b: int| 0 <= a < b < pref.len() ==> pref[a] != pref[b],
        forall|j: int|
            0 <= j < pref.len() ==> (#[trigger] pref[j]) < s.len() && spec_alive(
                s[pref[j] as int].1,
            ),
    ensures
        played_cnt(s, pref) == pref.len(),
    decreases pref.len(),
{
    if pref.len() == 0 {
        lemma_played_cnt_empty(s, pref);
    } else {
        let p0 = pref.drop_last();
        let x = pref.last();
        assert(pref =~= p0.push(x));
        assert(forall|j: int| 0 <= j < p0.len() ==> #[trigger] p0[j] == pref[j]);
        if p0.contains(x) {
            let j = choose|j: int| 0 <= j < p0.len() && p0[j] == x;
            assert(pref[j] == pref[pref.len() - 1]);
            assert(false);
        }
        lemma_played_cnt_full(s, p0);
        lemma_played_cnt_push(s, p0, x);
    }
}

/// Pointwise hand sizes add up.
proof fn lemma_deck_sum(s: Seq<(String, Player)>, pref: Seq<usize>, t: int, cc: int)
    requires
        forall|i: int|
            0 <= i < s.len() && spec_alive(#[trigger] s[i].1) ==> s[i].1.deck@.len() == cc - t - (
            if pref.contains(i as usize) {
                1int
            } else {
                0int
            }),
    ensures
        sum_alive_decks(s) == alive_count(s) * (cc - t) - played_cnt(s, pref),
    decreases s.len(),
{
    if s.len() == 0 {
    } else {
        assert(forall|i: int|
            0 <= i < s.drop_last().len() ==> #[trigger] s.drop_last()[i] == s[i]);
        lemma_deck_sum(s.drop_last(), pref, t, cc);
        assert(s.last() == s[s.len() - 1]);
        assert((alive_count(s.drop_last()) + 1) * (cc - t) == alive_count(s.drop_last()) * (cc - t)
            + (cc - t)) by (nonlinear_arith);
    }
}

/// Card conservation: over the living players, the cards in hand plus one
/// card per finished trick each equal their share of the deal, less the
/// cards lying in the current trick's pile.
pub proof fn lemma_card_conservation(g: Game)
    requires
        g.wf(),
        alive_count(g.entries()) >= 2,
    ensures
        sum_alive_decks(g.entries()) + alive_count(g.entries()) * tricks_done(g.entries())
            == alive_count(g.entries()) * g.cards_count - g.pile@.len(),
{
    let s = g.entries();
    let ri = g.round_iter;
    let ci = ri.current_index as int;
    let pref = ri.items@.take(ci);
    assert(forall|j: int| 0 <= j < pref.len() ==> #[trigger] pref[j] == ri.items@[j]);
    assert forall|i: int| 0 <= i < s.len() && spec_alive(#[trigger] s[i].1) implies
        s[i].1.deck@.len() == g.cards_count - tricks_done(s) - (if pref.contains(i as usize) {
        1int
    } else {
        0int
    }) by {
        assert(g.played(i) == pref.contains(i as usize)) by {
            if g.played(i) {
                let j = choose|j: int| 0 <= j < ci && (#[trigger] ri.items@[j]) as int == i;
                assert(pref[j] as int == i);
            }
            if pref.contains(i as usize) {
                let j = choose|j: int| 0 <= j < pref.len() && pref[j] == i as usize;
                assert((ri.items@[j]) as int == i);
            }
        }
    }
    lemma_deck_sum(s, pref, tricks_done(s), g.cards_count as int);
    assert forall|a: int, b: int| 0 <= a < b < pref.len() implies pref[a] != pref[b] by {
        assert(ri.items@[a] != ri.items@[b]);
    }
    assert forall|j: int| 0 <= j < pref.len() implies (#[trigger] pref[j]) < s.len() && spec_alive(
        s[pref[j] as int].1,
    ) by {
        assert(ri.items@[j] < s.len());
    }
    lemma_played_cnt_full(s, pref);
    assert(pref.len() == ci);
    assert(alive_count(s) * (g.cards_count - tricks_done(s)) == alive_count(s) * g.cards_count
        - alive_count(s) * tricks_done(s)) by (nonlinear_arith);
}

/// Longer prefixes never count fewer living seats.
pub proof fn lemma_alive_count_take_mono(s: Seq<(String, Player)>, a: int, b: int)
    requires
        0 <= a <= b <= s.len(),
    ensures
        alive_count(s.take(a)) <= alive_count(s.take(b)),
    decreases b - a,
{
    if a < b {
        assert(s.take(b).drop_last() =~= s.take(b - 1));
        assert(s.take(b).last() == s[b - 1]);
        lemma_alive_count_take_mono(s, a, b - 1);
    }
}

/// A fully living seat list is counted in full.
proof fn lemma_enum_count_full(s: Seq<(String, Player)>, items: Seq<usize>)
    requires
        forall|i: int| 0 <= i < s.len() ==> spec_alive((#[trigger] s[i]).1),
    ensures
        alive_count(s) == s.len(),
    decreases s.len(),
{
    if s.len() > 0 {
        assert(spec_alive(s.last().1));
        lemma_enum_count_full(s.drop_last(), items);
    }
}

impl Game {
    /// End the set after its closing card: award the last trick, settle
    /// lifes, drop eliminated seats, and either end the game or deal anew.
    #[verifier::rlimit(100)]
    fn finish_set(&mut self) -> (r: (Vec<Turn>, GameEvent))
        requires
            old(self).wf(),
            !old(self).is_bidding(),
            2 <= alive_count(old(self).entries()),
            old(self).pile@.len() >= 1,
            forall|i: int|
                0 <= i < old(self).entries().len() && spec_alive(
                    #[trigger] old(self).entries()[i].1,
                ) ==> old(self).entries()[i].1.deck@.len() == 0,
        ensures
            final(self).wf(),
            final(self).entries().len() == old(self).entries().len(),
            forall|i: int|
                0 <= i < old(self).entries().len() ==> (#[trigger] final(self).entries()[i]).0
                    == old(self).entries()[i].0,
            r.0@.len() == old(self).pile@.len(),
            forall|j: int| 0 <= j < r.0@.len() ==> #[trigger] r.0@[j] == old(self).pile@[j].1,
            final(self).pile@.len() == 0,
            Game::spec_settled(*old(self), *final(self)),
            match r.1 {
                GameEvent::SetEnded { lifes, upcard, decks, next, possible } => {
                    &&& alive_count(final(self).entries()) >= 2
                    &&& final(self).is_bidding()
                    &&& Game::fresh_hands(*final(self))
                    &&& next@ == final(self).current_bidder_key()
                    &&& possible_bids_ok(*final(self), possible@)
                    &&& upcard == final(self).upcard
                    &&& (final(self).dealing_mode, final(self).cards_count as int)
                        == spec_next_cards(
                        old(self).dealing_mode,
                        old(self).cards_count as int,
                        alive_count(final(self).entries()),
                    )
                    &&& forall|i: int|
                        0 <= i < final(self).entries().len() && spec_alive(
                            #[trigger] final(self).entries()[i].1,
                        ) ==> final(self).entries()[i].1.deck@.len() == final(self).cards_count
                            && final(self).entries()[i].1.bid is None
                    &&& lifes@.len() == final(self).entries().len()
                    &&& forall|i: int|
                        0 <= i < lifes@.len() ==> #[trigger] lifes@[i] == (
                            final(self).entries()[i].0,
                            final(self).entries()[i].1.lifes,
                        )
                    &&& decks@.len() == alive_filter(final(self).entries()).len()
                    &&& forall|j: int|
                        0 <= j < decks@.len() ==> (#[trigger] decks@[j]).0 == alive_filter(
                            final(self).entries(),
                        )[j].0 && decks@[j].1@ == alive_filter(final(self).entries())[j].1.deck@
                },
                GameEvent::Ended { winner, lifes } => {
                    &&& alive_count(final(self).entries()) <= 1
                    &&& forall|i: int|
                        0 <= i < final(self).entries().len() ==> (#[trigger] final(self).entries()[i]).1.deck@.len() == 0
                    &&& lifes@.len() == final(self).entries().len()
                    &&& forall|j: int|
                        0 <= j < lifes@.len() ==> #[trigger] lifes@[j] == (
                            final(self).entries()[j].0,
                            final(self).entries()[j].1.lifes,
                        )
                    &&& match winner {
                        Some(w) => alive_count(final(self).entries()) == 1 && exists|i: int|
                            0 <= i < final(self).entries().len() && spec_alive(
                                (#[trigger] final(self).entries()[i]).1,
                            ) && final(self).entries()[i].0@ == w@,
                        None => alive_count(final(self).entries()) == 0,
                    }
                },
                _ => false,
            },
    {
        let ghost s1 = old(self).entries();
        let ghost g1 = *old(self);
        proof {
            self.lemma_award_pre();
        }
        let (pile_list, winner) = self.award_points();
        let ghost g2 = *self;
        proof {
            assert(self.cursor_ok(self.bidding_iter));
            assert(self.cursor_ok(self.round_iter));
        }
        self.bidding_iter.shift();
        proof {
            let bits = g2.bidding_iter.items@;
            if bits.len() > 0 {
                lemma_rotate_at(bits, 1);
                assert(bits.drop_first().push(bits[0]) =~= bits.subrange(1, bits.len() as int)
                    + bits.subrange(0, 1));
            }
            assert(self.cursor_ok(self.bidding_iter));
        }
        self.remove_lifes();
        let ghost g3 = *self;
        proof {
            assert(self.cursor_ok(self.round_iter));
        }
        self.round_iter.shift();
        let ghost g4 = *self;
        proof {
            let rits = g3.round_iter.items@;
            if rits.len() > 0 {
                lemma_rotate_at(rits, 1);
                assert(rits.drop_first().push(rits[0]) =~= rits.subrange(1, rits.len() as int)
                    + rits.subrange(0, 1));
            }
            assert(self.cursor_ok(self.round_iter));
            let s2 = g2.entries();
            let s3 = g4.entries();
            // keys run through unchanged
            assert(key_index(s1, winner@) >= 0 && s1[key_index(s1, winner@)].0@ == winner@
                && spec_alive(s1[key_index(s1, winner@)].1));
            lemma_alive_count_update(s1, key_index(s1, winner@), s2[key_index(s1, winner@)]);
            assert(alive_count(s2) == alive_count(s1));
            assert forall|i: int| 0 <= i < s3.len() implies (#[trigger] s3[i]).0 == s1[i].0 by {
                assert(s2[i].0 == s1[i].0);
                assert(s3[i].0 == s2[i].0);
            }
            assert forall|a: int, b: int| 0 <= a < b < s3.len() implies s3[a].0@ != s3[b].0@ by {
                assert(s3[a].0 == s1[a].0);
                assert(s3[b].0 == s1[b].0);
            }
            // every hand is empty and every trick count reset
            assert forall|i: int| 0 <= i < s3.len() implies (#[trigger] s3[i]).1.deck@.len() == 0
                && s3[i].1.rounds == 0 by {
                assert(s3[i].1.deck == s2[i].1.deck);
                if spec_alive(s1[i].1) {
                    assert(s1[i].1.deck@.len() == 0);
                } else {
                    assert(s1[i].1.deck@.len() == 0);
                }
            }
            lemma_all_fresh_tricks(s3);
            // lifes only fell
            assert(forall|i: int|
                0 <= i < s3.len() ==> (spec_alive(#[trigger] s3[i].1) ==> spec_alive(s2[i].1)));
            lemma_alive_count_mono(s2, s3);
            assert(alive_count(s3) <= alive_count(s1));
            assert(forall|i: int| 0 <= i < s3.len() ==> (#[trigger] s3[i]).1.lifes <= 5);
            assert(alive_count(s3) * self.cards_count <= alive_count(s1) * self.cards_count)
                by (nonlinear_arith)
                requires
                    alive_count(s3) <= alive_count(s1),
                    self.cards_count >= 0,
            ;
            lemma_alive_count_nonneg(s3);
            // no living player still owes a bid, so the stage reads as card play
            assert forall|i: int| 0 <= i < s3.len() && spec_alive(#[trigger] s3[i].1) implies
                s3[i].1.bid is Some by {
                assert(spec_alive(s1[i].1));
                assert(!g1.is_bidding());
                if s1[i].1.bid is None {
                    assert(g1.is_bidding());
                }
                assert(s3[i].1.bid == s2[i].1.bid);
            }
            if self.is_bidding() {
                let i = choose|i: int|
                    0 <= i < s3.len() && spec_alive(#[trigger] s3[i].1) && s3[i].1.bid is None;
                assert(false);
            }
            // the settlement: the final trick's winner counted once more,
            // then the life rule was applied and trick counts reset
            reveal(Game::spec_settled);
            let jw = choose|jw: int|
                #[trigger] is_pile_max(g1.pile@, jw) && winner@ == g1.pile@[jw].1.player_id@;
            let wkey = g1.pile@[jw].1.player_id@;
            let wi = key_index(s1, wkey);
            assert(wi == key_index(s1, winner@));
            assert forall|i: int|
                0 <= i < s1.len() implies {
                let e0 = #[trigger] s1[i];
                let tricks = e0.1.rounds + (if i == wi {
                    1int
                } else {
                    0int
                });
                &&& g4.entries()[i].1.lifes == e0.1.lifes - (if spec_alive(e0.1) && (
                match e0.1.bid {
                    Some(b) => b as int != tricks,
                    None => true,
                }) {
                    1int
                } else {
                    0int
                })
                &&& g4.entries()[i].1.rounds == 0
            } by {
                let e0 = s1[i];
                let tricks = e0.1.rounds + (if i == wi {
                    1int
                } else {
                    0int
                });
                assert(s2[i].1.rounds == tricks);
                assert(s2[i].1.bid == e0.1.bid && s2[i].1.lifes == e0.1.lifes);
                assert(spec_alive(s2[i].1) == spec_alive(e0.1));
                assert(s3[i].1.rounds == 0);
                assert(loses_life(s2[i].1) == (spec_alive(e0.1) && (match e0.1.bid {
                    Some(b) => b as int != tricks,
                    None => true,
                })));
            }
            assert(Game::spec_settled(g1, g4));
        }
        let alive = self.alive_count_exec();
        if alive <= 1 {
            proof {
                assert(alive_count(self.entries()) * self.cards_count <= 39) by (nonlinear_arith)
                    requires
                        0 <= alive_count(self.entries()) <= 1,
                        0 <= self.cards_count <= 39,
                ;
                assert(self.wf());
            }
            let winner_key = if alive == 1 {
                Some(self.first_alive_key())
            } else {
                None
            };
            let lifes = self.get_lifes();
            proof {
                lemma_alive_filter(self.entries());
                if alive == 0 {
                    if exists|i: int|
                        0 <= i < self.entries().len() && spec_alive(
                            #[trigger] self.entries()[i].1,
                        ) {
                        let i = choose|i: int|
                            0 <= i < self.entries().len() && spec_alive(
                                #[trigger] self.entries()[i].1,
                            );
                        lemma_alive_count_pos(self.entries(), i);
                    }
                }
                assert(Game::spec_settled(g1, *self)) by {
                    lemma_settled_transfer(g1, g4, *self);
                }
            }
            return (pile_list, GameEvent::Ended { winner: winner_key, lifes });
        }
        self.start_new_set();
        proof {
            let sf = self.entries();
            let s3 = g4.entries();
            assert forall|i: int|
                0 <= i < sf.len() implies spec_alive(#[trigger] sf[i].1) == spec_alive(
                s3[i].1) by {
                assert(sf[i].1.lifes == s3[i].1.lifes);
            }
            lemma_alive_count_same(s3, sf);
            assert(alive_count(sf) >= 2);
            assert forall|i: int| 0 <= i < sf.len() implies (#[trigger] sf[i]).0 == s1[i].0 by {
                assert(sf[i].0 == s3[i].0);
                assert(s3[i].0 == s1[i].0);
            }
            lemma_settled_transfer(g1, g4, *self);
            assert((self.dealing_mode, self.cards_count as int) == spec_next_cards(
                g1.dealing_mode,
                g1.cards_count as int,
                alive_count(sf),
            ));
        }
        let (decks, upcard) = self.get_decks();
        let lifes = self.get_lifes();
        let possible = self.get_possible_bids();
        let next = self.get_bidding_player();
        (pile_list, GameEvent::SetEnded { lifes, upcard, decks, next, possible })
    }

    /// Close a completed trick: the highest card takes it and its player
    /// leads the next round.
    fn finish_trick(&mut self) -> (r: (Vec<Turn>, GameEvent))
        requires
            old(self).wf(),
            !old(self).is_bidding(),
            2 <= alive_count(old(self).entries()),
            old(self).pile@.len() >= 1,
            old(self).pile@.len() == alive_count(old(self).entries()),
        ensures
            final(self).wf(),
            final(self).entries().len() == old(self).entries().len(),
            forall|i: int|
                0 <= i < old(self).entries().len() ==> (#[trigger] final(self).entries()[i]).0
                    == old(self).entries()[i].0,
            r.0@.len() == old(self).pile@.len(),
            forall|j: int| 0 <= j < r.0@.len() ==> #[trigger] r.0@[j] == old(self).pile@[j].1,
            match r.1 {
                GameEvent::RoundEnded { next, rounds } => {
                    &&& exists|i: int|
                        0 <= i < final(self).entries().len() && (
                        #[trigger] final(self).entries()[i]).0@ == next@ && spec_alive(
                            final(self).entries()[i].1,
                        )
                    &&& exists|jw: int|
                        #[trigger] is_pile_max(old(self).pile@, jw) && next@ == old(self).pile@[jw].1.player_id@
                    &&& rounds@.len() == alive_filter(final(self).entries()).len()
                    &&& forall|j: int|
                        0 <= j < rounds@.len() ==> #[trigger] rounds@[j] == (
                            alive_filter(final(self).entries())[j].0,
                            alive_filter(final(self).entries())[j].1.rounds,
                        )
                    &&& ({
                        // the winner's trick count rises by one; nothing else moves
                        let wi = key_index(old(self).entries(), next@);
                        &&& 0 <= wi < old(self).entries().len()
                        &&& forall|i: int|
                            0 <= i < old(self).entries().len() ==> {
                                let e0 = #[trigger] old(self).entries()[i];
                                let e1 = final(self).entries()[i];
                                &&& e1.1.lifes == e0.1.lifes
                                &&& e1.1.bid == e0.1.bid
                                &&& e1.1.deck == e0.1.deck
                                &&& e1.1.rounds == e0.1.rounds + (if i == wi {
                                    1int
                                } else {
                                    0int
                                })
                            }
                        &&& final(self).round_iter.items@.len() == old(self).round_iter.items@.len()
                        &&& (final(self).round_iter.items@[0]) as int == wi
                    })
                    &&& final(self).pile@.len() == 0
                    &&& final(self).round_iter.current_index == 0
                    &&& final(self).bidding_iter == old(self).bidding_iter
                    &&& final(self).cards_count == old(self).cards_count
                    &&& final(self).upcard == old(self).upcard
                    &&& final(self).dealing_mode == old(self).dealing_mode
                },
                _ => false,
            },
    {
        let ghost s1 = old(self).entries();
        let ghost g1 = *old(self);
        proof {
            self.lemma_award_pre();
            lemma_enum_count(s1, self.round_iter.items@);
        }
        let (pile_list, winner) = self.award_points();
        let ghost g2 = *self;
        proof {
            let s2 = g2.entries();
            let wi = key_index(s1, winner@);
            lemma_key_index(s2, winner@);
            if key_index(s2, winner@) < 0 {
                assert(s2[wi].0@ != winner@);
                assert(false);
            }
        }
        let idx = match pmap_get_index_of(&self.players, &winner) {
            Some(i) => i,
            None => vstd::pervasive::unreached(),
        };
        let ghost rits = self.round_iter.items@;
        proof {
            let s2 = g2.entries();
            let wi = key_index(s1, winner@);
            assert(s2[wi].0@ == winner@);
            assert(forall|i: int| 0 <= i < s2.len() ==> (#[trigger] s2[i]).0 == s1[i].0);
            assert forall|a: int, b: int| 0 <= a < b < s2.len() implies s2[a].0@ != s2[b].0@ by {
                assert(s2[a].0 == s1[a].0);
                assert(s2[b].0 == s1[b].0);
            }
            lemma_key_index_of(s2, wi);
            assert(idx as int == wi);
            assert(spec_alive(s2[wi].1));
            assert(spec_alive(s1[wi].1));
            assert(rits.contains(wi as usize));
            crate::cycle::lemma_first_index(rits, idx);
            let j = crate::cycle::first_index(rits, idx);
            if j < 0 {
                let a = choose|a: int| 0 <= a < rits.len() && rits[a] == idx;
                assert(false);
            }
            lemma_rotate_at(rits, j);
        }
        let _shifted = self.round_iter.shift_to(idx);
        proof {
            let s2 = g2.entries();
            let wi = key_index(s1, winner@);
            lemma_alive_count_update(s1, wi, s2[wi]);
            lemma_tricks_done_update(s1, wi, s2[wi]);
            lemma_sum_bids_update(s1, wi, s2[wi]);
            assert(alive_count(s2) == alive_count(s1));
            assert(tricks_done(s2) == tricks_done(s1) + 1);
            assert(sum_bids(s2) == sum_bids(s1));
            assert(forall|i: int| 0 <= i < s2.len() ==> (#[trigger] s2[i]).0 == s1[i].0);
            assert(forall|i: int|
                0 <= i < s2.len() ==> spec_alive(#[trigger] s2[i].1) == spec_alive(s1[i].1));
            // the round cursor still walks exactly the living seats
            let rits2 = self.round_iter.items@;
            let j = crate::cycle::first_index(rits, idx);
            assert(rits2 == rits.subrange(j, rits.len() as int) + rits.subrange(0, j));
            assert forall|a: int|
                0 <= a < rits2.len() implies (#[trigger] rits2[a]) < s2.len() && spec_alive(
                s2[rits2[a] as int].1) by {
                assert(rits2.contains(rits2[a]));
                assert(rits.contains(rits2[a]));
                let b = choose|b: int| 0 <= b < rits.len() && rits[b] == rits2[a];
                assert(spec_alive(s1[rits[b] as int].1));
            }
            assert forall|i: int|
                0 <= i < s2.len() && spec_alive(#[trigger] s2[i].1) implies rits2.contains(
                i as usize) by {
                assert(spec_alive(s1[i].1));
                assert(rits.contains(i as usize));
            }
            assert(self.cursor_ok(self.round_iter));
            assert(self.cursor_ok(self.bidding_iter));
            // with the trick complete, every living seat had played
            assert(g1.round_iter.current_index == rits.len());
            assert forall|i: int|
                0 <= i < s2.len() && spec_alive(#[trigger] s2[i].1) implies s2[i].1.deck@.len()
                + tricks_done(s2) + 0 == self.cards_count by {
                assert(spec_alive(s1[i].1));
                assert(rits.contains(i as usize));
                let jx = choose|jx: int| 0 <= jx < rits.len() && rits[jx] == i as usize;
                assert(g1.played(i)) by {
                    assert((g1.round_iter.items@[jx]) as int == i);
                }
                assert(s1[i].1.deck@.len() + tricks_done(s1) + 1 == g1.cards_count);
                assert(s2[i].1.deck == s1[i].1.deck);
            }
            if self.is_bidding() {
                let i = choose|i: int|
                    0 <= i < s2.len() && spec_alive(#[trigger] s2[i].1) && s2[i].1.bid is None;
                assert(spec_alive(s1[i].1) && s1[i].1.bid is None);
                assert(g1.is_bidding());
                assert(false);
            }
            assert(self.wf());
            // what the broadcasts need of the winner
            assert(s2[wi].0@ == winner@ && spec_alive(s2[wi].1));
        }
        let rounds = self.get_points();
        (pile_list, GameEvent::RoundEnded { next: winner, rounds })
    }
}

} // verus!
