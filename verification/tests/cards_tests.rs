use oh_hell::cards::{Card, Rank, Suit};

#[test]
fn test_rank() {
    let a = Card::new(Rank::Six, Suit::Clubs);
    let b = Card::new(Rank::Seven, Suit::Golds);

    assert!(a < b);
}

#[test]
fn test_rank_2() {
    let a = Card::new(Rank::Twelve, Suit::Clubs);
    let b = Card::new(Rank::Three, Suit::Golds);

    assert!(a < b);
}

#[test]
fn test_suit() {
    let a = Card::new(Rank::Six, Suit::Clubs);
    let b = Card::new(Rank::Six, Suit::Golds);

    assert!(a > b);
}

#[test]
fn test_value() {
    assert!(Card::new(Rank::Four, Suit::Golds).get_value() == 0);
    assert!(Card::new(Rank::Four, Suit::Clubs).get_value() == 3);
    assert!(Card::new(Rank::Six, Suit::Golds).get_value() == 20);
    assert!(Card::new(Rank::Six, Suit::Clubs).get_value() == 23);
    assert!(Card::new(Rank::Twelve, Suit::Clubs).get_value() == 63);
    assert!(Card::new(Rank::One, Suit::Clubs).get_value() == 73);
    assert!(Card::new(Rank::Three, Suit::Golds).get_value() == 90);
    assert!(Card::new(Rank::Three, Suit::Clubs).get_value() == 93);
}

#[test]
fn test_deck_is_canonical() {
    let deck = Card::deck();
    assert_eq!(deck.len(), 40);
    // ascending base value, each card distinct
    for i in 1..deck.len() {
        assert!(deck[i - 1].get_value() < deck[i].get_value());
    }
    assert_eq!(deck[0], Card::new(Rank::Four, Suit::Golds));
    assert_eq!(deck[39], Card::new(Rank::Three, Suit::Clubs));
}

#[test]
fn test_shuffle_then_sort_is_deck() {
    let mut shuffled = Card::shuffled_deck();
    assert_eq!(shuffled.len(), 40);
    shuffled.sort();
    assert_eq!(shuffled, Card::deck());
}

#[test]
fn test_shuffle_changes_nothing_but_order() {
    let mut shuffled = Card::shuffled_deck();
    let mut canonical = Card::deck();
    shuffled.sort_by_key(|c| c.get_value());
    canonical.sort_by_key(|c| c.get_value());
    assert_eq!(shuffled, canonical);
}

#[test]
fn test_next_rank_wraps() {
    assert_eq!(Rank::Four.get_next(), Rank::Five);
    assert_eq!(Rank::Seven.get_next(), Rank::Ten);
    assert_eq!(Rank::Three.get_next(), Rank::Four);
}
