use vstd::prelude::*;
use crate::cards::Card;

verus! {

/// One card played by one player.
#[derive(Debug, Clone, PartialEq, Eq)]
pub struct Turn {
    pub player_id: String,
    pub card: Card,
}

/// Per-game state of one seat.
#[derive(Debug, Clone)]
pub struct Player {
    pub lifes: usize,
    pub deck: Vec<Card>,
    pub bid: Option<usize>,
    pub rounds: usize,
}

impl Player {
    /// A fresh player: five lifes, the given hand, no bid, no tricks won.
    pub fn new(deck: Vec<Card>) -> (p: Player)
        ensures
            p.lifes == 5,
            p.deck == deck,
            p.bid == None::<usize>,
            p.rounds == 0,
    {
        Player { lifes: 5, deck, bid: None, rounds: 0 }
    }

    /// A player stays in the game while some lifes remain.
    pub fn is_alive(&self) -> (r: bool)
        ensures
            r == (self.lifes != 0),
    {
        self.lifes != 0
    }

    pub fn loose_life(&mut self)
        requires
            old(self).lifes > 0,
        ensures
            final(self).lifes == old(self).lifes - 1,
            final(self).deck == old(self).deck,
            final(self).bid == old(self).bid,
            final(self).rounds == old(self).rounds,
    {
        self.lifes = self.lifes - 1;
    }
}

} // verus!
