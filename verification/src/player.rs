//! A player of the game and the hand of cards it holds.

use vstd::prelude::*;
use crate::deck::Deck;

verus! {

/// A player: the cards in its hand.
#[derive(PartialEq, Eq, Hash)]
pub struct Player {
    pub cards: Deck,
}

impl Player {
    /// A player whose hand is the first `amount` cards pulled from `deck`.
    pub fn new_take_cards(deck: &mut Deck, amount: usize) -> (r: Player)
        requires
            amount <= old(deck)@.len(),
        ensures
            r.cards@ == old(deck)@.take(amount as int),
            final(deck)@ == old(deck)@.skip(amount as int),
    {
        Player { cards: deck.pull_cards(amount) }
    }
}

} // verus!
