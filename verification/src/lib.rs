//! Colour whist: cards, decks, the rules of a trick and the moves of the
//! computer players, with their contracts proved by Verus.

pub mod card;
pub mod deck;
pub mod fortify;
pub mod game;
pub mod player;
pub mod suit;
