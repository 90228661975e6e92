//! The vocabulary of the learning agent for the whist game: the actions it
//! can take and the game state it observes.

use vstd::prelude::*;

verus! {

/// All actions that the agent can take. An action could be described as just
/// a card, but these are realistic moves for many situations, and they keep
/// the state-action space small.
#[derive(Clone, Copy, Debug, PartialEq, Eq, Structural, Hash)]
pub enum Action {
    /// play the lowest card you can
    PlayWorst,
    /// play a higher card, but the lowest you can
    RaiseLow,
    /// play a higher card, the highest you can
    RaiseHigh,
    /// play the highest trump card you can
    BuyHigh,
    /// play the lowest trump card that buys it
    BuyLow,
}

/// The state of a game as the agent observes it (as yet it observes nothing).
#[derive(Clone, Copy, Debug, PartialEq, Eq, Structural, Hash, Default)]
pub struct GameState {}

impl GameState {
    /// The (single) observed state.
    pub fn new() -> (r: GameState)
        ensures
            r == (GameState {}),
    {
        GameState {}
    }
}

} // verus!
