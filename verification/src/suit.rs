//! The four suits of a pack of cards.

use vstd::prelude::*;

verus! {

/// A suit. The variants are declared in the order in which a sorted deck
/// groups its cards: spades first, hearts last.
#[derive(Clone, Copy, Debug, PartialEq, Eq, Structural, Hash)]
pub enum Suit {
    Spades,
    Clubs,
    Diamonds,
    Hearts,
}

impl Suit {
    /// Position of the suit in a sorted deck (spades 0, clubs 1, diamonds 2, hearts 3).
    pub open spec fn rank(self) -> nat {
        match self {
            Suit::Spades => 0,
            Suit::Clubs => 1,
            Suit::Diamonds => 2,
            Suit::Hearts => 3,
        }
    }

    /// The suit at position `k` of a sorted deck.
    pub open spec fn from_rank(k: int) -> Suit {
        if k == 0 {
            Suit::Spades
        } else if k == 1 {
            Suit::Clubs
        } else if k == 2 {
            Suit::Diamonds
        } else {
            Suit::Hearts
        }
    }

    /// The order in which the suits are dealt into a full deck and examined
    /// when a deck is scored.
    pub open spec fn spec_all() -> Seq<Suit> {
        seq![Suit::Hearts, Suit::Clubs, Suit::Diamonds, Suit::Spades]
    }

    /// Position of the suit in a sorted deck.
    pub fn index(&self) -> (r: u8)
        ensures
            r == self.rank(),
    {
        match self {
            Suit::Spades => 0,
            Suit::Clubs => 1,
            Suit::Diamonds => 2,
            Suit::Hearts => 3,
        }
    }

    /// All four suits, hearts, clubs, diamonds and spades, in that order.
    pub fn all() -> (r: [Suit; 4])
        ensures
            r@ == Self::spec_all(),
    {
        [Suit::Hearts, Suit::Clubs, Suit::Diamonds, Suit::Spades]
    }
}

/// Every suit has a rank below four, and the rank determines the suit.
pub proof fn lemma_rank_round_trip(s: Suit)
    ensures
        s.rank() < 4,
        Suit::from_rank(s.rank() as int) == s,
{
}

} // verus!
