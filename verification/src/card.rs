//! A single playing card and the rule that decides which of two cards wins.

use vstd::prelude::*;
use crate::suit::Suit;

verus! {

/// A card: its suit and its number, 1 (the ace) up to 13 (the king).
#[derive(Clone, Copy, Debug, PartialEq, Eq, Structural, Hash)]
pub struct Card {
    pub suit: Suit,
    pub number: u8,
}

impl Card {
    /// A card of a standard pack: its number lies in 1..=13.
    pub open spec fn is_valid(self) -> bool {
        1 <= self.number <= 13
    }

    /// Strength of the card within its suit: the ace counts 14, every other
    /// card its own number.
    pub open spec fn strength(self) -> nat {
        if self.number == 1 {
            14
        } else {
            self.number as nat
        }
    }

    /// Whether this card wins against `other` when `trump` is the trump suit:
    /// within one suit the stronger card wins; across suits only a trump wins.
    pub open spec fn beats(self, other: Card, trump: Suit) -> bool {
        if self.suit == other.suit {
            self.strength() > other.strength()
        } else {
            self.suit == trump
        }
    }

    /// Key of the card in a sorted deck: by suit first, then by ascending number.
    pub open spec fn sort_key(self) -> int {
        self.suit.rank() * 256 + self.number
    }

    /// The points the card is worth when a hand is scored: its strength.
    pub fn score(&self) -> (r: u32)
        ensures
            r == self.strength(),
    {
        if self.number == 1 {
            14
        } else {
            self.number as u32
        }
    }

    /// Whether this card beats `other` with `trump` as trump suit.
    pub fn better(&self, other: &Card, trump: &Suit) -> (r: bool)
        ensures
            r == self.beats(*other, *trump),
    {
        if self.suit == other.suit {
            self.score() > other.score()
        } else {
            self.suit == *trump
        }
    }

    /// Whether this card comes before `other` (or is equal to it) in a sorted deck.
    pub fn sorts_before(&self, other: &Card) -> (r: bool)
        ensures
            r == (self.sort_key() <= other.sort_key()),
    {
        let a = self.suit.index();
        let b = other.suit.index();
        a < b || (a == b && self.number <= other.number)
    }
}

/// No card beats itself.
pub proof fn lemma_beats_irreflexive(a: Card, trump: Suit)
    ensures
        !a.beats(a, trump),
{
}

/// Of two cards at most one beats the other.
pub proof fn lemma_beats_asymmetric(a: Card, b: Card, trump: Suit)
    ensures
        !(a.beats(b, trump) && b.beats(a, trump)),
{
}

/// A card that beats a card that beats a third card beats that third card too.
pub proof fn lemma_beats_transitive(a: Card, b: Card, c: Card, trump: Suit)
    requires
        a.beats(b, trump),
        b.beats(c, trump),
    ensures
        a.beats(c, trump),
{
}

/// Two different valid cards of one suit are ordered: one of them beats the other.
pub proof fn lemma_beats_total_in_suit(a: Card, b: Card, trump: Suit)
    requires
        a.is_valid(),
        b.is_valid(),
        a.suit == b.suit,
        a != b,
    ensures
        a.beats(b, trump) || b.beats(a, trump),
{
}

/// Two cards with the same sort key are the same card.
pub proof fn lemma_sort_key_injective(a: Card, b: Card)
    requires
        a.sort_key() == b.sort_key(),
    ensures
        a == b,
{
    if a.suit.rank() != b.suit.rank() {
        assert(a.sort_key() != b.sort_key());
    }
}

} // verus!
