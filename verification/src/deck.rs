//! A pack of cards, not necessarily a full deck, with the operations that a
//! game of whist needs: dealing, sorting, scoring and choosing cards.

use vstd::prelude::*;
use crate::card::Card;
use crate::suit::Suit;
use rand::Rng;
use std::collections::HashMap;
use rand::seq::SliceRandom;

verus! {

/// An ordered pack of cards.
#[derive(PartialEq, Eq, Hash)]
pub struct Deck {
    cards: Vec<Card>,
}

impl View for Deck {
    type V = Seq<Card>;

    closed spec fn view(&self) -> Seq<Card> {
        self.cards@
    }
}

/// Number of cards of suit `suit` in `s`.
pub open spec fn suit_count(s: Seq<Card>, suit: Suit) -> nat
    decreases s.len(),
{
    if s.len() == 0 {
        0
    } else {
        suit_count(s.drop_last(), suit) + if s.last().suit == suit {
            1nat
        } else {
            0nat
        }
    }
}

/// Number of cards in `s` whose suit comes before position `k` of the sorted order.
pub open spec fn count_below(s: Seq<Card>, k: nat) -> nat
    decreases s.len(),
{
    if s.len() == 0 {
        0
    } else {
        count_below(s.drop_last(), k) + if s.last().suit.rank() < k {
            1nat
        } else {
            0nat
        }
    }
}

/// Where the block of suit `suit` starts, were the deck sorted: after the
/// cards of the suits that precede it in sorted order (for hearts, counted
/// back from the end of the deck).
pub open spec fn suit_start(s: Seq<Card>, suit: Suit) -> int {
    match suit {
        Suit::Spades => 0,
        Suit::Clubs => suit_count(s, Suit::Spades) as int,
        Suit::Diamonds => (suit_count(s, Suit::Spades) + suit_count(s, Suit::Clubs)) as int,
        Suit::Hearts => s.len() - suit_count(s, Suit::Hearts),
    }
}

/// The cards that `get_deck_of_suit` takes from `s` for `suit`: as many cards
/// as `s` holds of that suit, from where that suit's block starts.
pub open spec fn suit_block(s: Seq<Card>, suit: Suit) -> Seq<Card> {
    s.subrange(suit_start(s, suit), suit_start(s, suit) + suit_count(s, suit))
}

/// Sum of the scores of the cards in `s`.
pub open spec fn score_total(s: Seq<Card>) -> nat
    decreases s.len(),
{
    if s.len() == 0 {
        0
    } else {
        score_total(s.drop_last()) + s.last().strength()
    }
}

/// The score of suit `suit` in `s`: the total of the cards of its block.
pub open spec fn suit_score_of(s: Seq<Card>, suit: Suit) -> nat {
    score_total(suit_block(s, suit))
}

/// `s` is sorted by suit first, then by ascending number.
pub open spec fn is_sorted(s: Seq<Card>) -> bool {
    forall|i: int, j: int| 0 <= i <= j < s.len() ==> s[i].sort_key() <= s[j].sort_key()
}

/// Position of a suit in the order hearts, clubs, diamonds, spades.
pub open spec fn order_pos(suit: Suit) -> int {
    match suit {
        Suit::Hearts => 0,
        Suit::Clubs => 1,
        Suit::Diamonds => 2,
        Suit::Spades => 3,
    }
}

/// Card `i` of a freshly made full deck: thirteen hearts, then thirteen
/// clubs, diamonds and spades, each run numbered 1 to 13.
pub open spec fn full_card(i: int) -> Card {
    Card { suit: Suit::spec_all()[i / 13], number: (i % 13 + 1) as u8 }
}

/// A freshly made full deck of 52 cards.
pub open spec fn full_deck() -> Seq<Card> {
    Seq::new(52, |i: int| full_card(i))
}

/// The index that `lowest` picks among the first `k` entries of `avail`.
pub open spec fn lowest_pick(s: Seq<Card>, avail: Seq<usize>, trump: Suit, k: int) -> usize
    decreases k,
{
    if k <= 1 {
        avail[0]
    } else {
        let lo = lowest_pick(s, avail, trump, k - 1);
        if s[lo as int].beats(s[avail[k - 1] as int], trump) {
            avail[k - 1]
        } else {
            lo
        }
    }
}

/// The index that `highest` picks among the first `k` entries of `avail`.
pub open spec fn highest_pick(s: Seq<Card>, avail: Seq<usize>, trump: Suit, k: int) -> usize
    decreases k,
{
    if k <= 1 {
        avail[0]
    } else {
        let hi = highest_pick(s, avail, trump, k - 1);
        if s[avail[k - 1] as int].beats(s[hi as int], trump) {
            avail[k - 1]
        } else {
            hi
        }
    }
}

/// A suit count never exceeds the length of the sequence.
pub proof fn lemma_suit_count_bound(s: Seq<Card>, suit: Suit)
    ensures
        suit_count(s, suit) <= s.len(),
    decreases s.len(),
{
    if s.len() > 0 {
        lemma_suit_count_bound(s.drop_last(), suit);
    }
}

/// A sequence holds a card of a suit exactly when that suit's count is positive.
pub proof fn lemma_suit_count_positive(s: Seq<Card>, suit: Suit)
    ensures
        suit_count(s, suit) > 0 <==> exists|i: int| 0 <= i < s.len() && s[i].suit == suit,
    decreases s.len(),
{
    if s.len() > 0 {
        let t = s.drop_last();
        lemma_suit_count_positive(t, suit);
        if suit_count(t, suit) > 0 {
            let i = choose|i: int| 0 <= i < t.len() && t[i].suit == suit;
            assert(s[i].suit == suit);
        }
        if exists|i: int| 0 <= i < s.len() && s[i].suit == suit {
            let i = choose|i: int| 0 <= i < s.len() && s[i].suit == suit;
            if i < s.len() - 1 {
                assert(t[i].suit == suit);
            }
        }
    }
}

/// The counts below consecutive positions differ by the count of the suit at that position.
pub proof fn lemma_count_below_step(s: Seq<Card>, k: nat)
    requires
        k < 4,
    ensures
        count_below(s, k + 1) == count_below(s, k) + suit_count(s, Suit::from_rank(k as int)),
        count_below(s, 0) == 0,
        count_below(s, 4) == s.len(),
    decreases s.len(),
{
    if s.len() > 0 {
        lemma_count_below_step(s.drop_last(), k);
    }
}

/// The four suit counts add up to the length of the sequence.
pub proof fn lemma_suit_counts_total(s: Seq<Card>)
    ensures
        suit_count(s, Suit::Spades) + suit_count(s, Suit::Clubs) + suit_count(s, Suit::Diamonds)
            + suit_count(s, Suit::Hearts) == s.len(),
{
    lemma_count_below_step(s, 0);
    lemma_count_below_step(s, 1);
    lemma_count_below_step(s, 2);
    lemma_count_below_step(s, 3);
}

/// The block of a suit lies inside the sequence and starts where the suits
/// before it in sorted order end.
pub proof fn lemma_suit_block_bounds(s: Seq<Card>, suit: Suit)
    ensures
        0 <= suit_start(s, suit),
        suit_start(s, suit) == count_below(s, suit.rank()),
        suit_start(s, suit) + suit_count(s, suit) == count_below(s, suit.rank() + 1),
        suit_start(s, suit) + suit_count(s, suit) <= s.len(),
{
    lemma_count_below_step(s, 0);
    lemma_count_below_step(s, 1);
    lemma_count_below_step(s, 2);
    lemma_count_below_step(s, 3);
}

/// In a sorted sequence the cards whose suit comes before position `k` are
/// exactly the first `count_below(s, k)` cards.
pub proof fn lemma_sorted_prefix(s: Seq<Card>, k: nat, i: int)
    requires
        is_sorted(s),
        0 <= i < s.len(),
    ensures
        s[i].suit.rank() < k <==> i < count_below(s, k),
    decreases s.len(),
{
    let t = s.drop_last();
    let x = s.last();
    assert(is_sorted(t));
    if x.suit.rank() < k {
        // every card sorts at or before the last, so every card is below k
        assert forall|j: int| 0 <= j < s.len() implies s[j].suit.rank() < k by {
            assert(s[j].sort_key() <= x.sort_key());
        }
        lemma_all_below(s, k);
    } else {
        if i < s.len() - 1 {
            lemma_sorted_prefix(t, k, i);
            assert(t[i] == s[i]);
        } else {
            lemma_count_below_bound(t, k);
        }
    }
}

/// When every card of `s` is below position `k`, all of them are counted.
pub proof fn lemma_all_below(s: Seq<Card>, k: nat)
    requires
        forall|j: int| 0 <= j < s.len() ==> s[j].suit.rank() < k,
    ensures
        count_below(s, k) == s.len(),
    decreases s.len(),
{
    if s.len() > 0 {
        lemma_all_below(s.drop_last(), k);
    }
}

/// A count below a position never exceeds the length of the sequence.
pub proof fn lemma_count_below_bound(s: Seq<Card>, k: nat)
    ensures
        count_below(s, k) <= s.len(),
    decreases s.len(),
{
    if s.len() > 0 {
        lemma_count_below_bound(s.drop_last(), k);
    }
}

/// In a sorted sequence the block of a suit holds cards of that suit only.
pub proof fn lemma_sorted_block(s: Seq<Card>, suit: Suit)
    requires
        is_sorted(s),
    ensures
        forall|i: int|
            0 <= i < suit_block(s, suit).len() ==> #[trigger] suit_block(s, suit)[i].suit == suit,
{
    lemma_suit_block_bounds(s, suit);
    let start = suit_start(s, suit);
    assert forall|i: int| 0 <= i < suit_block(s, suit).len() implies #[trigger] suit_block(
        s,
        suit,
    )[i].suit == suit by {
        lemma_sorted_prefix(s, suit.rank(), start + i);
        lemma_sorted_prefix(s, suit.rank() + 1, start + i);
        crate::suit::lemma_rank_round_trip(suit);
        crate::suit::lemma_rank_round_trip(s[start + i].suit);
    }
}



/// A freshly made full deck holds every card of a standard pack exactly once
/// and nothing else: 52 distinct valid cards, 13 of each suit.
pub proof fn lemma_full_deck_complete()
    ensures
        full_deck().len() == 52,
        forall|i: int| 0 <= i < 52 ==> (#[trigger] full_deck()[i]).is_valid(),
        forall|i: int, j: int|
            0 <= i < 52 && 0 <= j < 52 && i != j ==> #[trigger] full_deck()[i] != #[trigger] full_deck()[j],
        forall|c: Card| c.is_valid() ==> #[trigger] full_deck().contains(c),
        forall|suit: Suit| #[trigger] suit_count(full_deck(), suit) == 13,
{
    assert forall|i: int| 0 <= i < 52 implies (#[trigger] full_deck()[i]).is_valid() by {
        assert(0 <= i % 13 < 13) by (nonlinear_arith)
            requires
                0 <= i,
        ;
    }
    assert forall|i: int, j: int|
        0 <= i < 52 && 0 <= j < 52 && i != j implies #[trigger] full_deck()[i]
        != #[trigger] full_deck()[j] by {
        lemma_full_card_index(i);
        lemma_full_card_index(j);
        if full_deck()[i] == full_deck()[j] {
            assert(i / 13 == j / 13);
            assert(i % 13 == j % 13);
            assert(i == 13 * (i / 13) + i % 13) by (nonlinear_arith);
            assert(j == 13 * (j / 13) + j % 13) by (nonlinear_arith);
        }
    }
    assert forall|c: Card| c.is_valid() implies #[trigger] full_deck().contains(c) by {
        let i = 13 * order_pos(c.suit) + c.number - 1;
        assert(i / 13 == order_pos(c.suit) && i % 13 == c.number - 1) by (nonlinear_arith)
            requires
                i == 13 * order_pos(c.suit) + c.number - 1,
                0 <= c.number - 1 < 13,
        ;
        assert(full_deck()[i] == c);
    }
    assert forall|suit: Suit| #[trigger] suit_count(full_deck(), suit) == 13 by {
        lemma_full_deck_suit_count(suit, 52);
        assert(full_deck().take(52) =~= full_deck());
    }
}

/// Card `i` of the full deck lies in run `i / 13`, whose suit is distinct per run.
proof fn lemma_full_card_index(i: int)
    requires
        0 <= i < 52,
    ensures
        0 <= i / 13 < 4,
        0 <= i % 13 < 13,
        full_card(i).suit == Suit::spec_all()[i / 13],
        full_card(i).number == i % 13 + 1,
        forall|a: int, b: int|
            0 <= a < 4 && 0 <= b < 4 && a != b ==> Suit::spec_all()[a] != Suit::spec_all()[b],
{
    assert(0 <= i / 13 < 4 && 0 <= i % 13 < 13) by (nonlinear_arith)
        requires
            0 <= i < 52,
    ;
}

/// The first `n` cards of the full deck hold `min(13, max(0, n - 13 * p))` cards of
/// the suit dealt in run `p`.
proof fn lemma_full_deck_suit_count(suit: Suit, n: int)
    requires
        0 <= n <= 52,
    ensures
        suit_count(full_deck().take(n), suit) == if n <= 13 * order_pos(suit) {
            0
        } else if n >= 13 * order_pos(suit) + 13 {
            13
        } else {
            n - 13 * order_pos(suit)
        },
    decreases n,
{
    if n > 0 {
        lemma_full_deck_suit_count(suit, n - 1);
        assert(full_deck().take(n).drop_last() =~= full_deck().take(n - 1));
        lemma_full_card_index(n - 1);
        let p = order_pos(suit);
        assert((n - 1) / 13 == p <==> 13 * p <= n - 1 < 13 * p + 13) by (nonlinear_arith)
            requires
                0 <= n - 1,
                0 <= p < 4,
        ;
    }
}

/// The scores of a prefix never exceed the score of the whole sequence.
pub proof fn lemma_score_total_prefix(s: Seq<Card>, k: int)
    requires
        0 <= k <= s.len(),
    ensures
        score_total(s.take(k)) <= score_total(s),
    decreases s.len(),
{
    if k < s.len() {
        lemma_score_total_prefix(s.drop_last(), k);
        assert(s.drop_last().take(k) =~= s.take(k));
    } else {
        assert(s.take(k) =~= s);
    }
}


/// Pulling cards splits a deck: the pulled cards followed by the cards left
/// are the deck as it was.
pub proof fn lemma_pull_cards_partition(s: Seq<Card>, amount: int)
    requires
        0 <= amount <= s.len(),
    ensures
        s.take(amount) + s.skip(amount) == s,
{
    assert(s.take(amount) + s.skip(amount) =~= s);
}

/// Removing a card and adding it back leaves the deck with the same cards.
pub proof fn lemma_remove_then_add(s: Seq<Card>, index: int)
    requires
        0 <= index < s.len(),
    ensures
        s.remove(index).push(s[index]).to_multiset() == s.to_multiset(),
{
    broadcast use vstd::multiset::group_multiset_axioms;

    vstd::seq_lib::to_multiset_build(s.remove(index), s[index]);
    vstd::seq_lib::to_multiset_remove(s, index);
    vstd::seq_lib::to_multiset_contains(s, s[index]);
    assert(s.contains(s[index]));
    assert(s.remove(index).push(s[index]).to_multiset() =~= s.to_multiset());
}

/// Every card of a standard pack occurs exactly once in a sequence that holds
/// the cards of a full deck in some order.
pub proof fn lemma_full_deck_permutation(s: Seq<Card>)
    requires
        s.to_multiset() == full_deck().to_multiset(),
    ensures
        forall|c: Card| c.is_valid() ==> #[trigger] s.to_multiset().count(c) == 1,
        forall|c: Card| !c.is_valid() ==> #[trigger] s.to_multiset().count(c) == 0,
{
    lemma_full_deck_complete();
    assert(full_deck().no_duplicates());
    full_deck().lemma_multiset_has_no_duplicates();
    assert forall|c: Card| c.is_valid() implies #[trigger] s.to_multiset().count(c) == 1 by {
        vstd::seq_lib::to_multiset_contains(full_deck(), c);
    }
    assert forall|c: Card| !c.is_valid() implies #[trigger] s.to_multiset().count(c) == 0 by {
        vstd::seq_lib::to_multiset_contains(full_deck(), c);
        if full_deck().contains(c) {
            let i = choose|i: int| 0 <= i < full_deck().len() && full_deck()[i] == c;
            assert(full_deck()[i].is_valid());
        }
    }
}


/// The index that `lowest` picks is one of the entries it looked at.
pub proof fn lemma_lowest_pick_member(s: Seq<Card>, avail: Seq<usize>, trump: Suit, k: int)
    requires
        1 <= k <= avail.len(),
    ensures
        exists|j: int| 0 <= j < k && avail[j] == lowest_pick(s, avail, trump, k),
    decreases k,
{
    if k > 1 {
        lemma_lowest_pick_member(s, avail, trump, k - 1);
    }
    else {
        assert(avail[0] == lowest_pick(s, avail, trump, k));
    }
}


/// No card scores more than 255, so a sequence scores at most 255 per card;
/// the score of a suit is at most 255 times the size of the deck.
pub proof fn lemma_score_bound(s: Seq<Card>, suit: Suit)
    ensures
        score_total(s) <= 255 * s.len(),
        suit_score_of(s, suit) <= 255 * s.len(),
{
    lemma_score_total_bound(s);
    lemma_suit_block_bounds(s, suit);
    lemma_score_total_bound(suit_block(s, suit));
}

proof fn lemma_score_total_bound(s: Seq<Card>)
    ensures
        score_total(s) <= 255 * s.len(),
    decreases s.len(),
{
    if s.len() > 0 {
        lemma_score_total_bound(s.drop_last());
    }
}


/// The index that `lowest` picks holds a card that beats none of the cards
/// at the entries it looked at.
pub proof fn lemma_lowest_pick_minimal(s: Seq<Card>, avail: Seq<usize>, trump: Suit, k: int)
    requires
        1 <= k <= avail.len(),
    ensures
        forall|j: int|
            0 <= j < k ==> !s[lowest_pick(s, avail, trump, k) as int].beats(
                #[trigger] s[avail[j] as int],
                trump,
            ),
    decreases k,
{
    crate::card::lemma_beats_irreflexive(s[lowest_pick(s, avail, trump, k) as int], trump);
    if k > 1 {
        lemma_lowest_pick_minimal(s, avail, trump, k - 1);
        let lo = lowest_pick(s, avail, trump, k - 1);
        let x = s[avail[k - 1] as int];
        if s[lo as int].beats(x, trump) {
            assert forall|j: int| 0 <= j < k implies !x.beats(#[trigger] s[avail[j] as int], trump) by {
                if j < k - 1 && x.beats(s[avail[j] as int], trump) {
                    crate::card::lemma_beats_transitive(s[lo as int], x, s[avail[j] as int], trump);
                }
                crate::card::lemma_beats_irreflexive(x, trump);
            }
        }
    }
}

impl Deck {
    /// A deck with no cards.
    pub fn new_empty() -> (r: Deck)
        ensures
            r@ == Seq::<Card>::empty(),
    {
        let cards: Vec<Card> = Vec::new();
        Deck { cards }
    }

    /// Creates a new deck from these cards, consuming them.
    pub fn new_from(cards: Vec<Card>) -> (r: Deck)
        ensures
            r@ == cards@,
    {
        Deck { cards }
    }

    /// Number of cards in the deck.
    pub fn size(&self) -> (r: usize)
        ensures
            r == self@.len(),
    {
        self.cards.len()
    }

    /// The card at position `index`.
    pub fn card(&self, index: usize) -> (r: &Card)
        requires
            index < self@.len(),
        ensures
            *r == self@[index as int],
    {
        &self.cards[index]
    }

    /// The suit of the card at position `index`.
    pub fn suit_at(&self, index: usize) -> (r: Suit)
        requires
            index < self@.len(),
        ensures
            r == self@[index as int].suit,
    {
        self.cards[index].suit
    }

    /// Adds the given card at the end of the deck (useful for the table's deck).
    pub fn add(&mut self, card: Card)
        ensures
            final(self)@ == old(self)@.push(card),
    {
        self.cards.push(card);
    }

    /// Removes the card at position `index` from this deck and hands it to the caller,
    /// as when a player puts a card from its hand on the table.
    pub fn remove(&mut self, index: usize) -> (r: Card)
        requires
            index < old(self)@.len(),
        ensures
            r == old(self)@[index as int],
            final(self)@ == old(self)@.remove(index as int),
    {
        self.cards.remove(index)
    }

    /// Pulls the first `amount` cards from the deck, in current deck order.
    pub fn pull_cards(&mut self, amount: usize) -> (r: Deck)
        requires
            amount <= old(self)@.len(),
        ensures
            r@ == old(self)@.take(amount as int),
            final(self)@ == old(self)@.skip(amount as int),
    {
        let mut rest = self.cards.split_off(amount);
        std::mem::swap(&mut self.cards, &mut rest);
        proof {
            assert(rest@ =~= old(self)@.take(amount as int));
            assert(self@ =~= old(self)@.skip(amount as int));
        }
        Deck { cards: rest }
    }

    /// Whether the deck holds `card`.
    pub fn contains(&self, card: &Card) -> (r: bool)
        ensures
            r == self@.contains(*card),
    {
        let mut i: usize = 0;
        while i < self.cards.len()
            invariant
                i <= self.cards@.len(),
                forall|j: int| 0 <= j < i ==> self.cards@[j] != *card,
            decreases self.cards@.len() - i,
        {
            if self.cards[i] == *card {
                return true;
            }
            i += 1;
        }
        false
    }

    /// Position of the first occurrence of `card` in the deck, if any.
    pub fn index_of(&self, card: &Card) -> (r: Option<usize>)
        ensures
            match r {
                Some(i) => i < self@.len() && self@[i as int] == *card && forall|j: int|
                    0 <= j < i ==> self@[j] != *card,
                None => !self@.contains(*card),
            },
    {
        let mut i: usize = 0;
        while i < self.cards.len()
            invariant
                i <= self.cards@.len(),
                forall|j: int| 0 <= j < i ==> self.cards@[j] != *card,
            decreases self.cards@.len() - i,
        {
            if self.cards[i] == *card {
                return Some(i);
            }
            i += 1;
        }
        None
    }

    /// The number of cards of each suit, indexed by the suit's position in a
    /// sorted deck (spades, clubs, diamonds, hearts).
    fn get_amounts(cards: &Vec<Card>) -> (r: Vec<usize>)
        ensures
            r@.len() == 4,
            forall|k: int| 0 <= k < 4 ==> r@[k] == suit_count(cards@, Suit::from_rank(k)),
    {
        let mut amounts: Vec<usize> = Vec::new();
        amounts.push(0);
        amounts.push(0);
        amounts.push(0);
        amounts.push(0);
        let mut i: usize = 0;
        while i < cards.len()
            invariant
                i <= cards@.len(),
                amounts@.len() == 4,
                forall|k: int|
                    0 <= k < 4 ==> amounts@[k] == suit_count(
                        #[trigger] cards@.take(i as int),
                        Suit::from_rank(k),
                    ),
            decreases cards@.len() - i,
        {
            let k = cards[i].suit.index() as usize;
            proof {
                assert(cards@.take(i + 1).drop_last() =~= cards@.take(i as int));
                lemma_suit_count_bound(cards@.take(i as int), Suit::from_rank(k as int));
                crate::suit::lemma_rank_round_trip(cards@[i as int].suit);
            }
            let a = amounts[k];
            amounts.set(k, a + 1);
            i += 1;
        }
        proof {
            assert(cards@.take(cards@.len() as int) =~= cards@);
        }
        amounts
    }

    /// The cards of suit `suit`, taken as one block from where that suit's
    /// cards start in a sorted deck. On a sorted deck that block holds
    /// exactly the deck's cards of that suit.
    pub fn get_deck_of_suit(&self, suit: &Suit) -> (r: Deck)
        ensures
            r@ == suit_block(self@, *suit),
            r@.len() == suit_count(self@, *suit),
            is_sorted(self@) ==> forall|i: int| 0 <= i < r@.len() ==> #[trigger] r@[i].suit == *suit,
    {
        let amounts = Self::get_amounts(&self.cards);
        let n = self.size();
        proof {
            lemma_suit_block_bounds(self@, *suit);
            lemma_suit_counts_total(self@);
            assert(amounts@[0] == suit_count(self@, Suit::Spades));
            assert(amounts@[1] == suit_count(self@, Suit::Clubs));
            assert(amounts@[2] == suit_count(self@, Suit::Diamonds));
            assert(amounts@[3] == suit_count(self@, Suit::Hearts));
        }
        let start: usize = match suit {
            Suit::Spades => 0,
            Suit::Clubs => amounts[0],
            Suit::Diamonds => amounts[0] + amounts[1],
            Suit::Hearts => n - amounts[3],
        };
        let amount: usize = match suit {
            Suit::Spades => amounts[0],
            Suit::Clubs => amounts[1],
            Suit::Diamonds => amounts[2],
            Suit::Hearts => amounts[3],
        };
        let end = start + amount;
        let mut cards: Vec<Card> = Vec::new();
        let mut i: usize = start;
        while i < end
            invariant
                start <= i <= end,
                end <= self.cards@.len(),
                cards@ == self.cards@.subrange(start as int, i as int),
            decreases end - i,
        {
            cards.push(self.cards[i]);
            proof {
                assert(cards@ =~= self.cards@.subrange(start as int, i + 1));
            }
            i += 1;
        }
        proof {
            if is_sorted(self@) {
                lemma_sorted_block(self@, *suit);
            }
        }
        Self::new_from(cards)
    }

    /// Whether the deck holds any card of suit `suit`.
    pub fn has_suit(&self, suit: &Suit) -> (r: bool)
        ensures
            r == exists|i: int| 0 <= i < self@.len() && self@[i].suit == *suit,
    {
        proof {
            lemma_suit_count_positive(self@, *suit);
        }
        self.get_deck_of_suit(suit).size() > 0
    }
}


impl Deck {
    /// A full deck of 52 cards: hearts, clubs, diamonds and spades, each
    /// numbered 1 to 13.
    pub fn new_full() -> (r: Deck)
        ensures
            r@ == full_deck(),
    {
        let mut cards: Vec<Card> = Vec::new();
        let suits = Suit::all();
        let mut si: usize = 0;
        while si < 4
            invariant
                si <= 4,
                suits@ == Suit::spec_all(),
                cards@.len() == 13 * si,
                forall|j: int| 0 <= j < cards@.len() ==> cards@[j] == full_card(j),
            decreases 4 - si,
        {
            let clr = suits[si];
            let mut nmb: u8 = 1;
            while nmb < 14
                invariant
                    1 <= nmb <= 14,
                    si < 4,
                    clr == Suit::spec_all()[si as int],
                    cards@.len() == 13 * si + nmb - 1,
                    forall|j: int| 0 <= j < cards@.len() ==> cards@[j] == full_card(j),
                decreases 14 - nmb,
            {
                proof {
                    let j = 13 * si + nmb - 1;
                    assert(j / 13 == si && j % 13 == nmb - 1) by (nonlinear_arith)
                        requires
                            j == 13 * si + nmb - 1,
                            1 <= nmb < 14,
                            0 <= si,
                    ;
                }
                cards.push(Card { suit: clr, number: nmb });
                nmb += 1;
            }
            si += 1;
        }
        proof {
            assert(cards@ =~= full_deck());
        }
        Deck { cards }
    }

    /// Puts the cards in a random order.
    pub fn shuffle(&mut self)
        ensures
            final(self)@.len() == old(self)@.len(),
            final(self)@.to_multiset() == old(self)@.to_multiset(),
    {
        shuffle_cards(&mut self.cards);
    }

    /// Sorts the cards by suit first (spades, clubs, diamonds, hearts), then
    /// by ascending number.
    pub fn sort(&mut self)
        ensures
            is_sorted(final(self)@),
            final(self)@.len() == old(self)@.len(),
            final(self)@.to_multiset() == old(self)@.to_multiset(),
    {
        broadcast use {vstd::seq_lib::to_multiset_len, vstd::seq_lib::group_to_multiset_ensures};

        let mut sorted: Vec<Card> = Vec::new();
        let mut i: usize = 0;
        proof {
            assert(self.cards@.take(0) =~= Seq::<Card>::empty());
            assert(sorted@ =~= Seq::<Card>::empty());
        }
        while i < self.cards.len()
            invariant
                i <= self.cards@.len(),
                is_sorted(sorted@),
                sorted@.len() == i,
                sorted@.to_multiset() == self.cards@.take(i as int).to_multiset(),
            decreases self.cards@.len() - i,
        {
            let c = self.cards[i];
            let mut p: usize = 0;
            while p < sorted.len() && sorted[p].sorts_before(&c)
                invariant
                    p <= sorted@.len(),
                    forall|q: int| 0 <= q < p ==> sorted@[q].sort_key() <= c.sort_key(),
                decreases sorted@.len() - p,
            {
                p += 1;
            }
            let ghost old_sorted = sorted@;
            sorted.insert(p, c);
            proof {
                assert forall|a: int, b: int| 0 <= a <= b < sorted@.len() implies sorted@[a].sort_key()
                    <= sorted@[b].sort_key() by {
                    if p < old_sorted.len() {
                        assert(c.sort_key() < old_sorted[p as int].sort_key());
                    }
                    if a < p && b > p {
                        assert(old_sorted[a].sort_key() <= old_sorted[b - 1].sort_key());
                    }
                    if a == p && b > p {
                        assert(old_sorted[p as int].sort_key() <= old_sorted[b - 1].sort_key());
                    }
                }
                assert(self.cards@.take(i + 1) =~= self.cards@.take(i as int).push(c));
                assert(sorted@ == old_sorted.insert(p as int, c));
                vstd::seq_lib::to_multiset_insert(old_sorted, p as int, c);
                vstd::seq_lib::to_multiset_build(self.cards@.take(i as int), c);
                assert(sorted@.to_multiset() == old_sorted.to_multiset().insert(c));
                assert(self.cards@.take(i + 1).to_multiset() == self.cards@.take(
                    i as int,
                ).to_multiset().insert(c));
            }
            i += 1;
        }
        proof {
            assert(self.cards@.take(self.cards@.len() as int) =~= self.cards@);
        }
        self.cards = sorted;
    }

    /// Looks at one card of the deck, chosen at random.
    pub fn peek(&self) -> (r: &Card)
        requires
            self@.len() > 0,
        ensures
            self@.contains(*r),
    {
        let random_index = random_index(self.size());
        &self.cards[random_index]
    }

    /// The score of the suit: the total score of its cards.
    fn suit_score(&self, suit: &Suit) -> (r: u32)
        requires
            suit_score_of(self@, *suit) <= u32::MAX,
        ensures
            r == suit_score_of(self@, *suit),
    {
        let suit_deck = self.get_deck_of_suit(suit);
        let mut score: u32 = 0;
        let mut i: usize = 0;
        while i < suit_deck.size()
            invariant
                i <= suit_deck@.len(),
                score_total(suit_deck@) <= u32::MAX,
                score == score_total(suit_deck@.take(i as int)),
            decreases suit_deck@.len() - i,
        {
            proof {
                assert(suit_deck@.take(i + 1).drop_last() =~= suit_deck@.take(i as int));
                lemma_score_total_prefix(suit_deck@, i + 1);
            }
            score = score + suit_deck.card(i).score();
            i += 1;
        }
        proof {
            assert(suit_deck@.take(i as int) =~= suit_deck@);
        }
        score
    }

    /// The suit with the highest score, and that score: of the suits with the
    /// highest score, the first in the order hearts, clubs, diamonds, spades.
    pub fn best_suit_score(&self) -> (r: (Suit, u32))
        requires
            forall|suit: Suit| suit_score_of(self@, suit) <= u32::MAX,
        ensures
            suit_score_of(self@, r.0) == r.1,
            forall|suit: Suit| suit_score_of(self@, suit) <= r.1,
            forall|suit: Suit| order_pos(suit) < order_pos(r.0) ==> suit_score_of(self@, suit) < r.1,
    {
        let mut best_suit: Suit = Suit::Hearts;
        let mut best_score: u32 = 0;
        let suits = Suit::all();
        let mut k: usize = 0;
        while k < 4
            invariant
                k <= 4,
                suits@ == Suit::spec_all(),
                forall|suit: Suit| suit_score_of(self@, suit) <= u32::MAX,
                k > 0 ==> suit_score_of(self@, best_suit) == best_score,
                k == 0 ==> best_suit == Suit::Hearts && best_score == 0,
                forall|suit: Suit|
                    order_pos(suit) < k ==> #[trigger] suit_score_of(self@, suit) <= best_score,
                forall|suit: Suit|
                    order_pos(suit) < order_pos(best_suit) ==> suit_score_of(self@, suit) < best_score,
                order_pos(best_suit) < k || best_suit == Suit::Hearts,
            decreases 4 - k,
        {
            let suit = suits[k];
            assert(order_pos(suit) == k);
            let current_score = self.suit_score(&suit);
            if current_score > best_score {
                best_score = current_score;
                best_suit = suit;
            }
            k += 1;
        }
        (best_suit, best_score)
    }

    /// Of the cards at the positions in `available`, the position of the lowest:
    /// walking through `available`, a card replaces the current pick when the
    /// pick beats it. No card at those positions is beaten by the result.
    pub fn lowest(&self, available: &Vec<usize>, trump: &Suit) -> (r: usize)
        requires
            available@.len() > 0,
            forall|j: int| 0 <= j < available@.len() ==> available@[j] < self@.len(),
        ensures
            r == lowest_pick(self@, available@, *trump, available@.len() as int),
            available@.contains(r),
            forall|j: int|
                0 <= j < available@.len() ==> !self@[r as int].beats(
                    #[trigger] self@[available@[j] as int],
                    *trump,
                ),
    {
        let mut lowest_index: usize = available[0];
        let mut i: usize = 1;
        proof {
            crate::card::lemma_beats_irreflexive(self@[lowest_index as int], *trump);
        }
        while i < available.len()
            invariant
                1 <= i <= available@.len(),
                forall|j: int| 0 <= j < available@.len() ==> available@[j] < self@.len(),
                lowest_index == lowest_pick(self@, available@, *trump, i as int),
                exists|j: int| 0 <= j < i && available@[j] == lowest_index,
                forall|j: int|
                    0 <= j < i ==> !self@[lowest_index as int].beats(
                        #[trigger] self@[available@[j] as int],
                        *trump,
                    ),
            decreases available@.len() - i,
        {
            let current = self.card(available[i]);
            if self.card(lowest_index).better(current, trump) {
                proof {
                    assert forall|j: int| 0 <= j <= i implies !current.beats(
                        #[trigger] self@[available@[j] as int],
                        *trump,
                    ) by {
                        if j < i && current.beats(self@[available@[j] as int], *trump) {
                            crate::card::lemma_beats_transitive(
                                self@[lowest_index as int],
                                *current,
                                self@[available@[j] as int],
                                *trump,
                            );
                        }
                        crate::card::lemma_beats_irreflexive(*current, *trump);
                    }
                }
                lowest_index = available[i];
            }
            i += 1;
        }
        lowest_index
    }

    /// Of the cards at the positions in `available`, the position of the highest:
    /// walking through `available`, a card replaces the current pick when it
    /// beats the pick. No card at those positions beats the result.
    pub fn highest(&self, available: &Vec<usize>, trump: &Suit) -> (r: usize)
        requires
            available@.len() > 0,
            forall|j: int| 0 <= j < available@.len() ==> available@[j] < self@.len(),
        ensures
            r == highest_pick(self@, available@, *trump, available@.len() as int),
            available@.contains(r),
            forall|j: int|
                0 <= j < available@.len() ==> !(#[trigger] self@[available@[j] as int]).beats(
                    self@[r as int],
                    *trump,
                ),
    {
        let mut highest_index: usize = available[0];
        let mut i: usize = 1;
        proof {
            crate::card::lemma_beats_irreflexive(self@[highest_index as int], *trump);
        }
        while i < available.len()
            invariant
                1 <= i <= available@.len(),
                forall|j: int| 0 <= j < available@.len() ==> available@[j] < self@.len(),
                highest_index == highest_pick(self@, available@, *trump, i as int),
                exists|j: int| 0 <= j < i && available@[j] == highest_index,
                forall|j: int|
                    0 <= j < i ==> !(#[trigger] self@[available@[j] as int]).beats(
                        self@[highest_index as int],
                        *trump,
                    ),
            decreases available@.len() - i,
        {
            let current = self.card(available[i]);
            if current.better(self.card(highest_index), trump) {
                proof {
                    assert forall|j: int| 0 <= j <= i implies !(#[trigger] self@[available@[j] as int]).beats(
                        *current,
                        *trump,
                    ) by {
                        if j < i && self@[available@[j] as int].beats(*current, *trump) {
                            crate::card::lemma_beats_transitive(
                                self@[available@[j] as int],
                                *current,
                                self@[highest_index as int],
                                *trump,
                            );
                        }
                        crate::card::lemma_beats_irreflexive(*current, *trump);
                    }
                }
                highest_index = available[i];
            }
            i += 1;
        }
        highest_index
    }
}


impl Deck {
    /// How many cards of each suit the deck holds, keyed by the suit's
    /// position in a sorted deck (`Suit::index`): every suit has an entry,
    /// zero included.
    pub fn suit_amounts(&self) -> (r: HashMap<u8, usize>)
        ensures
            forall|key: u8| #[trigger] r@.contains_key(key) <==> key < 4,
            forall|suit: Suit| #[trigger] r@[suit.rank() as u8] == suit_count(self@, suit),
    {
        broadcast use vstd::std_specs::hash::group_hash_axioms;

        let mut map: HashMap<u8, usize> = HashMap::new();
        let suits = Suit::all();
        let mut k: usize = 0;
        while k < 4
            invariant
                k <= 4,
                suits@ == Suit::spec_all(),
                forall|suit: Suit|
                    #[trigger] map@.contains_key(suit.rank() as u8) <==> order_pos(suit) < k,
                forall|key: u8| #[trigger] map@.contains_key(key) ==> key < 4,
                forall|suit: Suit| order_pos(suit) < k ==> #[trigger] map@[suit.rank() as u8] == 0,
            decreases 4 - k,
        {
            assert(order_pos(suits[k as int]) == k);
            map.insert(suits[k].index(), 0);
            k += 1;
        }
        assert forall|key: u8| #[trigger] map@.contains_key(key) <==> key < 4 by {
            if key < 4 {
                assert(map@.contains_key(Suit::from_rank(key as int).rank() as u8));
            }
        }
        let mut i: usize = 0;
        while i < self.cards.len()
            invariant
                i <= self.cards@.len(),
                forall|key: u8| #[trigger] map@.contains_key(key) <==> key < 4,
                forall|suit: Suit|
                    #[trigger] map@[suit.rank() as u8] == suit_count(self.cards@.take(i as int), suit),
            decreases self.cards@.len() - i,
        {
            let suit = self.cards[i].suit;
            let key = suit.index();
            proof {
                assert(self.cards@.take(i + 1).drop_last() =~= self.cards@.take(i as int));
                lemma_suit_count_bound(self.cards@.take(i as int), suit);
            }
            let amnt: usize = match map.get(&key) {
                Some(v) => *v,
                None => 0,
            };
            assert(map@[suit.rank() as u8] == suit_count(self.cards@.take(i as int), suit));
            assert(key == suit.rank() as u8);
            assert(map@.contains_key(key));
            map.insert(key, amnt + 1);
            proof {
                assert forall|other: Suit| #[trigger] map@[other.rank() as u8] == suit_count(
                    self.cards@.take(i + 1),
                    other,
                ) by {
                    if other != suit {
                        assert(other.rank() != suit.rank());
                    }
                }
            }
            i += 1;
        }
        proof {
            assert(self.cards@.take(i as int) =~= self.cards@);
        }
        map
    }
}

/// Puts the cards in a random order with `rand`'s `SliceRandom::shuffle`,
/// driven by the thread-local generator `rand::thread_rng()`. Trusted: the
/// result is some permutation of the cards (the shuffle only swaps cards);
/// which permutation comes out depends on chance and is left unsaid.
#[verifier::external_body]
fn shuffle_cards(cards: &mut Vec<Card>)
    ensures
        final(cards)@.len() == old(cards)@.len(),
        final(cards)@.to_multiset() == old(cards)@.to_multiset(),
{
    cards.shuffle(&mut rand::thread_rng());
}

/// A random index below `bound`, from `rand`'s `Rng::gen_range(0..bound)` on
/// the thread-local generator. Trusted: the value lies in `0..bound`
/// (`gen_range` panics on an empty range, so `bound` must be positive);
/// which value comes out depends on chance and is left unsaid.
#[verifier::external_body]
fn random_index(bound: usize) -> (r: usize)
    requires
        bound > 0,
    ensures
        r < bound,
{
    rand::thread_rng().gen_range(0..bound)
}

} // verus!
