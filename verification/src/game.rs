//! A game of colour whist: four players, the cards on the table, the tricks
//! played so far, and the rules by which cards may be played and tricks won.

use vstd::prelude::*;
use crate::card::Card;
use crate::deck::{Deck, full_deck, lowest_pick};
use crate::fortify::GameState;
use crate::player::Player;
use crate::suit::Suit;

verus! {

/// What a game is, apart from the players' hands.
pub struct GameView {
    /// The tricks played so far, each the cards of one full table.
    pub tricks: Seq<Seq<Card>>,
    /// The cards on the table, in the order they were played.
    pub table: Seq<Card>,
    /// The player who opens the next trick.
    pub turn: nat,
    /// The trump suit.
    pub trump: Suit,
    /// The number of tricks each player has won.
    pub scores: Seq<u32>,
}

/// A game of colour whist.
#[derive(PartialEq, Eq, Hash)]
pub struct Game {
    /// the tricks played so far; one trick is a deck of 4 cards
    tricks: Vec<Deck>,
    /// the cards on the table in the current trick
    table: Deck,
    pub players: [Player; 4],
    turn: usize,
    trump: Suit,
    scores: [u32; 4],
}

impl View for Game {
    type V = GameView;

    closed spec fn view(&self) -> GameView {
        GameView {
            tricks: self.tricks@.map_values(|d: Deck| d@),
            table: self.table@,
            turn: self.turn as nat,
            trump: self.trump,
            scores: self.scores@,
        }
    }
}

/// The hand of player `p`.
pub closed spec fn hand(g: Game, p: int) -> Seq<Card> {
    g.players[p].cards@
}

/// The four hands, one after the other.
pub closed spec fn dealt(g: Game) -> Seq<Card> {
    hand(g, 0) + hand(g, 1) + hand(g, 2) + hand(g, 3)
}

/// Position, among the first `k` cards on the table, of the card that wins:
/// walking through the table, a card takes over when it beats the current best.
pub open spec fn table_winner(table: Seq<Card>, trump: Suit, k: int) -> int
    decreases k,
{
    if k <= 1 {
        0
    } else {
        let best = table_winner(table, trump, k - 1);
        if table[k - 1].beats(table[best], trump) {
            k - 1
        } else {
            best
        }
    }
}

/// Whether the player must follow suit: cards lie on the table and the hand
/// holds a card of the suit that was led.
pub open spec fn must_follow(hand: Seq<Card>, table: Seq<Card>) -> bool {
    table.len() > 0 && exists|i: int| 0 <= i < hand.len() && hand[i].suit == table[0].suit
}

/// The positions, in increasing order, of the cards of suit `suit` among the
/// first `k` cards of `hand`.
pub open spec fn suit_indices(hand: Seq<Card>, suit: Suit, k: int) -> Seq<usize>
    decreases k,
{
    if k <= 0 {
        Seq::empty()
    } else if hand[k - 1].suit == suit {
        suit_indices(hand, suit, k - 1).push((k - 1) as usize)
    } else {
        suit_indices(hand, suit, k - 1)
    }
}

/// The positions of the cards that a player with `hand` may play on `table`:
/// those of the suit that was led if the hand holds any, else all of them.
pub open spec fn allowed(hand: Seq<Card>, table: Seq<Card>) -> Seq<usize> {
    if must_follow(hand, table) {
        suit_indices(hand, table[0].suit, hand.len() as int)
    } else {
        Seq::new(hand.len(), |i: int| i as usize)
    }
}

/// The entries among the first `k` of `idxs` whose card in `hand` beats `best`.
pub open spec fn beating(hand: Seq<Card>, idxs: Seq<usize>, best: Card, trump: Suit, k: int) -> Seq<
    usize,
>
    decreases k,
{
    if k <= 0 {
        Seq::empty()
    } else if hand[idxs[k - 1] as int].beats(best, trump) {
        beating(hand, idxs, best, trump, k - 1).push(idxs[k - 1])
    } else {
        beating(hand, idxs, best, trump, k - 1)
    }
}

/// The entries of `playable` whose card would take the lead on `table`: all
/// of them on an empty table, else those that beat the card now winning.
pub open spec fn better_choices(hand: Seq<Card>, table: Seq<Card>, trump: Suit, playable: Seq<usize>) -> Seq<usize> {
    if table.len() == 0 {
        playable
    } else {
        beating(hand, playable, table[table_winner(table, trump, table.len() as int)], trump, playable.len() as int)
    }
}

/// The card a computer player plays: the lowest (hearts counted as trump) of
/// the allowed cards that would take the lead, or, if none would, the lowest
/// allowed card.
pub open spec fn easy_choice(hand: Seq<Card>, table: Seq<Card>, trump: Suit) -> usize {
    let playable = allowed(hand, table);
    let better = better_choices(hand, table, trump, playable);
    if better.len() > 0 {
        lowest_pick(hand, better, Suit::Hearts, better.len() as int)
    } else {
        lowest_pick(hand, playable, Suit::Hearts, playable.len() as int)
    }
}

/// The card now winning the trick on a non-empty table.
pub open spec fn current_best(table: Seq<Card>, trump: Suit) -> Card {
    table[table_winner(table, trump, table.len() as int)]
}

/// Whether a player with `hand` may play a card that beats the card now
/// winning the trick on `table`.
pub open spec fn can_take_lead(hand: Seq<Card>, table: Seq<Card>, trump: Suit) -> bool {
    exists|i: int|
        0 <= i < hand.len() && #[trigger] allowed(hand, table).contains(i as usize)
            && hand[i].beats(current_best(table, trump), trump)
}

/// The suit named by what a player typed: "H"/"h", "D"/"d", "C"/"c" or
/// "S"/"s"; anything else counts as hearts.
pub open spec fn typed_suit(s: Seq<char>) -> Suit {
    if s == seq!['D'] || s == seq!['d'] {
        Suit::Diamonds
    } else if s == seq!['C'] || s == seq!['c'] {
        Suit::Clubs
    } else if s == seq!['S'] || s == seq!['s'] {
        Suit::Spades
    } else {
        Suit::Hearts
    }
}

impl Game {
    /// The game is well formed: the turn names one of the four players, at
    /// most four cards lie on the table, and every trick holds four cards.
    pub open spec fn wf(self) -> bool {
        &&& self@.turn < 4
        &&& self@.table.len() <= 4
        &&& forall|i: int| 0 <= i < self@.tricks.len() ==> (#[trigger] self@.tricks[i]).len() == 4
    }
}

/// Every card the game holds: the four hands, then the table, then the tricks.
pub closed spec fn cards_in_play(g: Game) -> Seq<Card> {
    dealt(g) + g@.table + g@.tricks.flatten()
}

/// The cards in play, counted part by part.
proof fn lemma_cards_in_play_parts(g: Game)
    ensures
        cards_in_play(g).to_multiset() == hand(g, 0).to_multiset().add(hand(g, 1).to_multiset()).add(
            hand(g, 2).to_multiset(),
        ).add(hand(g, 3).to_multiset()).add(g@.table.to_multiset()).add(
            g@.tricks.flatten().to_multiset(),
        ),
{
    broadcast use vstd::seq_lib::lemma_multiset_commutative;

    assert(cards_in_play(g) == hand(g, 0) + hand(g, 1) + hand(g, 2) + hand(g, 3) + g@.table
        + g@.tricks.flatten());
}



/// Playing a card moves it from the hand to the table: together hand and
/// table hold the same cards before and after.
pub proof fn lemma_play_moves_card(hand: Seq<Card>, table: Seq<Card>, i: int)
    requires
        0 <= i < hand.len(),
    ensures
        (hand.remove(i) + table.push(hand[i])).to_multiset() == (hand + table).to_multiset(),
{
    broadcast use vstd::multiset::group_multiset_axioms;

    vstd::seq_lib::lemma_multiset_commutative(hand.remove(i), table.push(hand[i]));
    vstd::seq_lib::lemma_multiset_commutative(hand, table);
    vstd::seq_lib::to_multiset_build(table, hand[i]);
    vstd::seq_lib::to_multiset_remove(hand, i);
    vstd::seq_lib::to_multiset_contains(hand, hand[i]);
    assert(hand.contains(hand[i]));
    assert((hand.remove(i) + table.push(hand[i])).to_multiset() =~= (hand + table).to_multiset());
}

/// Moving card `i` of player `p`'s hand onto the table keeps the cards in play.
proof fn lemma_play_conserves(before: Game, after: Game, p: int, i: int)
    requires
        0 <= p < 4,
        0 <= i < hand(before, p).len(),
        hand(after, p) == hand(before, p).remove(i),
        forall|q: int| 0 <= q < 4 && q != p ==> #[trigger] hand(after, q) == hand(before, q),
        after@.table == before@.table.push(hand(before, p)[i]),
        after@.tricks == before@.tricks,
    ensures
        cards_in_play(after).to_multiset() == cards_in_play(before).to_multiset(),
{
    broadcast use vstd::multiset::group_multiset_axioms;

    let x = hand(before, p)[i];
    lemma_cards_in_play_parts(before);
    lemma_cards_in_play_parts(after);
    vstd::seq_lib::to_multiset_remove(hand(before, p), i);
    vstd::seq_lib::to_multiset_build(before@.table, x);
    vstd::seq_lib::to_multiset_contains(hand(before, p), x);
    assert(hand(before, p).contains(x));
    assert(hand(after, 0) == hand(before, 0) || p == 0);
    assert(hand(after, 1) == hand(before, 1) || p == 1);
    assert(hand(after, 2) == hand(before, 2) || p == 2);
    assert(hand(after, 3) == hand(before, 3) || p == 3);
    assert(cards_in_play(after).to_multiset() =~= cards_in_play(before).to_multiset());
}

/// Every entry that `beating` keeps is one of the first `k` entries of `idxs`.
proof fn lemma_beating_subset(hand: Seq<Card>, idxs: Seq<usize>, best: Card, trump: Suit, k: int)
    requires
        0 <= k <= idxs.len(),
    ensures
        forall|j: int|
            0 <= j < beating(hand, idxs, best, trump, k).len() ==> exists|m: int|
                0 <= m < k && idxs[m] == #[trigger] beating(hand, idxs, best, trump, k)[j],
    decreases k,
{
    if k > 0 {
        lemma_beating_subset(hand, idxs, best, trump, k - 1);
        let prev = beating(hand, idxs, best, trump, k - 1);
        let cur = beating(hand, idxs, best, trump, k);
        assert forall|j: int| 0 <= j < cur.len() implies exists|m: int|
            0 <= m < k && idxs[m] == #[trigger] cur[j] by {
            if j < prev.len() {
                assert(cur[j] == prev[j]);
                let m = choose|m: int| 0 <= m < k - 1 && idxs[m] == prev[j];
                assert(idxs[m] == cur[j]);
            } else {
                assert(idxs[k - 1] == cur[j]);
            }
        }
    }
}

/// A player holding cards may always play some card.
pub proof fn lemma_allowed_nonempty(hand: Seq<Card>, table: Seq<Card>)
    requires
        hand.len() > 0,
        hand.len() <= usize::MAX,
    ensures
        allowed(hand, table).len() > 0,
{
    if must_follow(hand, table) {
        lemma_suit_indices(hand, table[0].suit, hand.len() as int);
    }
}

/// A computer player always plays a card it is allowed to play: it follows
/// suit whenever it can.
pub proof fn lemma_easy_choice_allowed(hand: Seq<Card>, table: Seq<Card>, trump: Suit)
    requires
        hand.len() > 0,
        hand.len() <= usize::MAX,
    ensures
        allowed(hand, table).contains(easy_choice(hand, table, trump)),
{
    let playable = allowed(hand, table);
    let better = better_choices(hand, table, trump, playable);
    lemma_allowed_nonempty(hand, table);
    if better.len() > 0 {
        crate::deck::lemma_lowest_pick_member(hand, better, Suit::Hearts, better.len() as int);
        let j = choose|j: int|
            0 <= j < better.len() && better[j] == lowest_pick(hand, better, Suit::Hearts, better.len() as int);
        if table.len() == 0 {
            assert(playable[j] == easy_choice(hand, table, trump));
        } else {
            let best = table[table_winner(table, trump, table.len() as int)];
            lemma_beating_subset(hand, playable, best, trump, playable.len() as int);
            assert(better[j] == beating(hand, playable, best, trump, playable.len() as int)[j]);
            let m = choose|m: int| 0 <= m < playable.len() && playable[m] == better[j];
            assert(playable[m] == easy_choice(hand, table, trump));
        }
    } else {
        crate::deck::lemma_lowest_pick_member(hand, playable, Suit::Hearts, playable.len() as int);
    }
}


/// The rule of a trick: the winning card is of the suit that was led or a
/// trump; no card of its suit on the table is stronger; and if it is not a
/// trump, no trump lies on the table (so then it is the strongest card of the
/// led suit).
pub proof fn lemma_trick_winner_rule(table: Seq<Card>, trump: Suit, k: int)
    requires
        1 <= k <= table.len(),
    ensures
        0 <= table_winner(table, trump, k) < k,
        table[table_winner(table, trump, k)].suit == table[0].suit
            || table[table_winner(table, trump, k)].suit == trump,
        forall|j: int|
            0 <= j < k && (#[trigger] table[j]).suit == table[table_winner(table, trump, k)].suit
                ==> table[j].strength() <= table[table_winner(table, trump, k)].strength(),
        table[table_winner(table, trump, k)].suit != trump ==> forall|j: int|
            0 <= j < k ==> (#[trigger] table[j]).suit != trump,
    decreases k,
{
    if k > 1 {
        lemma_trick_winner_rule(table, trump, k - 1);
    }
}

/// Every entry that `beating` keeps holds a card that beats `best`, and it
/// keeps at least one entry whenever one of the first `k` entries does.
pub proof fn lemma_beating_beats(hand: Seq<Card>, idxs: Seq<usize>, best: Card, trump: Suit, k: int)
    requires
        0 <= k <= idxs.len(),
    ensures
        forall|j: int|
            0 <= j < beating(hand, idxs, best, trump, k).len() ==> hand[#[trigger] beating(
                hand,
                idxs,
                best,
                trump,
                k,
            )[j] as int].beats(best, trump),
        (exists|m: int| 0 <= m < k && hand[idxs[m] as int].beats(best, trump)) ==> beating(
            hand,
            idxs,
            best,
            trump,
            k,
        ).len() > 0,
    decreases k,
{
    if k > 0 {
        lemma_beating_beats(hand, idxs, best, trump, k - 1);
        let prev = beating(hand, idxs, best, trump, k - 1);
        let cur = beating(hand, idxs, best, trump, k);
        assert forall|j: int| 0 <= j < cur.len() implies hand[#[trigger] cur[j] as int].beats(
            best,
            trump,
        ) by {
            if j < prev.len() {
                assert(cur[j] == prev[j]);
            }
        }
    }
}

/// A computer player takes the lead when it can: if cards lie on the table
/// and one of its allowed cards beats the card now winning, the card it
/// plays beats that card.
pub proof fn lemma_easy_choice_takes_lead(hand: Seq<Card>, table: Seq<Card>, trump: Suit)
    requires
        hand.len() > 0,
        hand.len() <= usize::MAX,
        table.len() > 0,
        exists|i: int|
            0 <= i < hand.len() && #[trigger] allowed(hand, table).contains(i as usize)
                && hand[i].beats(table[table_winner(table, trump, table.len() as int)], trump),
    ensures
        hand[easy_choice(hand, table, trump) as int].beats(
            table[table_winner(table, trump, table.len() as int)],
            trump,
        ),
{
    let playable = allowed(hand, table);
    let best = table[table_winner(table, trump, table.len() as int)];
    let i = choose|i: int|
        0 <= i < hand.len() && #[trigger] allowed(hand, table).contains(i as usize) && hand[i].beats(
            best,
            trump,
        );
    let m = choose|m: int| 0 <= m < playable.len() && playable[m] == i as usize;
    assert(hand[playable[m] as int].beats(best, trump));
    lemma_beating_beats(hand, playable, best, trump, playable.len() as int);
    let better = better_choices(hand, table, trump, playable);
    crate::deck::lemma_lowest_pick_member(hand, better, Suit::Hearts, better.len() as int);
}



/// The allowed positions all lie inside the hand.
pub proof fn lemma_allowed_in_hand(hand: Seq<Card>, table: Seq<Card>)
    requires
        hand.len() <= usize::MAX,
    ensures
        forall|j: int| 0 <= j < allowed(hand, table).len() ==> #[trigger] allowed(hand, table)[j] < hand.len(),
{
    if must_follow(hand, table) {
        lemma_suit_indices(hand, table[0].suit, hand.len() as int);
    }
}

/// A computer player that cannot take the lead throws a lowest card: if
/// cards lie on the table and none of its allowed cards beats the card now
/// winning, the card it plays beats none of its allowed cards (hearts counted
/// as trump).
pub proof fn lemma_easy_choice_throws_lowest(hand: Seq<Card>, table: Seq<Card>, trump: Suit)
    requires
        hand.len() > 0,
        hand.len() <= usize::MAX,
        table.len() > 0,
        forall|i: int|
            0 <= i < hand.len() && #[trigger] allowed(hand, table).contains(i as usize)
                ==> !hand[i].beats(table[table_winner(table, trump, table.len() as int)], trump),
    ensures
        forall|i: int|
            0 <= i < hand.len() && #[trigger] allowed(hand, table).contains(i as usize)
                ==> !hand[easy_choice(hand, table, trump) as int].beats(hand[i], Suit::Hearts),
{
    lemma_trick_winner_rule(table, trump, table.len() as int);
    let playable = allowed(hand, table);
    let best = table[table_winner(table, trump, table.len() as int)];
    lemma_allowed_nonempty(hand, table);
    lemma_allowed_in_hand(hand, table);
    lemma_beating_beats(hand, playable, best, trump, playable.len() as int);
    let better = better_choices(hand, table, trump, playable);
    if better.len() > 0 {
        lemma_beating_subset(hand, playable, best, trump, playable.len() as int);
        assert(better[0] == beating(hand, playable, best, trump, playable.len() as int)[0]);
        let m = choose|m: int| 0 <= m < playable.len() && playable[m] == better[0];
        let i = playable[m] as int;
        assert(allowed(hand, table).contains(i as usize));
        assert(hand[playable[m] as int].beats(best, trump));
        assert(false);
    }
    crate::deck::lemma_lowest_pick_minimal(hand, playable, Suit::Hearts, playable.len() as int);
    assert forall|i: int|
        0 <= i < hand.len() && #[trigger] allowed(hand, table).contains(i as usize)
            implies !hand[easy_choice(hand, table, trump) as int].beats(hand[i], Suit::Hearts) by {
        let m = choose|m: int| 0 <= m < playable.len() && playable[m] == i as usize;
        assert(hand[playable[m] as int] == hand[i]);
    }
}

/// Each letter names its suit, in upper and in lower case alike.
pub proof fn lemma_typed_suit_letters()
    ensures
        typed_suit(seq!['H']) == Suit::Hearts,
        typed_suit(seq!['h']) == Suit::Hearts,
        typed_suit(seq!['D']) == Suit::Diamonds,
        typed_suit(seq!['d']) == Suit::Diamonds,
        typed_suit(seq!['C']) == Suit::Clubs,
        typed_suit(seq!['c']) == Suit::Clubs,
        typed_suit(seq!['S']) == Suit::Spades,
        typed_suit(seq!['s']) == Suit::Spades,
{
    assert(seq!['H'] != seq!['D'] && seq!['H'] != seq!['d'] && seq!['H'] != seq!['C']
        && seq!['H'] != seq!['c'] && seq!['H'] != seq!['S'] && seq!['H'] != seq!['s']) by {
        assert(seq!['H'][0] == 'H');
    }
    assert(seq!['h'] != seq!['D'] && seq!['h'] != seq!['d'] && seq!['h'] != seq!['C']
        && seq!['h'] != seq!['c'] && seq!['h'] != seq!['S'] && seq!['h'] != seq!['s']) by {
        assert(seq!['h'][0] == 'h');
    }
    assert(seq!['C'] != seq!['D'] && seq!['C'] != seq!['d']) by {
        assert(seq!['C'][0] == 'C');
    }
    assert(seq!['c'] != seq!['D'] && seq!['c'] != seq!['d']) by {
        assert(seq!['c'][0] == 'c');
    }
    assert(seq!['S'] != seq!['D'] && seq!['S'] != seq!['d'] && seq!['S'] != seq!['C']
        && seq!['S'] != seq!['c']) by {
        assert(seq!['S'][0] == 'S');
    }
    assert(seq!['s'] != seq!['D'] && seq!['s'] != seq!['d'] && seq!['s'] != seq!['C']
        && seq!['s'] != seq!['c']) by {
        assert(seq!['s'][0] == 's');
    }
}

impl Game {
    /// A new game: a full deck is shuffled and dealt, thirteen cards to each
    /// of the four players; no tricks are played, the table is empty, player
    /// 0 opens, hearts is trump and every score is zero.
    pub fn new() -> (g: Game)
        ensures
            g.wf(),
            g@.tricks == Seq::<Seq<Card>>::empty(),
            g@.table == Seq::<Card>::empty(),
            g@.turn == 0,
            g@.trump == Suit::Hearts,
            g@.scores == seq![0u32, 0u32, 0u32, 0u32],
            forall|p: int| 0 <= p < 4 ==> #[trigger] hand(g, p).len() == 13,
            dealt(g).to_multiset() == full_deck().to_multiset(),
            cards_in_play(g).to_multiset() == full_deck().to_multiset(),
    {
        let mut deck = Deck::new_full();
        deck.shuffle();
        let ghost d0 = deck@;
        proof {
            crate::deck::lemma_full_deck_complete();
            vstd::seq_lib::to_multiset_len(d0);
            vstd::seq_lib::to_multiset_len(full_deck());
        }
        let tricks: Vec<Deck> = Vec::new();
        let table: Deck = Deck::new_empty();
        let player_one = Player::new_take_cards(&mut deck, 13);
        let player_two = Player::new_take_cards(&mut deck, 13);
        let player_three = Player::new_take_cards(&mut deck, 13);
        let player_four = Player::new_take_cards(&mut deck, 13);
        let players = [player_one, player_two, player_three, player_four];
        let scores: [u32; 4] = [0, 0, 0, 0];
        let g = Game { tricks, table, players, turn: 0, trump: Suit::Hearts, scores };
        proof {
            assert(dealt(g) =~= d0);
            assert(g@.tricks =~= Seq::<Seq<Card>>::empty());
            assert(cards_in_play(g) =~= d0);
            assert(g@.scores =~= seq![0u32, 0u32, 0u32, 0u32]);
        }
        g
    }

    /// Deals a new round: a freshly shuffled full deck, thirteen cards to
    /// each player; the rest of the game is unchanged.
    pub fn new_round(&mut self)
        ensures
            final(self)@ == old(self)@,
            forall|p: int| 0 <= p < 4 ==> #[trigger] hand(*final(self), p).len() == 13,
            dealt(*final(self)).to_multiset() == full_deck().to_multiset(),
    {
        let mut deck = Deck::new_full();
        deck.shuffle();
        let ghost d0 = deck@;
        proof {
            crate::deck::lemma_full_deck_complete();
            vstd::seq_lib::to_multiset_len(d0);
            vstd::seq_lib::to_multiset_len(full_deck());
        }
        let cards = deck.pull_cards(13);
        self.players[0] = Player { cards };
        let cards = deck.pull_cards(13);
        self.players[1] = Player { cards };
        let cards = deck.pull_cards(13);
        self.players[2] = Player { cards };
        let cards = deck.pull_cards(13);
        self.players[3] = Player { cards };
        proof {
            assert(dealt(*self) =~= d0);
        }
    }

    /// Moves the four cards on the table into a new trick. Fails, changing
    /// nothing, unless exactly four cards lie on the table.
    pub fn trick(&mut self) -> (r: Result<(), String>)
        ensures
            r is Ok <==> old(self)@.table.len() == 4,
            forall|p: int| 0 <= p < 4 ==> #[trigger] hand(*final(self), p) == hand(*old(self), p),
            r is Ok ==> final(self)@ == (GameView {
                tricks: old(self)@.tricks.push(old(self)@.table),
                table: Seq::empty(),
                ..old(self)@
            }),
            r is Err ==> final(self)@ == old(self)@,
            r matches Err(e) ==> e@ == "There are not exactly four cards on the table."@,
            old(self).wf() ==> final(self).wf(),
            cards_in_play(*final(self)).to_multiset() == cards_in_play(*old(self)).to_multiset(),
    {
        if self.table.size() == 4 {
            let new_trick = self.table.pull_cards(4);
            self.tricks.push(new_trick);
            proof {
                assert(new_trick@ =~= old(self)@.table);
                assert(self.table@ =~= Seq::<Card>::empty());
                assert(self@.tricks =~= old(self)@.tricks.push(old(self)@.table));
                old(self)@.tricks.lemma_flatten_push(old(self)@.table);
                assert(dealt(*self) == dealt(*old(self)));
                lemma_cards_in_play_parts(*self);
                lemma_cards_in_play_parts(*old(self));
                vstd::seq_lib::lemma_multiset_commutative(
                    old(self)@.tricks.flatten(),
                    old(self)@.table,
                );
                broadcast use {vstd::multiset::group_multiset_axioms, vstd::seq_lib::group_to_multiset_ensures};
                assert(hand(*self, 0) == hand(*old(self), 0));
                assert(hand(*self, 1) == hand(*old(self), 1));
                assert(hand(*self, 2) == hand(*old(self), 2));
                assert(hand(*self, 3) == hand(*old(self), 3));
                assert(self@.table.to_multiset() =~= vstd::multiset::Multiset::<Card>::empty());
                assert(cards_in_play(*self).to_multiset() =~= cards_in_play(*old(self)).to_multiset());
            }
            Ok(())
        } else {
            Err("There are not exactly four cards on the table.".to_owned())
        }
    }

    /// Puts the card on the table, consuming it. Fails, changing nothing, when
    /// four cards lie there already.
    fn play(&mut self, card: Card) -> (r: Result<(), String>)
        ensures
            r is Ok <==> old(self)@.table.len() < 4,
            forall|p: int| 0 <= p < 4 ==> #[trigger] hand(*final(self), p) == hand(*old(self), p),
            r is Ok ==> final(self)@ == (GameView { table: old(self)@.table.push(card), ..old(self)@ }),
            r is Err ==> final(self)@ == old(self)@,
            r matches Err(e) ==> e@
                == "There are already four cards on the table. Can't play any more."@,
    {
        if self.table.size() < 4 {
            self.table.add(card);
            proof {
                assert(self@.tricks =~= old(self)@.tricks);
            }
            Ok(())
        } else {
            Err("There are already four cards on the table. Can't play any more.".to_owned())
        }
    }

    /// Player `player` plays its card at position `card`: the card leaves the
    /// hand and goes on the table.
    pub fn play_card(&mut self, player: usize, card: usize)
        requires
            player < 4,
            card < hand(*old(self), player as int).len(),
            old(self)@.table.len() < 4,
        ensures
            hand(*final(self), player as int) == hand(*old(self), player as int).remove(card as int),
            forall|p: int| 0 <= p < 4 && p != player ==> #[trigger] hand(*final(self), p) == hand(*old(self), p),
            final(self)@ == (GameView {
                table: old(self)@.table.push(hand(*old(self), player as int)[card as int]),
                ..old(self)@
            }),
            old(self).wf() ==> final(self).wf(),
            cards_in_play(*final(self)).to_multiset() == cards_in_play(*old(self)).to_multiset(),
    {
        let played = self.players[player].cards.remove(card);
        let r = self.play(played);
        assert(r is Ok);
        proof {
            lemma_play_conserves(*old(self), *self, player as int, card as int);
        }
    }
}


impl Game {
    /// Position on the table of the card that currently wins the trick.
    /// No card on the table beats it.
    pub fn winner(&self) -> (r: usize)
        requires
            self@.table.len() > 0,
        ensures
            r < self@.table.len(),
            r == table_winner(self@.table, self@.trump, self@.table.len() as int),
            forall|j: int|
                0 <= j < self@.table.len() ==> !(#[trigger] self@.table[j]).beats(
                    self@.table[r as int],
                    self@.trump,
                ),
            self@.table[r as int].suit == self@.table[0].suit || self@.table[r as int].suit
                == self@.trump,
            forall|j: int|
                0 <= j < self@.table.len() && (#[trigger] self@.table[j]).suit
                    == self@.table[r as int].suit ==> self@.table[j].strength()
                    <= self@.table[r as int].strength(),
            self@.table[r as int].suit != self@.trump ==> forall|j: int|
                0 <= j < self@.table.len() ==> (#[trigger] self@.table[j]).suit != self@.trump,
    {
        proof {
            lemma_trick_winner_rule(self@.table, self@.trump, self@.table.len() as int);
        }
        let mut best_card = self.table.card(0);
        let mut winner: usize = 0;
        let mut i: usize = 1;
        proof {
            crate::card::lemma_beats_irreflexive(*best_card, self.trump);
        }
        while i < self.table.size()
            invariant
                1 <= i <= self@.table.len(),
                winner < i,
                *best_card == self@.table[winner as int],
                winner == table_winner(self@.table, self@.trump, i as int),
                forall|j: int|
                    0 <= j < i ==> !(#[trigger] self@.table[j]).beats(*best_card, self@.trump),
            decreases self@.table.len() - i,
        {
            let new_card = self.table.card(i);
            if new_card.better(best_card, &self.trump) {
                proof {
                    assert forall|j: int| 0 <= j <= i implies !(#[trigger] self@.table[j]).beats(
                        *new_card,
                        self@.trump,
                    ) by {
                        if j < i && self@.table[j].beats(*new_card, self@.trump) {
                            crate::card::lemma_beats_transitive(
                                self@.table[j],
                                *new_card,
                                *best_card,
                                self@.trump,
                            );
                        }
                        crate::card::lemma_beats_irreflexive(*new_card, self@.trump);
                    }
                }
                best_card = new_card;
                winner = i;
            }
            i += 1;
        }
        winner
    }

    /// The positions of the cards that player `player` may play now: if cards
    /// lie on the table and the player holds the suit that was led, only the
    /// cards of that suit; otherwise every card.
    pub fn alowed_cards(&self, player: usize) -> (r: Vec<usize>)
        requires
            player < 4,
        ensures
            r@ == allowed(hand(*self, player as int), self@.table),
            forall|j: int| 0 <= j < r@.len() ==> #[trigger] r@[j] < hand(*self, player as int).len(),
            forall|i: int|
                0 <= i < hand(*self, player as int).len() ==> (#[trigger] r@.contains(i as usize) <==> (
                must_follow(hand(*self, player as int), self@.table) ==> hand(
                    *self,
                    player as int,
                )[i].suit == self@.table[0].suit)),
            r@.len() > 0 <==> hand(*self, player as int).len() > 0,
    {
        let ghost h = hand(*self, player as int);
        let ghost t = self@.table;
        let mut result: Vec<usize> = Vec::new();
        let player = &self.players[player];
        if self.table.size() != 0 {
            let first_suit = self.table.card(0).suit;
            if player.cards.has_suit(&first_suit) {
                let mut i: usize = 0;
                while i < player.cards.size()
                    invariant
                        i <= h.len(),
                        h == player.cards@,
                        must_follow(h, t),
                        first_suit == t[0].suit,
                        result@ == suit_indices(h, first_suit, i as int),
                    decreases h.len() - i,
                {
                    if player.cards.suit_at(i) == first_suit {
                        result.push(i);
                    }
                    i += 1;
                }
                proof {
                    lemma_suit_indices(h, first_suit, h.len() as int);
                }
                return result;
            }
        }
        let mut i: usize = 0;
        while i < player.cards.size()
            invariant
                i <= h.len(),
                h == player.cards@,
                !must_follow(h, t),
                result@ == Seq::new(i as nat, |k: int| k as usize),
            decreases h.len() - i,
        {
            result.push(i);
            proof {
                assert(result@ =~= Seq::new((i + 1) as nat, |k: int| k as usize));
            }
            i += 1;
        }
        proof {
            assert forall|i: int| 0 <= i < h.len() implies #[trigger] result@.contains(i as usize) by {
                assert(result@[i] == i as usize);
            }
        }
        result
    }
}

/// The positions of the cards of a suit are exactly the positions below `k`
/// that hold that suit, and they lie below `k`.
pub proof fn lemma_suit_indices(hand: Seq<Card>, suit: Suit, k: int)
    requires
        0 <= k <= hand.len(),
        hand.len() <= usize::MAX,
    ensures
        forall|j: int| 0 <= j < suit_indices(hand, suit, k).len() ==> #[trigger] suit_indices(hand, suit, k)[j] < k,
        forall|i: int|
            0 <= i < k ==> (#[trigger] suit_indices(hand, suit, k).contains(i as usize) <==> hand[i].suit == suit),
        suit_indices(hand, suit, k).len() > 0 <==> exists|i: int| 0 <= i < k && hand[i].suit == suit,
    decreases k,
{
    if k > 0 {
        lemma_suit_indices(hand, suit, k - 1);
        let prev = suit_indices(hand, suit, k - 1);
        let cur = suit_indices(hand, suit, k);
        assert forall|i: int| 0 <= i < k implies (#[trigger] cur.contains(i as usize) <==> hand[i].suit == suit) by {
            if hand[k - 1].suit == suit {
                assert(cur == prev.push((k - 1) as usize));
                if i == k - 1 {
                    assert(cur[prev.len() as int] == i as usize);
                } else if prev.contains(i as usize) {
                    let j = choose|j: int| 0 <= j < prev.len() && prev[j] == i as usize;
                    assert(cur[j] == i as usize);
                } else if cur.contains(i as usize) {
                    let j = choose|j: int| 0 <= j < cur.len() && cur[j] == i as usize;
                    if j < prev.len() {
                        assert(prev[j] == i as usize);
                    }
                }
            } else {
                if i == k - 1 && cur.contains(i as usize) {
                    let j = choose|j: int| 0 <= j < cur.len() && cur[j] == i as usize;
                    assert(prev[j] < k - 1);
                }
            }
        }
        if hand[k - 1].suit == suit {
            assert(cur[prev.len() as int] == (k - 1) as usize);
        }
    }
}


impl Game {
    /// Of the positions in `playable`, those whose card would take the lead:
    /// all of them on an empty table, else those whose card beats the card
    /// now winning the trick.
    fn my_better_cards(&self, player: usize, playable: &[usize]) -> (r: Vec<usize>)
        requires
            player < 4,
            forall|j: int| 0 <= j < playable@.len() ==> playable@[j] < hand(*self, player as int).len(),
        ensures
            r@ == better_choices(hand(*self, player as int), self@.table, self@.trump, playable@),
            forall|j: int| 0 <= j < r@.len() ==> #[trigger] r@[j] < hand(*self, player as int).len(),
            self@.table.len() > 0 ==> forall|j: int|
                0 <= j < r@.len() ==> hand(*self, player as int)[#[trigger] r@[j] as int].beats(
                    self@.table[table_winner(self@.table, self@.trump, self@.table.len() as int)],
                    self@.trump,
                ),
    {
        let ghost h = hand(*self, player as int);
        let mut result: Vec<usize> = Vec::new();
        if self.table.size() == 0 {
            let mut i: usize = 0;
            while i < playable.len()
                invariant
                    i <= playable@.len(),
                    result@ == playable@.take(i as int),
                decreases playable@.len() - i,
            {
                result.push(playable[i]);
                proof {
                    assert(result@ =~= playable@.take(i + 1));
                }
                i += 1;
            }
            proof {
                assert(playable@.take(i as int) =~= playable@);
            }
            return result;
        }
        let player = &self.players[player];
        let best_on_table = self.winner();
        let best_on_table = self.table.card(best_on_table);
        let mut i: usize = 0;
        while i < playable.len()
            invariant
                i <= playable@.len(),
                h == player.cards@,
                forall|j: int| 0 <= j < playable@.len() ==> playable@[j] < h.len(),
                result@ == beating(h, playable@, *best_on_table, self@.trump, i as int),
                forall|j: int| 0 <= j < result@.len() ==> #[trigger] result@[j] < h.len(),
            decreases playable@.len() - i,
        {
            if player.cards.card(playable[i]).better(best_on_table, &self.trump) {
                result.push(playable[i]);
            }
            i += 1;
        }
        proof {
            lemma_beating_beats(h, playable@, *best_on_table, self@.trump, playable@.len() as int);
        }
        result
    }

    /// A computer player's move: of the allowed cards it plays the lowest
    /// (counting hearts as trump) that would take the lead, or, if none
    /// would, the lowest allowed card.
    pub fn play_easy(&mut self, player: usize)
        requires
            player < 4,
            old(self)@.table.len() < 4,
            hand(*old(self), player as int).len() > 0,
        ensures
            easy_choice(hand(*old(self), player as int), old(self)@.table, old(self)@.trump)
                < hand(*old(self), player as int).len(),
            allowed(hand(*old(self), player as int), old(self)@.table).contains(
                easy_choice(hand(*old(self), player as int), old(self)@.table, old(self)@.trump),
            ),
            hand(*final(self), player as int) == hand(*old(self), player as int).remove(
                easy_choice(hand(*old(self), player as int), old(self)@.table, old(self)@.trump) as int,
            ),
            forall|p: int| 0 <= p < 4 && p != player ==> #[trigger] hand(*final(self), p) == hand(*old(self), p),
            final(self)@ == (GameView {
                table: old(self)@.table.push(
                    hand(*old(self), player as int)[easy_choice(
                        hand(*old(self), player as int),
                        old(self)@.table,
                        old(self)@.trump,
                    ) as int],
                ),
                ..old(self)@
            }),
            old(self).wf() ==> final(self).wf(),
            cards_in_play(*final(self)).to_multiset() == cards_in_play(*old(self)).to_multiset(),
            old(self)@.table.len() > 0 && can_take_lead(
                hand(*old(self), player as int),
                old(self)@.table,
                old(self)@.trump,
            ) ==> final(self)@.table.last().beats(
                current_best(old(self)@.table, old(self)@.trump),
                old(self)@.trump,
            ),
            old(self)@.table.len() > 0 && !can_take_lead(
                hand(*old(self), player as int),
                old(self)@.table,
                old(self)@.trump,
            ) ==> forall|i: int|
                0 <= i < hand(*old(self), player as int).len() && #[trigger] allowed(
                    hand(*old(self), player as int),
                    old(self)@.table,
                ).contains(i as usize) ==> !final(self)@.table.last().beats(
                    hand(*old(self), player as int)[i],
                    Suit::Hearts,
                ),
    {
        let playable = self.alowed_cards(player);
        let hand_size = self.players[player].cards.size();
        proof {
            assert(hand(*self, player as int).len() == hand_size);
            lemma_easy_choice_allowed(hand(*self, player as int), self@.table, self@.trump);
            if self@.table.len() > 0 {
                if can_take_lead(hand(*self, player as int), self@.table, self@.trump) {
                    lemma_easy_choice_takes_lead(hand(*self, player as int), self@.table, self@.trump);
                } else {
                    lemma_easy_choice_throws_lowest(
                        hand(*self, player as int),
                        self@.table,
                        self@.trump,
                    );
                }
            }
        }
        let better_cards = self.my_better_cards(player, playable.as_slice());
        if better_cards.len() > 0 {
            let idx = self.players[player].cards.lowest(&better_cards, &Suit::Hearts);
            self.play_card(player, idx);
            return;
        }
        let idx = self.players[player].cards.lowest(&playable, &Suit::Hearts);
        self.play_card(player, idx);
    }

    /// The position in player `player`'s hand of the card a person chose, if
    /// that card is in the hand and may be played now (its first occurrence
    /// is what counts).
    pub fn choose_card(&self, player: usize, card: &Card) -> (r: Option<usize>)
        requires
            player < 4,
        ensures
            match r {
                Some(i) => {
                    &&& i < hand(*self, player as int).len()
                    &&& hand(*self, player as int)[i as int] == *card
                    &&& forall|j: int| 0 <= j < i ==> hand(*self, player as int)[j] != *card
                    &&& allowed(hand(*self, player as int), self@.table).contains(i)
                },
                None => forall|i: int|
                    0 <= i < hand(*self, player as int).len() && hand(*self, player as int)[i] == *card
                        && (forall|j: int| 0 <= j < i ==> hand(*self, player as int)[j] != *card)
                        ==> !allowed(hand(*self, player as int), self@.table).contains(i as usize),
            },
    {
        let playable = self.alowed_cards(player);
        if let Some(i) = self.players[player].cards.index_of(card) {
            if contains_index(&playable, i) {
                return Some(i);
            }
        }
        None
    }

    /// Ends a round of four cards: the player who played the winning card
    /// opens the next trick and scores it, and the cards become a trick.
    pub fn finish_round(&mut self)
        requires
            old(self).wf(),
            old(self)@.table.len() == 4,
            old(self)@.scores[(table_winner(old(self)@.table, old(self)@.trump, 4) + old(self)@.turn)
                % 4] < u32::MAX,
        ensures
            final(self).wf(),
            final(self)@.turn == (table_winner(old(self)@.table, old(self)@.trump, 4) + old(self)@.turn)
                % 4,
            final(self)@.scores == old(self)@.scores.update(
                final(self)@.turn as int,
                (old(self)@.scores[final(self)@.turn as int] + 1) as u32,
            ),
            final(self)@.tricks == old(self)@.tricks.push(old(self)@.table),
            final(self)@.table == Seq::<Card>::empty(),
            final(self)@.trump == old(self)@.trump,
            forall|p: int| 0 <= p < 4 ==> #[trigger] hand(*final(self), p) == hand(*old(self), p),
            cards_in_play(*final(self)).to_multiset() == cards_in_play(*old(self)).to_multiset(),
    {
        self.turn = (self.winner() + self.turn) % 4;
        let t = self.turn;
        self.scores[t] = self.scores[t] + 1;
        proof {
            assert(cards_in_play(*self) == cards_in_play(*old(self)));
        }
        let r = self.trick();
        assert(r is Ok);
    }

    /// The player who opens the next trick.
    pub fn turn(&self) -> (r: usize)
        ensures
            r == self@.turn,
    {
        self.turn
    }

    /// The trump suit.
    pub fn trump(&self) -> (r: Suit)
        ensures
            r == self@.trump,
    {
        self.trump
    }

    /// The number of tricks each player has won.
    pub fn scores(&self) -> (r: [u32; 4])
        ensures
            r@ == self@.scores,
    {
        self.scores
    }

    /// The cards on the table.
    pub fn table(&self) -> (r: &Deck)
        ensures
            r@ == self@.table,
    {
        &self.table
    }

    /// The trick played last, if any.
    pub fn last_trick(&self) -> (r: Option<&Deck>)
        ensures
            match r {
                Some(d) => self@.tricks.len() > 0 && d@ == self@.tricks.last(),
                None => self@.tricks.len() == 0,
            },
    {
        let n = self.tricks.len();
        if n == 0 {
            None
        } else {
            Some(&self.tricks[n - 1])
        }
    }

    /// The reward of the learning agent, which plays as player 0: its score.
    pub fn reward(&self) -> (r: u32)
        ensures
            r == self@.scores[0],
    {
        self.scores[0]
    }

    /// The state of the game as the learning agent observes it.
    pub fn state(&self) -> (r: GameState)
        ensures
            r == (GameState {}),
    {
        GameState::new()
    }
}

impl Default for Game {
    fn default() -> (g: Self)
        ensures
            g.wf(),
            g@.tricks == Seq::<Seq<Card>>::empty(),
            g@.table == Seq::<Card>::empty(),
            g@.turn == 0,
            g@.trump == Suit::Hearts,
            g@.scores == seq![0u32, 0u32, 0u32, 0u32],
            forall|p: int| 0 <= p < 4 ==> #[trigger] hand(g, p).len() == 13,
            dealt(g).to_multiset() == full_deck().to_multiset(),
            cards_in_play(g).to_multiset() == full_deck().to_multiset(),
    {
        Self::new()
    }
}

/// Whether `v` holds `x`.
fn contains_index(v: &Vec<usize>, x: usize) -> (r: bool)
    ensures
        r == v@.contains(x),
{
    let mut i: usize = 0;
    while i < v.len()
        invariant
            i <= v@.len(),
            forall|j: int| 0 <= j < i ==> v@[j] != x,
        decreases v@.len() - i,
    {
        if v[i] == x {
            return true;
        }
        i += 1;
    }
    false
}

/// The suit that a person typed: "H"/"h", "D"/"d", "C"/"c" or "S"/"s";
/// anything else counts as hearts.
pub fn parse_suit(token: &str) -> (r: Suit)
    ensures
        r == typed_suit(token@),
        token@ == seq!['H'] || token@ == seq!['h'] ==> r == Suit::Hearts,
        token@ == seq!['D'] || token@ == seq!['d'] ==> r == Suit::Diamonds,
        token@ == seq!['C'] || token@ == seq!['c'] ==> r == Suit::Clubs,
        token@ == seq!['S'] || token@ == seq!['s'] ==> r == Suit::Spades,
{
    broadcast use {vstd::string::axiom_spec_iter, vstd::string::next_postcondition};

    proof {
        lemma_typed_suit_letters();
    }
    let mut chars = token.chars();
    let first = chars.next();
    let second = chars.next();
    match (first, second) {
        (Some(c), None) => {
            assert(token@ =~= seq![c]);
            match c {
                'D' | 'd' => Suit::Diamonds,
                'C' | 'c' => Suit::Clubs,
                'S' | 's' => Suit::Spades,
                _ => Suit::Hearts,
            }
        },
        _ => {
            assert(token@.len() != 1);
            Suit::Hearts
        },
    }
}

} // verus!
