use whister::card::Card;
use whister::deck::Deck;
use whister::suit::Suit;

fn c(suit: Suit, number: u8) -> Card {
    Card { suit, number }
}

fn cards_of(d: &Deck) -> Vec<Card> {
    (0..d.size()).map(|i| *d.card(i)).collect()
}

#[test]
fn full_deck_order() {
    let d = Deck::new_full();
    assert_eq!(d.size(), 52);
    assert_eq!(*d.card(0), c(Suit::Hearts, 1));
    assert_eq!(*d.card(12), c(Suit::Hearts, 13));
    assert_eq!(*d.card(13), c(Suit::Clubs, 1));
    assert_eq!(*d.card(26), c(Suit::Diamonds, 1));
    assert_eq!(*d.card(51), c(Suit::Spades, 13));
}

#[test]
fn full_deck_holds_every_card_once() {
    let d = Deck::new_full();
    for suit in Suit::all() {
        for n in 1..14u8 {
            let card = c(suit, n);
            assert!(d.contains(&card));
            let i = d.index_of(&card).unwrap();
            assert_eq!(*d.card(i), card);
            assert_eq!(cards_of(&d).iter().filter(|x| **x == card).count(), 1);
        }
    }
    assert!(!d.contains(&c(Suit::Hearts, 14)));
    assert_eq!(d.index_of(&c(Suit::Hearts, 0)), None);
}

#[test]
fn empty_deck() {
    let d = Deck::new_empty();
    assert_eq!(d.size(), 0);
    for suit in Suit::all() {
        assert!(!d.has_suit(&suit));
    }
}

#[test]
fn pull_cards_takes_front_in_order() {
    let mut d = Deck::new_full();
    let pulled = d.pull_cards(13);
    assert_eq!(pulled.size(), 13);
    assert_eq!(d.size(), 39);
    assert_eq!(*pulled.card(0), c(Suit::Hearts, 1));
    assert_eq!(*pulled.card(12), c(Suit::Hearts, 13));
    assert_eq!(*d.card(0), c(Suit::Clubs, 1));
    let none = d.pull_cards(0);
    assert_eq!(none.size(), 0);
    assert_eq!(d.size(), 39);
}

#[test]
fn remove_and_add() {
    let mut d = Deck::new_from(vec![c(Suit::Clubs, 2), c(Suit::Hearts, 5), c(Suit::Spades, 9)]);
    let removed = d.remove(1);
    assert_eq!(removed, c(Suit::Hearts, 5));
    assert_eq!(cards_of(&d), vec![c(Suit::Clubs, 2), c(Suit::Spades, 9)]);
    d.add(removed);
    assert_eq!(cards_of(&d), vec![c(Suit::Clubs, 2), c(Suit::Spades, 9), c(Suit::Hearts, 5)]);
    assert_eq!(d.suit_at(2), Suit::Hearts);
}

#[test]
fn sort_by_suit_then_number() {
    let mut d = Deck::new_from(vec![
        c(Suit::Hearts, 3),
        c(Suit::Spades, 12),
        c(Suit::Clubs, 1),
        c(Suit::Hearts, 1),
        c(Suit::Diamonds, 7),
        c(Suit::Spades, 2),
    ]);
    d.sort();
    assert_eq!(
        cards_of(&d),
        vec![
            c(Suit::Spades, 2),
            c(Suit::Spades, 12),
            c(Suit::Clubs, 1),
            c(Suit::Diamonds, 7),
            c(Suit::Hearts, 1),
            c(Suit::Hearts, 3),
        ]
    );
}

#[test]
fn shuffle_keeps_the_cards_and_changes_the_order() {
    let mut d = Deck::new_full();
    d.shuffle();
    assert_eq!(d.size(), 52);
    // a full deck staying in its fresh order has probability 1/52!
    assert_ne!(cards_of(&d), cards_of(&Deck::new_full()));
    d.sort();
    let mut fresh = Deck::new_full();
    fresh.sort();
    assert_eq!(cards_of(&d), cards_of(&fresh));
}

#[test]
fn deck_of_suit_on_sorted_deck() {
    let mut d = Deck::new_full();
    d.sort();
    for suit in Suit::all() {
        let part = d.get_deck_of_suit(&suit);
        assert_eq!(part.size(), 13);
        for i in 0..13 {
            assert_eq!(*part.card(i), c(suit, (i + 1) as u8));
        }
    }
}

#[test]
fn deck_of_suit_takes_block_even_when_unsorted() {
    // three clubs, one heart: the clubs block starts after the (zero) spades
    let d = Deck::new_from(vec![
        c(Suit::Hearts, 4),
        c(Suit::Clubs, 2),
        c(Suit::Clubs, 3),
        c(Suit::Clubs, 9),
    ]);
    let clubs = d.get_deck_of_suit(&Suit::Clubs);
    assert_eq!(cards_of(&clubs), vec![c(Suit::Hearts, 4), c(Suit::Clubs, 2), c(Suit::Clubs, 3)]);
    let hearts = d.get_deck_of_suit(&Suit::Hearts);
    assert_eq!(cards_of(&hearts), vec![c(Suit::Clubs, 9)]);
    assert_eq!(d.get_deck_of_suit(&Suit::Spades).size(), 0);
}

#[test]
fn has_suit_regardless_of_order() {
    let d = Deck::new_from(vec![c(Suit::Hearts, 4), c(Suit::Clubs, 2)]);
    assert!(d.has_suit(&Suit::Hearts));
    assert!(d.has_suit(&Suit::Clubs));
    assert!(!d.has_suit(&Suit::Spades));
    assert!(!d.has_suit(&Suit::Diamonds));
}

#[test]
fn suit_amounts_counts_every_suit() {
    let d = Deck::new_from(vec![c(Suit::Hearts, 4), c(Suit::Clubs, 2), c(Suit::Hearts, 9)]);
    let m = d.suit_amounts();
    assert_eq!(m.len(), 4);
    assert_eq!(m[&Suit::Hearts.index()], 2);
    assert_eq!(m[&Suit::Clubs.index()], 1);
    assert_eq!(m[&Suit::Spades.index()], 0);
    assert_eq!(m[&Suit::Diamonds.index()], 0);
}

#[test]
fn best_suit_score_picks_highest_total() {
    let mut d = Deck::new_from(vec![
        c(Suit::Spades, 1),
        c(Suit::Spades, 13),
        c(Suit::Hearts, 10),
        c(Suit::Clubs, 12),
    ]);
    d.sort();
    assert_eq!(d.best_suit_score(), (Suit::Spades, 27));
}

#[test]
fn best_suit_score_ties_go_to_earlier_suit() {
    let mut d = Deck::new_from(vec![c(Suit::Spades, 5), c(Suit::Diamonds, 5)]);
    d.sort();
    assert_eq!(d.best_suit_score(), (Suit::Diamonds, 5));
    assert_eq!(Deck::new_empty().best_suit_score(), (Suit::Hearts, 0));
}

#[test]
fn lowest_and_highest() {
    let d = Deck::new_from(vec![
        c(Suit::Clubs, 10),
        c(Suit::Clubs, 3),
        c(Suit::Hearts, 2),
        c(Suit::Clubs, 1),
    ]);
    let all = vec![0, 1, 2, 3];
    assert_eq!(d.lowest(&all, &Suit::Hearts), 1);
    assert_eq!(d.highest(&all, &Suit::Hearts), 2);
    let clubs = vec![0, 1, 3];
    assert_eq!(d.lowest(&clubs, &Suit::Hearts), 1);
    assert_eq!(d.highest(&clubs, &Suit::Hearts), 3);
    assert_eq!(d.lowest(&vec![2], &Suit::Hearts), 2);
}

#[test]
fn peek_returns_a_card_of_the_deck() {
    let d = Deck::new_full();
    let mut seen = std::collections::HashSet::new();
    for _ in 0..200 {
        let card = *d.peek();
        assert!(d.contains(&card));
        seen.insert(card);
    }
    // 200 draws of one and the same card out of 52 has probability 52^-199
    assert!(seen.len() > 1);
}

#[test]
fn pulled_and_left_make_the_deck() {
    let mut d = Deck::new_full();
    d.shuffle();
    let before = cards_of(&d);
    let pulled = d.pull_cards(20);
    let mut joined = cards_of(&pulled);
    joined.extend(cards_of(&d));
    assert_eq!(joined, before);
}

#[test]
fn remove_then_add_keeps_the_cards() {
    let mut d = Deck::new_full();
    let card = d.remove(17);
    assert!(!d.contains(&card));
    d.add(card);
    assert_eq!(d.size(), 52);
    d.sort();
    let mut fresh = Deck::new_full();
    fresh.sort();
    assert_eq!(cards_of(&d), cards_of(&fresh));
}
