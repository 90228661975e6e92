use whister::card::Card;
use whister::deck::Deck;
use whister::fortify::{Action, GameState};
use whister::game::{parse_suit, Game};
use whister::suit::Suit;

fn c(suit: Suit, number: u8) -> Card {
    Card { suit, number }
}

fn cards_of(d: &Deck) -> Vec<Card> {
    (0..d.size()).map(|i| *d.card(i)).collect()
}

#[test]
fn new_game_deals_the_whole_pack() {
    let g = Game::new();
    let mut all = Deck::new_empty();
    for p in 0..4 {
        assert_eq!(g.players[p].cards.size(), 13);
        for i in 0..13 {
            all.add(*g.players[p].cards.card(i));
        }
    }
    all.sort();
    let mut fresh = Deck::new_full();
    fresh.sort();
    assert_eq!(cards_of(&all), cards_of(&fresh));
    assert_eq!(g.table().size(), 0);
    assert_eq!(g.turn(), 0);
    assert_eq!(g.trump(), Suit::Hearts);
    assert_eq!(g.scores(), [0, 0, 0, 0]);
    assert!(g.last_trick().is_none());
    assert_eq!(g.reward(), 0);
    assert_eq!(g.state(), GameState::new());
}

#[test]
fn default_game_is_a_new_game() {
    let g = Game::default();
    for p in 0..4 {
        assert_eq!(g.players[p].cards.size(), 13);
    }
    assert_eq!(g.scores(), [0, 0, 0, 0]);
}

#[test]
fn new_round_deals_again() {
    let mut g = Game::new();
    g.play_card(0, 0);
    g.new_round();
    for p in 0..4 {
        assert_eq!(g.players[p].cards.size(), 13);
    }
    assert_eq!(g.table().size(), 1);
}

#[test]
fn trick_needs_four_cards() {
    let mut g = Game::new();
    assert_eq!(
        g.trick(),
        Err("There are not exactly four cards on the table.".to_string())
    );
    for p in 0..4 {
        g.play_card(p, 0);
    }
    assert_eq!(g.trick(), Ok(()));
    assert_eq!(g.table().size(), 0);
    assert_eq!(g.last_trick().unwrap().size(), 4);
}

#[test]
fn play_card_moves_card_to_table() {
    let mut g = Game::new();
    let card = *g.players[2].cards.card(5);
    g.play_card(2, 5);
    assert_eq!(g.players[2].cards.size(), 12);
    assert!(!g.players[2].cards.contains(&card));
    assert_eq!(*g.table().card(0), card);
}

fn fixed_game() -> Game {
    let mut g = Game::new();
    g.players[0].cards = Deck::new_from(vec![c(Suit::Clubs, 5), c(Suit::Spades, 9), c(Suit::Clubs, 12)]);
    g.players[1].cards = Deck::new_from(vec![c(Suit::Diamonds, 4), c(Suit::Hearts, 2)]);
    g.players[2].cards = Deck::new_from(vec![c(Suit::Clubs, 1), c(Suit::Clubs, 7)]);
    g.players[3].cards = Deck::new_from(vec![c(Suit::Spades, 3), c(Suit::Diamonds, 13)]);
    g
}

#[test]
fn allowed_cards_follow_suit() {
    let mut g = fixed_game();
    assert_eq!(g.alowed_cards(0), vec![0, 1, 2]);
    g.play_card(2, 1); // seven of clubs led
    assert_eq!(g.alowed_cards(0), vec![0, 2]);
    // no club in hand: anything goes
    assert_eq!(g.alowed_cards(1), vec![0, 1]);
}

#[test]
fn winner_is_highest_of_led_suit_or_trump() {
    let mut g = fixed_game();
    g.play_card(2, 1); // clubs 7
    assert_eq!(g.winner(), 0);
    g.play_card(0, 2); // clubs 12
    assert_eq!(g.winner(), 1);
    g.play_card(3, 1); // diamonds 13: not led suit, not trump
    assert_eq!(g.winner(), 1);
    g.play_card(1, 1); // hearts 2: trump
    assert_eq!(g.winner(), 3);
}

#[test]
fn computer_plays_lowest_winning_card() {
    let mut g = fixed_game();
    g.play_card(0, 0); // clubs 5 led
    g.play_easy(2); // holds clubs ace and 7: both win, the 7 is lower
    assert_eq!(*g.table().card(1), c(Suit::Clubs, 7));
    g.play_easy(3); // no clubs, cannot win: lowest card, spades 3
    assert_eq!(*g.table().card(2), c(Suit::Spades, 3));
    g.play_easy(1); // no clubs: hearts 2 is trump and wins
    assert_eq!(*g.table().card(3), c(Suit::Hearts, 2));
}

#[test]
fn computer_follows_suit_with_lowest_when_it_cannot_win() {
    let mut g = fixed_game();
    g.players[2].cards = Deck::new_from(vec![c(Suit::Clubs, 13), c(Suit::Clubs, 2), c(Suit::Hearts, 10)]);
    g.play_card(0, 2); // clubs 12 led
    g.play_card(1, 1); // hearts 2 trumps
    g.play_easy(2); // hearts 10 is not allowed: must follow clubs; cannot beat trump
    assert_eq!(*g.table().card(2), c(Suit::Clubs, 2));
}

#[test]
fn finish_round_scores_the_winner() {
    let mut g = fixed_game();
    g.play_card(0, 0); // clubs 5 by player 0
    g.play_card(1, 0); // diamonds 4
    g.play_card(2, 0); // clubs ace: wins
    g.play_card(3, 0); // spades 3
    g.finish_round();
    assert_eq!(g.turn(), 2);
    assert_eq!(g.scores(), [0, 0, 1, 0]);
    assert_eq!(g.table().size(), 0);
    assert_eq!(cards_of(g.last_trick().unwrap())[2], c(Suit::Clubs, 1));
}

#[test]
fn turn_is_relative_to_opener() {
    let mut g = fixed_game();
    // first trick won by player 2, who then opens
    g.play_card(0, 0);
    g.play_card(1, 0);
    g.play_card(2, 0);
    g.play_card(3, 0);
    g.finish_round();
    // player 2 leads clubs 7, 3 plays diamonds 13, 0 clubs 12 (wins), 1 hearts 2 (trump wins)
    g.play_card(2, 0);
    g.play_card(3, 0);
    g.play_card(0, 1);
    g.play_card(1, 0);
    g.finish_round();
    // the winning card is the fourth on the table: (3 + 2) % 4 = 1
    assert_eq!(g.turn(), 1);
    assert_eq!(g.scores(), [0, 1, 1, 0]);
    assert_eq!(g.reward(), 0);
}

#[test]
fn choose_card_accepts_only_allowed_cards_in_hand() {
    let mut g = fixed_game();
    assert_eq!(g.choose_card(0, &c(Suit::Spades, 9)), Some(1));
    assert_eq!(g.choose_card(0, &c(Suit::Hearts, 9)), None);
    g.play_card(2, 1); // clubs led
    assert_eq!(g.choose_card(0, &c(Suit::Spades, 9)), None);
    assert_eq!(g.choose_card(0, &c(Suit::Clubs, 12)), Some(2));
}

#[test]
fn parse_suit_letters() {
    assert_eq!(parse_suit("H"), Suit::Hearts);
    assert_eq!(parse_suit("d"), Suit::Diamonds);
    assert_eq!(parse_suit("D"), Suit::Diamonds);
    assert_eq!(parse_suit("c"), Suit::Clubs);
    assert_eq!(parse_suit("S"), Suit::Spades);
    assert_eq!(parse_suit("s"), Suit::Spades);
    assert_eq!(parse_suit("x"), Suit::Hearts);
    assert_eq!(parse_suit("ss"), Suit::Hearts);
    assert_eq!(parse_suit(""), Suit::Hearts);
}

#[test]
fn actions_compare() {
    assert_eq!(Action::RaiseHigh, Action::RaiseHigh);
    assert_ne!(Action::PlayWorst, Action::BuyLow);
}

#[test]
fn a_computer_round_keeps_every_card_in_play() {
    let mut g = Game::new();
    for p in 0..4 {
        g.play_easy(p);
    }
    g.finish_round();
    let mut all = Deck::new_empty();
    for p in 0..4 {
        assert_eq!(g.players[p].cards.size(), 12);
        for i in 0..12 {
            all.add(*g.players[p].cards.card(i));
        }
    }
    let trick = g.last_trick().unwrap();
    assert_eq!(trick.size(), 4);
    for i in 0..4 {
        all.add(*trick.card(i));
    }
    all.sort();
    let mut fresh = Deck::new_full();
    fresh.sort();
    assert_eq!(cards_of(&all), cards_of(&fresh));
    assert_eq!(g.scores().iter().sum::<u32>(), 1);
}

#[test]
fn computer_follows_suit_whenever_it_can() {
    for _ in 0..20 {
        let mut g = Game::new();
        g.play_easy(0);
        let led = g.table().card(0).suit;
        for p in 1..4 {
            let could_follow = g.players[p].cards.has_suit(&led);
            g.play_easy(p);
            if could_follow {
                assert_eq!(g.table().card(p).suit, led);
            }
        }
    }
}
