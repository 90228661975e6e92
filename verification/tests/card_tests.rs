use whister::card::Card;
use whister::suit::Suit;

fn c(suit: Suit, number: u8) -> Card {
    Card { suit, number }
}

#[test]
fn ace_scores_fourteen_and_others_their_number() {
    assert_eq!(c(Suit::Hearts, 1).score(), 14);
    assert_eq!(c(Suit::Clubs, 13).score(), 13);
    assert_eq!(c(Suit::Spades, 2).score(), 2);
}

#[test]
fn higher_card_of_same_suit_wins() {
    assert!(c(Suit::Clubs, 10).better(&c(Suit::Clubs, 4), &Suit::Hearts));
    assert!(!c(Suit::Clubs, 4).better(&c(Suit::Clubs, 10), &Suit::Hearts));
    assert!(c(Suit::Clubs, 1).better(&c(Suit::Clubs, 13), &Suit::Hearts));
}

#[test]
fn trump_beats_other_suits_and_other_suits_lose() {
    assert!(c(Suit::Hearts, 2).better(&c(Suit::Spades, 1), &Suit::Hearts));
    assert!(!c(Suit::Spades, 1).better(&c(Suit::Hearts, 2), &Suit::Hearts));
    assert!(!c(Suit::Diamonds, 13).better(&c(Suit::Clubs, 2), &Suit::Hearts));
    assert!(!c(Suit::Clubs, 2).better(&c(Suit::Diamonds, 13), &Suit::Hearts));
}

#[test]
fn no_card_beats_itself() {
    for suit in Suit::all() {
        for n in 1..14u8 {
            let a = c(suit, n);
            assert!(!a.better(&a, &Suit::Hearts));
            assert!(!a.better(&a, &suit));
        }
    }
}

#[test]
fn beating_is_asymmetric_and_transitive_on_samples() {
    let cards = [
        c(Suit::Hearts, 1),
        c(Suit::Hearts, 7),
        c(Suit::Spades, 12),
        c(Suit::Spades, 3),
        c(Suit::Clubs, 1),
        c(Suit::Diamonds, 9),
    ];
    for trump in Suit::all() {
        for a in &cards {
            for b in &cards {
                assert!(!(a.better(b, &trump) && b.better(a, &trump)));
                for d in &cards {
                    if a.better(b, &trump) && b.better(d, &trump) {
                        assert!(a.better(d, &trump));
                    }
                }
            }
        }
    }
}

#[test]
fn sort_order_is_by_suit_then_number() {
    assert!(c(Suit::Spades, 13).sorts_before(&c(Suit::Clubs, 1)));
    assert!(c(Suit::Clubs, 2).sorts_before(&c(Suit::Clubs, 3)));
    assert!(!c(Suit::Hearts, 1).sorts_before(&c(Suit::Diamonds, 13)));
}

#[test]
fn suit_indices_and_order() {
    assert_eq!(Suit::Spades.index(), 0);
    assert_eq!(Suit::Clubs.index(), 1);
    assert_eq!(Suit::Diamonds.index(), 2);
    assert_eq!(Suit::Hearts.index(), 3);
    assert_eq!(Suit::all(), [Suit::Hearts, Suit::Clubs, Suit::Diamonds, Suit::Spades]);
}
