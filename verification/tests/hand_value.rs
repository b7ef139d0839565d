use blackjack::card::{Card, Rank, Suit};
use blackjack::hand::Hand;

fn hand_of(ranks: &[Rank]) -> Hand {
    let mut h = Hand::new();
    for r in ranks {
        h.add_card(Card::new(Suit::Hearts, *r));
    }
    h
}

fn n(num: u8) -> Rank {
    Rank::Number { num }
}

#[test]
fn empty_hand_is_worth_zero() {
    let h = Hand::new();
    assert_eq!(h.value(), 0);
    assert!(!h.is_blackjack());
    assert!(h.last_card().is_none());
}

#[test]
fn no_ace_hand_is_plain_sum() {
    assert_eq!(hand_of(&[n(5), Rank::K]).value(), 15);
    assert_eq!(hand_of(&[n(2), n(3), n(4)]).value(), 9);
    assert_eq!(hand_of(&[Rank::J, Rank::Q]).value(), 20);
    assert_eq!(hand_of(&[n(10), n(9), n(2)]).value(), 21);
}

#[test]
fn no_ace_hand_over_21_is_bust() {
    assert_eq!(hand_of(&[Rank::K, Rank::Q, n(5)]).value(), 0);
    assert_eq!(hand_of(&[n(10), n(9), n(5)]).value(), 0);
}

#[test]
fn ace_and_nine_is_twenty() {
    assert_eq!(hand_of(&[Rank::A, n(9)]).value(), 20);
}

#[test]
fn two_aces_are_twelve() {
    assert_eq!(hand_of(&[Rank::A, Rank::A]).value(), 12);
}

#[test]
fn three_aces_are_thirteen() {
    assert_eq!(hand_of(&[Rank::A, Rank::A, Rank::A]).value(), 13);
}

#[test]
fn four_aces_are_fourteen() {
    assert_eq!(hand_of(&[Rank::A, Rank::A, Rank::A, Rank::A]).value(), 14);
}

#[test]
fn king_and_queen_are_twenty() {
    assert_eq!(hand_of(&[Rank::K, Rank::Q]).value(), 20);
}

#[test]
fn ace_and_king_is_natural_blackjack() {
    let h = hand_of(&[Rank::A, Rank::K]);
    assert_eq!(h.value(), 21);
    assert!(h.is_blackjack());
}

#[test]
fn ace_king_two_forces_low_ace() {
    let h = hand_of(&[Rank::A, Rank::K, n(2)]);
    assert_eq!(h.value(), 13);
    assert!(!h.is_blackjack());
}

#[test]
fn twenty_one_from_three_cards_is_not_blackjack() {
    let h = hand_of(&[n(7), n(7), n(7)]);
    assert_eq!(h.value(), 21);
    assert!(!h.is_blackjack());
}

#[test]
fn ace_value_adapts_as_cards_arrive() {
    let mut h = Hand::new();
    h.add_card(Card::new(Suit::Clubs, Rank::A));
    assert_eq!(h.value(), 11);
    h.add_card(Card::new(Suit::Spades, n(7)));
    assert_eq!(h.value(), 18);
    h.add_card(Card::new(Suit::Hearts, n(8)));
    assert_eq!(h.value(), 16);
}

#[test]
fn last_card_is_most_recent() {
    let mut h = Hand::new();
    h.add_card(Card::new(Suit::Clubs, Rank::A));
    h.add_card(Card::new(Suit::Spades, n(7)));
    assert_eq!(h.last_card(), Some(Card::new(Suit::Spades, n(7))));
    assert_eq!(h.len(), 2);
}
