use blackjack::card::{Card, Rank, Suit};
use blackjack::hand::Hand;

#[test]
fn card_shows_suit_symbol_then_rank() {
    assert_eq!(Card::new(Suit::Hearts, Rank::A).display_string(), "\u{2665}A");
    assert_eq!(Card::new(Suit::Diamonds, Rank::J).display_string(), "\u{2666}J");
    assert_eq!(Card::new(Suit::Clubs, Rank::Q).display_string(), "\u{2663}Q");
    assert_eq!(Card::new(Suit::Spades, Rank::K).display_string(), "\u{2660}K");
    assert_eq!(
        Card::new(Suit::Spades, Rank::Number { num: 7 }).display_string(),
        "\u{2660}7"
    );
    assert_eq!(
        Card::new(Suit::Hearts, Rank::Number { num: 10 }).display_string(),
        "\u{2665}10"
    );
}

#[test]
fn hand_shows_cards_comma_joined_with_value() {
    let mut h = Hand::new();
    h.add_card(Card::new(Suit::Hearts, Rank::A));
    h.add_card(Card::new(Suit::Spades, Rank::K));
    assert_eq!(h.display_string(), "\u{2665}A, \u{2660}K (Value: 21)");
}

#[test]
fn empty_hand_shows_value_zero() {
    let h = Hand::new();
    assert_eq!(h.display_string(), " (Value: 0)");
}

#[test]
fn busted_hand_shows_value_zero() {
    let mut h = Hand::new();
    h.add_card(Card::new(Suit::Hearts, Rank::K));
    h.add_card(Card::new(Suit::Diamonds, Rank::Q));
    h.add_card(Card::new(Suit::Clubs, Rank::Number { num: 5 }));
    assert_eq!(
        h.display_string(),
        "\u{2665}K, \u{2666}Q, \u{2663}5 (Value: 0)"
    );
}
