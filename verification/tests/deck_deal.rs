use blackjack::card::{Card, Rank, Suit};
use blackjack::deck::Deck;

fn all_cards() -> Vec<Card> {
    let suits = [Suit::Hearts, Suit::Diamonds, Suit::Clubs, Suit::Spades];
    let mut want: Vec<Card> = Vec::new();
    for s in suits {
        for r in [Rank::A, Rank::J, Rank::Q, Rank::K] {
            want.push(Card::new(s, r));
        }
        for num in 2..=10u8 {
            want.push(Card::new(s, Rank::Number { num }));
        }
    }
    want
}

fn drain(deck: &mut Deck) -> Vec<Card> {
    let mut got: Vec<Card> = Vec::new();
    while let Some(c) = deck.deal() {
        got.push(c);
    }
    got
}

fn assert_is_full_deck(got: &[Card]) {
    assert_eq!(got.len(), 52);
    for i in 0..got.len() {
        for j in 0..i {
            assert_ne!(got[i], got[j], "deck dealt a duplicate card");
        }
    }
    for want in all_cards() {
        assert!(got.contains(&want), "deck is missing a card");
    }
}

#[test]
fn fresh_deck_has_52_cards() {
    let deck = Deck::new();
    assert_eq!(deck.len(), 52);
}

#[test]
fn fresh_deck_deals_every_card_exactly_once() {
    let mut deck = Deck::new();
    let got = drain(&mut deck);
    assert_is_full_deck(&got);
    assert_eq!(deck.deal(), None);
    assert_eq!(deck.len(), 0);
}

#[test]
fn shuffle_keeps_the_multiset_of_cards() {
    let mut deck = Deck::new();
    deck.shuffle();
    assert_eq!(deck.len(), 52);
    let got = drain(&mut deck);
    assert_is_full_deck(&got);
}

#[test]
fn deal_takes_from_the_top() {
    let mut deck = Deck::new();
    // the construction order ends with the spades number cards
    assert_eq!(
        deck.deal(),
        Some(Card::new(Suit::Spades, Rank::Number { num: 10 }))
    );
    assert_eq!(
        deck.deal(),
        Some(Card::new(Suit::Spades, Rank::Number { num: 9 }))
    );
    assert_eq!(deck.len(), 50);
}
