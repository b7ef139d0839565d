use blackjack::card::{Card, Rank, Suit};
use blackjack::deck::Deck;
use blackjack::game::{
    dealer_action, initial_deal, parse_choice, parse_replay, player_state, resolve, Choice,
    DealerAction, Outcome, PlayerState, Replay,
};
use blackjack::hand::Hand;

fn hand_of(ranks: &[Rank]) -> Hand {
    let mut h = Hand::new();
    for r in ranks {
        h.add_card(Card::new(Suit::Diamonds, *r));
    }
    h
}

fn n(num: u8) -> Rank {
    Rank::Number { num }
}

#[test]
fn hit_commands_are_recognized() {
    assert_eq!(parse_choice(b"1"), Choice::Hit);
    assert_eq!(parse_choice(b"hit"), Choice::Hit);
    assert_eq!(parse_choice(b"h"), Choice::Hit);
    assert_eq!(parse_choice(b""), Choice::Hit);
    assert_eq!(parse_choice(b"HIT"), Choice::Hit);
    assert_eq!(parse_choice(b"  Hit \n"), Choice::Hit);
    assert_eq!(parse_choice(b"   "), Choice::Hit);
}

#[test]
fn stand_commands_are_recognized() {
    assert_eq!(parse_choice(b"2"), Choice::Stand);
    assert_eq!(parse_choice(b"stand"), Choice::Stand);
    assert_eq!(parse_choice(b"s"), Choice::Stand);
    assert_eq!(parse_choice(b"STAND"), Choice::Stand);
    assert_eq!(parse_choice(b" S "), Choice::Stand);
}

#[test]
fn unrecognized_commands_are_rejected() {
    assert_eq!(parse_choice(b"x"), Choice::Invalid);
    assert_eq!(parse_choice(b"hitt"), Choice::Invalid);
    assert_eq!(parse_choice(b"3"), Choice::Invalid);
    assert_eq!(parse_choice(b"stan"), Choice::Invalid);
    assert_eq!(parse_choice(b"stands"), Choice::Invalid);
    assert_eq!(parse_choice(b"no"), Choice::Invalid);
}

#[test]
fn replay_answers_are_recognized() {
    assert_eq!(parse_replay(b"y"), Replay::Again);
    assert_eq!(parse_replay(b"yes"), Replay::Again);
    assert_eq!(parse_replay(b""), Replay::Again);
    assert_eq!(parse_replay(b"YES"), Replay::Again);
    assert_eq!(parse_replay(b" y \n"), Replay::Again);
    assert_eq!(parse_replay(b"n"), Replay::Quit);
    assert_eq!(parse_replay(b"no"), Replay::Quit);
    assert_eq!(parse_replay(b"q"), Replay::Quit);
    assert_eq!(parse_replay(b"yess"), Replay::Quit);
}

#[test]
fn player_states_follow_value_and_card_count() {
    assert_eq!(
        player_state(&hand_of(&[Rank::A, Rank::K])),
        PlayerState::Blackjack
    );
    assert_eq!(
        player_state(&hand_of(&[n(7), n(7), n(7)])),
        PlayerState::TwentyOne
    );
    assert_eq!(
        player_state(&hand_of(&[Rank::K, Rank::Q, n(5)])),
        PlayerState::Busted
    );
    assert_eq!(
        player_state(&hand_of(&[Rank::K, n(5)])),
        PlayerState::Choosing
    );
}

#[test]
fn dealer_stands_on_17_and_above() {
    assert_eq!(
        dealer_action(&hand_of(&[Rank::K, n(7)])),
        DealerAction::Stand
    );
    assert_eq!(
        dealer_action(&hand_of(&[Rank::K, n(8)])),
        DealerAction::Stand
    );
    assert_eq!(
        dealer_action(&hand_of(&[Rank::K, n(10)])),
        DealerAction::Stand
    );
    assert_eq!(
        dealer_action(&hand_of(&[Rank::A, Rank::K])),
        DealerAction::Stand
    );
}

#[test]
fn dealer_draws_below_17() {
    assert_eq!(dealer_action(&hand_of(&[n(2), n(2)])), DealerAction::Draw);
    assert_eq!(dealer_action(&hand_of(&[Rank::K, n(6)])), DealerAction::Draw);
    assert_eq!(dealer_action(&hand_of(&[n(6), n(6)])), DealerAction::Draw);
}

#[test]
fn busted_dealer_is_reported() {
    assert_eq!(
        dealer_action(&hand_of(&[Rank::K, Rank::Q, n(5)])),
        DealerAction::Busted
    );
}

#[test]
fn standing_hands_compare_by_value() {
    assert_eq!(resolve(18, 17), Outcome::DealerWins);
    assert_eq!(resolve(17, 18), Outcome::PlayerWins);
    assert_eq!(resolve(17, 17), Outcome::Push);
}

#[test]
fn opening_deal_alternates_from_the_top() {
    let mut deck = Deck::new();
    let (player, dealer) = initial_deal(&mut deck);
    assert_eq!(deck.len(), 48);
    assert_eq!(player.len(), 2);
    assert_eq!(dealer.len(), 2);
    // unshuffled, the top of the deck is ...,7,8,9,10 of spades
    assert_eq!(player.value(), 18); // spades 10 and 8
    assert_eq!(dealer.value(), 16); // spades 9 and 7
    assert_eq!(
        dealer.last_card(),
        Some(Card::new(Suit::Spades, Rank::Number { num: 7 }))
    );
}

#[test]
fn blackjack_wins_immediately_without_dealer_draws() {
    // player dealt ace and king, dealer dealt two nines
    let player = hand_of(&[Rank::A, Rank::K]);
    let dealer = hand_of(&[n(9), n(9)]);
    assert_eq!(player_state(&player), PlayerState::Blackjack);
    // the dealer holds no blackjack, so the round ends as an immediate win:
    // the dealer's turn is never entered
    assert!(!dealer.is_blackjack());
}

#[test]
fn dealer_draws_to_21_and_wins() {
    // player stands on 17; dealer starts at 12 and must draw
    let player = hand_of(&[n(10), n(7)]);
    assert_eq!(player_state(&player), PlayerState::Choosing);
    let mut dealer = hand_of(&[n(6), n(6)]);
    let mut draws = vec![n(9)];
    let mut drew = 0;
    loop {
        match dealer_action(&dealer) {
            DealerAction::Draw => {
                dealer.add_card(Card::new(Suit::Clubs, draws.remove(0)));
                drew += 1;
            }
            DealerAction::Stand => break,
            DealerAction::Busted => panic!("dealer busted unexpectedly"),
        }
    }
    assert_eq!(drew, 1);
    assert_eq!(dealer.value(), 21);
    assert_eq!(resolve(dealer.value(), player.value()), Outcome::DealerWins);
}

#[test]
fn player_bust_ends_the_round_before_the_dealer_turn() {
    let player = hand_of(&[n(10), n(9), n(5)]);
    assert_eq!(player.value(), 0);
    assert_eq!(player_state(&player), PlayerState::Busted);
}
