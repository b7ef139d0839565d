//! A single-player blackjack engine: cards, a 52-card deck with shuffle and
//! deal, the best-total-under-21 hand valuation, and the decision rules of
//! the game loop (command parsing, dealer policy, outcome resolution).

pub mod card;
pub mod deck;
pub mod game;
pub mod hand;
pub mod text;
