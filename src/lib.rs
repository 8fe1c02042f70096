//! Exact blackjack outcome analysis: the card, hand and deck model, the card
//! token grammar, input validation, and the exhaustive search over the cards
//! still to come.
pub mod calc;
pub mod config;
pub mod engine;
pub mod tokens;
