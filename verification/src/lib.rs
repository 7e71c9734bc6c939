//! The rules of a poker-hand deduction puzzle: a pack of cards, the poker hand that a
//! line of five cards makes, the deal of a puzzle board and the checks of a player's
//! guesses.

pub mod cards;
pub mod poker;
pub mod game;
pub mod deal;
pub mod input;
