//! A Jacks or Better video poker trainer: cards and decks, hand evaluation,
//! the 9/6 paytable, exact hold analysis, and the game's state machine.

pub mod cards;
pub mod hand;
pub mod strategy;
pub mod game;
pub mod labels;
pub mod sound;
