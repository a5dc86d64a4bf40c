//! Shut the Box: a single-player dice and tile game.
//!
//! The board, the search for a set of open tiles that adds up to a roll,
//! the dice, and the statistics gathered over many games.

pub mod board;
pub mod dice;
pub mod game;
pub mod search;
pub mod simulation;
pub mod statistics;
