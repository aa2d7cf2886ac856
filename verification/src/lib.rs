//! Verified core of a terminal word-guessing game.
//!
//! A player repeatedly submits fixed-length words; each guess is scored
//! letter by letter against a secret word, feedback accumulates across up
//! to five guesses per round, and rounds repeat with a running score.
//! This crate holds the scoring rules, the round buffer and the round
//! state machine, each with a proved contract; the surrounding program
//! supplies the terminal, the word file and the command line.

pub mod buffer;
pub mod engine;
pub mod error;
pub mod words;
