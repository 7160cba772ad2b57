//! Core engine of a word-guessing puzzle game: a dictionary of candidate
//! words, a per-guess letter-matching evaluator, a cumulative tracker of
//! which letters have been seen, and the win/lose/ongoing state machine.

pub mod dictionary;
pub mod game;
pub mod letters;
pub mod text;
