//! A solver for five-letter word-guessing puzzles: tile outcomes, accumulated
//! knowledge, candidate filtering and the per-guess partition work of an
//! entropy-driven guess selector.

pub mod bitmask;
pub mod game;
pub mod pattern;
pub mod words;
pub mod strategy;
