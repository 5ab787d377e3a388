//! Exact expected-score optimisation for a five-letter guessing game.
//!
//! A hidden solution is drawn with equal chance from a list of candidate
//! words. Every guess is answered by a pattern of five colours. The library
//! builds, step by step, the strategy tree that needs the fewest guesses on
//! average, and keeps at every moment a lower bound on that average.
//!
//! - `color`, `score`, `word`, `score_cache`: patterns, their codes, and the
//!   table of the codes of every pair of words.
//! - `estimate`: the lower bound for a candidate set of a given size.
//! - `word_list`, `buckets`: candidate lists and their split by feedback.
//! - `model`, `laws`: the search as mathematics, and what holds of it.
//! - `game`: the search itself.
//! - `render`: words, patterns, averages and finished trees as text.

pub mod buckets;
pub mod color;
pub mod estimate;
pub mod game;
pub mod laws;
pub mod model;
pub mod optimum;
pub mod render;
pub mod score;
pub mod score_cache;
pub mod sums;
pub mod word;
pub mod word_list;
