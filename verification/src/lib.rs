//! A fuzzy record-matching engine: scores pairs of tokenized name records
//! under token-rarity (inverse document frequency) weighting and selects,
//! for each "from" record, the best-scoring "to" records.
//!
//! Scores are fixed-point integers (see [`fixed`]) so that every arithmetic
//! step of the scoring pipeline is exactly specified and machine-checked.

pub mod fixed;
pub mod tokens;
pub mod names;
pub mod error;
pub mod idf;
pub mod norm;
pub mod weighted;
pub mod score;
pub mod strutil;
pub mod ngram;
pub mod levenshtein;
pub mod heap;
pub mod opts;
pub mod matching;
