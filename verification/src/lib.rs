//! Approximate string matching: four string metrics with exact integer and
//! rational scores, and best-match searches over a list of candidates or over
//! the windows of a text.

pub mod utils;
pub mod score;
pub mod levenshtein;
pub mod hamming;
pub mod jaro;
pub mod internal_scorer;
pub mod algorithm;
pub mod ranking;
pub mod finder;
pub mod jaro_symmetry;
