//! A multi-word anagram engine.
//!
//! A target phrase is reduced to its letter-count signature; a dictionary is
//! indexed by word length and signature; jobs (non-decreasing sequences of
//! word lengths) partition the search space; a backtracking search finds all
//! signature assignments that sum to the target and expands them into
//! canonical, deduplicated anagram lines.

pub mod armamagna;
pub mod combinations;
pub mod dictionarium;
pub mod search;
pub mod signature;
pub mod text;
