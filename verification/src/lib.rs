//! An interactive fuzzy-selection engine: a subsequence-matching scorer
//! ranks a fixed list of candidate strings against an incrementally typed
//! query, and a search session tracks the live query, the ranked match set,
//! and a bounded selection cursor until a choice is confirmed.

pub mod ansi;
pub mod config;
pub mod score;
pub mod search;
