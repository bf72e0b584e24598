//! Ranked-choice election counting over a preference trie.
pub mod ballot;
pub mod ballot_box;
pub mod candidates;
pub mod round;
mod trie;
