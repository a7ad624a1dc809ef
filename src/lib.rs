//! A compressed prefix tree keyed by strings, with its contracts proved.
pub mod key;
mod node;
pub mod trie;
