//! Word-level lexical spelling correction over a dictionary trie.
pub mod edit_distance;
pub mod dict_trie;
pub mod counts;
pub mod engine;
pub mod sentence;
