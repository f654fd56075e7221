//! A suffix trie over byte strings, built column-wise from a matrix of
//! reversed strings and queried by longest-suffix or exact match.

pub mod bitset;
pub mod tree;
