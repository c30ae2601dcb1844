//! String algorithms: exact-contract prefix and Z functions, pattern
//! matching, a prefix tree of whole words, and the online suffix automaton.

pub mod kmp;
pub mod prefix_function;
pub mod suffix_automaton;
pub mod trie;
pub mod z_function;
