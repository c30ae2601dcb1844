//! Classical algorithms and data structures, verified: comparison sorts
//! over any total order, string matching built on exact prefix- and
//! Z-function contracts, a prefix tree, an online suffix automaton, and
//! array-backed heaps with range-query trees.

pub mod bst;
pub mod sort;
pub mod string;
