//! Array-backed tree structures: binary heaps, a binary indexed tree and a
//! product segment tree.

pub mod binary_heap;
pub mod fenwick_tree;
pub mod segment_tree;
