//! Array-backed indexes over a fixed number of elements.

pub mod fenwick;
pub mod segment_tree;
pub mod sum_segment_tree;
pub mod sums;
pub mod union_find;
