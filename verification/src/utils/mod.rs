//! Searches over sorted slices, in-place rearrangements and comparators.

pub mod array;
pub mod search;
pub mod sort;
