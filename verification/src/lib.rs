//! Building blocks for contest-style programs: range-query indexes, a
//! disjoint-set forest, number theory, graph traversal, string matching and
//! slice utilities, each with a machine-checked contract.

pub mod data_structures;
pub mod graph;
pub mod math;
pub mod scanner;
pub mod string;
pub mod utils;

pub use data_structures::fenwick::{FenwickTree, RangeUpdateFenwickTree};
pub use data_structures::segment_tree::{MaxI64, MinI64, Monoid, SegmentTree};
pub use data_structures::sum_segment_tree::SumSegmentTree;
pub use data_structures::union_find::{Forest, UnionFind};
pub use graph::{Graph, GraphView};

use vstd::prelude::*;

verus! {

/// A distance that stands for "no way": large, and safe to add to itself.
pub const INF: i64 = 1_000_000_000_000_000_000;

/// The prime modulus 10^9 + 7.
pub const MOD: i64 = 1_000_000_007;

/// The prime modulus 998244353.
pub const MOD2: i64 = 998_244_353;

/// Row steps to the four neighbours of a cell: up, right, down, left.
pub const DX4: [i32; 4] = [-1, 0, 1, 0];

/// Column steps to the four neighbours of a cell: up, right, down, left.
pub const DY4: [i32; 4] = [0, 1, 0, -1];

/// Row steps to the eight neighbours of a cell.
pub const DX8: [i32; 8] = [-1, -1, -1, 0, 0, 1, 1, 1];

/// Column steps to the eight neighbours of a cell.
pub const DY8: [i32; 8] = [-1, 0, 1, -1, 1, -1, 0, 1];

} // verus!
