//! An array-backed segment tree with range-maximum queries and lazily propagated range
//! "chmin" updates, proved against a sequence model; with the smaller exercises that
//! share its crate: an arena binary tree, segment coverage counting, and two dynamic
//! programs.
use vstd::prelude::*;

pub mod binary_tree;
pub mod coverage;
pub mod heap_layout;
pub mod laws;
pub mod operations;
pub mod planning;
pub mod range_ops;
pub mod segment_tree;
pub mod topics;

verus! {

} // verus!
