//! Verified data structures and algorithms: ordered containers, linked
//! lists, array-backed lists, and sorting and searching routines, each with
//! contracts stating what it computes.  The height-balanced search tree in
//! `trees::avl_tree` is the centrepiece: its ordering, cached heights,
//! balance and length are proven invariant across insertion and removal.

pub mod linked_lists;
pub mod lists;
pub mod searching;
pub mod sorting;
pub mod trees;
