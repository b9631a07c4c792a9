//! A directory-tree differencer.
//!
//! Two directory trees, read into plain values, are walked in lockstep and
//! every relative path found under either root becomes one comparison row,
//! marked present on one side, the other, or both, with its depth for
//! indentation. The walk is a merge over the two sorted child lists of each
//! directory pair, recursing into subdirectories as it goes.

pub mod compare;
pub mod laws;
pub mod order;
pub mod sort;
pub mod tree;
