//! Owned binary trees.
//!
//! The centre of the crate is [`bst`]: an unbalanced binary search tree over
//! `i64` elements whose operations carry full functional contracts, including
//! a `remove` that detaches the removed node and hands it back as a one-node
//! subtree. Around it stand [`nodes`], binary tree nodes wired together by
//! hand with a search wrapper over them, [`multiway`], a tree whose nodes hold
//! a first child and a list of siblings, and [`foo`], a one-field container
//! that hands out mutable borrows under contract.

pub mod bst;
pub mod foo;
pub mod multiway;
pub mod nodes;
