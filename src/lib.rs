//! An ordered map from `usize` keys to owned values, kept as a red-black tree.
//!
//! Every operation is verified: the tree's contents behave as a `Map`, and the
//! red-black coloring rules hold after every public operation.

pub mod laws;
pub mod node;
pub mod tree;

mod delete;
mod insert;
