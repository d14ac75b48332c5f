//! A rank-balanced (weak-AVL) binary search tree over `i32` keys.
//!
//! [`Tree`] keeps its nodes in an arena and refers to them by index. Its
//! contracts speak of two views of a tree: the ascending sequence of
//! `(key, rank)` pairs that it holds, and its [`shape::Shape`], the tree of
//! those pairs as a mathematical value. Insertion and removal are pinned to
//! the functions of the [`update`] module on shapes; [`laws`] states what
//! follows for every history of changes.

pub mod laws;
pub mod model;
pub mod shape;
pub mod tree;
pub mod update;

mod arena;
mod attach;
mod bound;
mod detach;
mod insert;
mod navigate;
mod node;
mod query;
mod rank;
mod raw;
mod reflect;
mod remove;
mod reshape;
mod rotate;
mod strict;

pub use tree::Tree;
