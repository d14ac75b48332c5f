//! The node record of the arena.

use vstd::prelude::*;

verus! {

/// The index that stands for "no node": an empty child slot, or the parent
/// of the root.
pub const NIL: usize = usize::MAX;

/// One stored key with its rank and its links into the arena.
#[derive(Clone, Copy, Debug)]
pub struct Node {
    pub data: i32,
    pub rank: i32,
    pub left: usize,
    pub right: usize,
    pub parent: usize,
}

impl Node {
    /// A fresh leaf that has no parent: rank 1, both child slots empty.
    pub fn new(data: i32) -> (node: Node)
        ensures
            node == (Node { data, rank: 1, left: NIL, right: NIL, parent: NIL }),
    {
        Node { data, rank: 1, left: NIL, right: NIL, parent: NIL }
    }

    /// A fresh leaf below `parent`: rank 1, both child slots empty.
    pub fn new_with_parent(data: i32, parent: usize) -> (node: Node)
        ensures
            node == (Node { data, rank: 1, left: NIL, right: NIL, parent }),
    {
        Node { data, rank: 1, left: NIL, right: NIL, parent }
    }
}

} // verus!
