//! The arena as a mathematical value, and what it means for its links, keys
//! and ranks to be in order.

use vstd::prelude::*;
use crate::node::{Node, NIL};

verus! {

/// Where a live node sits in the ascending sequence of the tree: the node
/// itself is at position `at`, and its subtree fills the positions `lo..hi`.
pub struct Span {
    pub live: bool,
    pub lo: int,
    pub at: int,
    pub hi: int,
}

/// The arena as a mathematical value: the node records, the span of each
/// slot, the node at each position of the ascending sequence, and the root.
pub struct Graph {
    pub nodes: Seq<Node>,
    pub span: Seq<Span>,
    pub order: Seq<usize>,
    pub root: usize,
}

impl Graph {
    /// `c` is the index of a node that the tree holds.
    pub open spec fn live(self, c: usize) -> bool {
        c < self.nodes.len() && self.span[c as int].live
    }

    /// The rank of a child slot: the child's rank, or 0 for an empty slot.
    pub open spec fn rank_of(self, c: usize) -> int {
        if c == NIL {
            0
        } else {
            self.nodes[c as int].rank as int
        }
    }

    /// The key at position `p` of the ascending sequence.
    pub open spec fn key_at(self, p: int) -> int {
        self.nodes[self.order[p] as int].data as int
    }

    /// The slot `c` of `parent` covers exactly the positions `lo..hi`.
    pub open spec fn child_ok(self, c: usize, parent: usize, lo: int, hi: int) -> bool {
        if c == NIL {
            lo == hi
        } else {
            &&& self.live(c)
            &&& self.nodes[c as int].parent == parent
            &&& self.span[c as int].lo == lo
            &&& self.span[c as int].hi == hi
        }
    }

    /// The links of node `i` agree with its span and with its neighbours.
    pub open spec fn slot_ok(self, i: usize) -> bool {
        let nd = self.nodes[i as int];
        let s = self.span[i as int];
        &&& 0 <= s.lo <= s.at < s.hi <= self.order.len()
        &&& self.order[s.at] == i
        &&& nd.rank >= 1
        &&& self.child_ok(nd.left, i, s.lo, s.at)
        &&& self.child_ok(nd.right, i, s.at + 1, s.hi)
        &&& if nd.parent == NIL {
            self.root == i
        } else {
            &&& self.live(nd.parent)
            &&& (self.nodes[nd.parent as int].left == i || self.nodes[nd.parent as int].right == i)
        }
    }

    /// Parent/child consistency: the links form one tree below the root whose
    /// in-order walk is `order`.
    pub open spec fn shape_ok(self) -> bool {
        &&& self.span.len() == self.nodes.len()
        &&& self.order.len() <= self.nodes.len() <= usize::MAX
        &&& forall|i: usize| self.live(i) ==> #[trigger] self.slot_ok(i)
        &&& forall|p: int|
            0 <= p < self.order.len() ==> self.live(#[trigger] self.order[p])
                && self.span[self.order[p] as int].at == p
        &&& if self.root == NIL {
            self.order.len() == 0
        } else {
            &&& self.live(self.root)
            &&& self.nodes[self.root as int].parent == NIL
            &&& self.span[self.root as int].lo == 0
            &&& self.span[self.root as int].hi == self.order.len()
        }
    }

    /// Search order: the keys ascend strictly along `order`.
    pub open spec fn sorted(self) -> bool {
        forall|p: int, q: int| 0 <= p < q < self.order.len() ==> self.key_at(p) < self.key_at(q)
    }

    /// The rank rule at node `i`, as far as it holds at all times: both gaps
    /// are 1 or 2, and a leaf has rank 1. `strict_ok` adds that the gaps are
    /// not both 2.
    pub open spec fn rank_ok(self, i: usize) -> bool {
        let nd = self.nodes[i as int];
        &&& 1 <= nd.rank - self.rank_of(nd.left) <= 2
        &&& 1 <= nd.rank - self.rank_of(nd.right) <= 2
        &&& (nd.left == NIL && nd.right == NIL ==> nd.rank == 1)
    }

    /// The rank rule holds at every node but `p`.
    pub open spec fn ranks_ok_except(self, p: usize) -> bool {
        forall|i: usize| self.live(i) && i != p ==> #[trigger] self.rank_ok(i)
    }

    /// The rank rule holds at every node.
    pub open spec fn ranks_ok(self) -> bool {
        forall|i: usize| self.live(i) ==> #[trigger] self.rank_ok(i)
    }

    /// The other child slot of `parent`, seen from its child slot `node`.
    pub open spec fn sibling_of(self, node: usize, parent: usize) -> usize {
        if self.nodes[parent as int].left == node {
            self.nodes[parent as int].right
        } else {
            self.nodes[parent as int].left
        }
    }

    /// `node` stands in one of the two child slots of `parent`.
    pub open spec fn is_slot_of(self, node: usize, parent: usize) -> bool {
        self.nodes[parent as int].left == node || self.nodes[parent as int].right == node
    }

    /// `key` is the key of one of the nodes.
    pub open spec fn has_key(self, key: i32) -> bool {
        exists|p: int| 0 <= p < self.order.len() && #[trigger] self.key_at(p) == key
    }

    /// The keys of `self` are those of `before` with `data` put in at
    /// position `a`.
    pub open spec fn keys_inserted(self, before: Graph, a: int, data: i32) -> bool {
        &&& 0 <= a <= before.order.len()
        &&& self.order.len() == before.order.len() + 1
        &&& self.key_at(a) == data
        &&& forall|p: int| 0 <= p < a ==> #[trigger] self.key_at(p) == before.key_at(p)
        &&& forall|p: int|
            a < p <= before.order.len() ==> #[trigger] self.key_at(p) == before.key_at(p - 1)
    }

    /// The keys of `self` are those of `before` but for the one at position
    /// `a`.
    pub open spec fn keys_removed(self, before: Graph, a: int) -> bool {
        &&& 0 <= a < before.order.len()
        &&& self.order.len() == before.order.len() - 1
        &&& forall|p: int| 0 <= p < a ==> #[trigger] self.key_at(p) == before.key_at(p)
        &&& forall|p: int|
            a <= p < self.order.len() ==> #[trigger] self.key_at(p) == before.key_at(p + 1)
    }

    /// The ascending sequence of `(key, rank)` pairs.
    pub open spec fn entries(self) -> Seq<(i32, i32)> {
        Seq::new(
            self.order.len(),
            |p: int| (self.nodes[self.order[p] as int].data, self.nodes[self.order[p] as int].rank),
        )
    }
}

} // verus!
