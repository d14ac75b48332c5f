//! Ranks of child slots and of siblings, promotion and demotion.

use vstd::prelude::*;
use crate::node::{Node, NIL};
use crate::raw::RawTree;

verus! {

impl RawTree {
    /// The rank of a child slot: 0 where the slot is empty.
    pub(crate) fn slot_rank(&self, node: usize) -> (rank: i32)
        requires
            node != NIL ==> node < self.nodes@.len(),
        ensures
            rank == self.graph().rank_of(node),
    {
        if node == NIL {
            0
        } else {
            self.nodes[node].rank
        }
    }

    /// The other child slot of `parent`, seen from its child slot `node`
    /// (which may be empty).
    pub(crate) fn get_node_sibling(&self, node: usize, parent: usize) -> (sibling: usize)
        requires
            self.wf_shape(),
            self.graph().live(parent),
            self.graph().is_slot_of(node, parent),
        ensures
            sibling == self.graph().sibling_of(node, parent),
            sibling != NIL ==> self.graph().live(sibling) && sibling != node,
    {
        proof {
            assert(self.graph().slot_ok(parent));
        }
        if self.nodes[parent].left == node {
            self.nodes[parent].right
        } else {
            self.nodes[parent].left
        }
    }

    /// The rank of the sibling slot of `node` below `parent`.
    pub(crate) fn get_node_sibling_rank(&self, node: usize, parent: usize) -> (rank: i32)
        requires
            self.wf_shape(),
            self.graph().live(parent),
            self.graph().is_slot_of(node, parent),
        ensures
            rank == self.graph().rank_of(self.graph().sibling_of(node, parent)),
    {
        let sibling: usize = self.get_node_sibling(node, parent);
        self.slot_rank(sibling)
    }

    /// The rank of the left child slot of the sibling of `node`.
    pub(crate) fn get_node_sibling_left_rank(&self, node: usize, parent: usize) -> (rank: i32)
        requires
            self.wf_shape(),
            self.graph().live(parent),
            self.graph().is_slot_of(node, parent),
            self.graph().sibling_of(node, parent) != NIL,
        ensures
            rank == self.graph().rank_of(
                self.nodes@[self.graph().sibling_of(node, parent) as int].left,
            ),
    {
        let sibling: usize = self.get_node_sibling(node, parent);
        proof {
            assert(self.graph().slot_ok(sibling));
        }
        self.slot_rank(self.nodes[sibling].left)
    }

    /// The rank of the right child slot of the sibling of `node`.
    pub(crate) fn get_node_sibling_right_rank(&self, node: usize, parent: usize) -> (rank: i32)
        requires
            self.wf_shape(),
            self.graph().live(parent),
            self.graph().is_slot_of(node, parent),
            self.graph().sibling_of(node, parent) != NIL,
        ensures
            rank == self.graph().rank_of(
                self.nodes@[self.graph().sibling_of(node, parent) as int].right,
            ),
    {
        let sibling: usize = self.get_node_sibling(node, parent);
        proof {
            assert(self.graph().slot_ok(sibling));
        }
        self.slot_rank(self.nodes[sibling].right)
    }

    /// Raises the rank of `node` by one. Nothing else changes, so the rank
    /// rule can only be affected at `node` and at its parent.
    pub(crate) fn promote(&mut self, node: usize)
        requires
            old(self).wf_shape(),
            old(self).graph().live(node),
            old(self).nodes@[node as int].rank < i32::MAX,
        ensures
            final(self).wf_shape(),
            final(self).nodes@ == old(self).nodes@.update(
                node as int,
                Node {
                    rank: (old(self).nodes@[node as int].rank + 1) as i32,
                    ..old(self).nodes@[node as int]
                },
            ),
            *final(self) == (RawTree { nodes: final(self).nodes, ..*old(self) }),
            final(self).graph() == old(self).graph().bumped(node, 1),
            final(self).rebalanced_from(old(self)),
            forall|j: usize|
                old(self).graph().live(j) && j != node && j != old(self).nodes@[node as int].parent
                    && old(self).graph().rank_ok(j) ==> #[trigger] final(self).graph().rank_ok(j),
    {
        let ghost pre = self.graph();
        self.nodes[node].rank = self.nodes[node].rank + 1;
        proof {
            reveal(RawTree::rebalanced_from);
            let post = self.graph();
            assert forall|i: usize| post.live(i) implies #[trigger] post.slot_ok(i) by {
                assert(pre.slot_ok(i));
            }
            assert forall|j: usize|
                pre.live(j) && j != node && j != pre.nodes[node as int].parent && pre.rank_ok(
                    j,
                ) implies #[trigger] post.rank_ok(j) by {
                assert(pre.slot_ok(j));
            }
        }
    }

    /// Lowers the rank of `node` by one. Nothing else changes, so the rank
    /// rule can only be affected at `node` and at its parent.
    pub(crate) fn demote(&mut self, node: usize)
        requires
            old(self).wf_shape(),
            old(self).graph().live(node),
            old(self).nodes@[node as int].rank >= 2,
        ensures
            final(self).wf_shape(),
            final(self).nodes@ == old(self).nodes@.update(
                node as int,
                Node {
                    rank: (old(self).nodes@[node as int].rank - 1) as i32,
                    ..old(self).nodes@[node as int]
                },
            ),
            *final(self) == (RawTree { nodes: final(self).nodes, ..*old(self) }),
            final(self).graph() == old(self).graph().bumped(node, -1),
            final(self).rebalanced_from(old(self)),
            forall|j: usize|
                old(self).graph().live(j) && j != node && j != old(self).nodes@[node as int].parent
                    && old(self).graph().rank_ok(j) ==> #[trigger] final(self).graph().rank_ok(j),
    {
        let ghost pre = self.graph();
        self.nodes[node].rank = self.nodes[node].rank - 1;
        proof {
            reveal(RawTree::rebalanced_from);
            let post = self.graph();
            assert forall|i: usize| post.live(i) implies #[trigger] post.slot_ok(i) by {
                assert(pre.slot_ok(i));
            }
            assert forall|j: usize|
                pre.live(j) && j != node && j != pre.nodes[node as int].parent && pre.rank_ok(
                    j,
                ) implies #[trigger] post.rank_ok(j) by {
                assert(pre.slot_ok(j));
            }
        }
    }
}

} // verus!
