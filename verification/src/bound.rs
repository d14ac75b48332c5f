//! A bound on the ranks that a tree of a given size can hold.

use vstd::prelude::*;
use crate::arena::Graph;
use crate::node::NIL;
use crate::shape::{lemma_min_nodes_mono, lemma_rank_small, min_nodes};

verus! {

impl Graph {
    /// Every node of the subtree below `i` obeys the rank rule.
    pub open spec fn subtree_ranks_ok(self, i: usize) -> bool {
        forall|j: usize|
            self.live(j) && self.span[i as int].lo <= self.span[j as int].at < self.span[i as int].hi
                ==> #[trigger] self.rank_ok(j)
    }

    /// A subtree that obeys the rank rule holds at least `min_nodes(rank)`
    /// nodes, where `rank` is the rank of its root.
    pub proof fn lemma_subtree_size(self, i: usize)
        requires
            self.shape_ok(),
            self.live(i),
            self.subtree_ranks_ok(i),
        ensures
            min_nodes(self.nodes[i as int].rank as int) <= self.span[i as int].hi
                - self.span[i as int].lo,
        decreases self.span[i as int].hi - self.span[i as int].lo,
    {
        let nd = self.nodes[i as int];
        assert(self.slot_ok(i));
        assert(self.rank_ok(i));
        if nd.left != NIL {
            assert(self.slot_ok(nd.left));
            self.lemma_subtree_size(nd.left);
            lemma_min_nodes_mono(nd.rank - 2, self.nodes[nd.left as int].rank as int);
        }
        if nd.right != NIL {
            assert(self.slot_ok(nd.right));
            self.lemma_subtree_size(nd.right);
            lemma_min_nodes_mono(nd.rank - 2, self.nodes[nd.right as int].rank as int);
        }
    }

    /// The rank of a node whose subtree obeys the rank rule is below 130.
    pub proof fn lemma_rank_bounded(self, i: usize)
        requires
            self.shape_ok(),
            self.live(i),
            self.subtree_ranks_ok(i),
        ensures
            self.nodes[i as int].rank < 130,
    {
        self.lemma_subtree_size(i);
        assert(self.slot_ok(i));
        lemma_rank_small(
            self.nodes[i as int].rank as int,
            self.span[i as int].hi - self.span[i as int].lo,
        );
    }
}

} // verus!
