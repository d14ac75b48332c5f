//! The arena with its bookkeeping, and the invariant that the tree carries.

use vstd::prelude::*;
use crate::arena::{Graph, Span};
use crate::model::{holds, key_seq, key_set};
use crate::node::{Node, NIL};

verus! {

/// The arena of a weak-AVL tree with its bookkeeping. Its invariant, `wf`, is
/// stated beside it and has to be carried by those who use it.
pub struct RawTree {
    pub(crate) nodes: Vec<Node>,
    pub(crate) free: Vec<usize>,
    pub(crate) root: usize,
    pub(crate) count: usize,
    pub(crate) rotations: usize,
    pub(crate) accessed_nodes: usize,
    pub(crate) order: Ghost<Seq<usize>>,
    pub(crate) span: Ghost<Seq<Span>>,
}

impl View for RawTree {
    type V = Seq<(i32, i32)>;

    /// The `(key, rank)` pairs of the tree by ascending key.
    open(crate) spec fn view(&self) -> Seq<(i32, i32)> {
        self.graph().entries()
    }
}

impl RawTree {
    pub open(crate) spec fn graph(&self) -> Graph {
        Graph { nodes: self.nodes@, span: self.span@, order: self.order@, root: self.root }
    }

    /// The free list names each unused slot of the arena exactly once.
    pub open(crate) spec fn store_ok(&self) -> bool {
        &&& self.order@.len() + self.free@.len() == self.nodes@.len()
        &&& forall|k: int|
            0 <= k < self.free@.len() ==> (#[trigger] self.free@[k]) < self.nodes@.len()
                && !self.span@[self.free@[k] as int].live
        &&& forall|k: int, l: int|
            0 <= k < l < self.free@.len() ==> self.free@[k] != self.free@[l]
    }

    /// Links, spans and bookkeeping are consistent; ranks and keys are not
    /// looked at.
    pub open(crate) spec fn wf_shape(&self) -> bool {
        self.graph().shape_ok() && self.store_ok()
    }

    /// The tree is well formed: one tree in search order that obeys the rank
    /// rule at every node.
    pub open(crate) spec fn wf(&self) -> bool {
        &&& self.wf_shape()
        &&& self.graph().sorted()
        &&& self.graph().ranks_ok()
        &&& self.count == self.order@.len()
    }

    /// The rotations counted since the last reset.
    pub open(crate) spec fn spec_rotations(&self) -> nat {
        self.rotations as nat
    }

    /// The node visits counted since the last reset.
    pub open(crate) spec fn spec_accessed_nodes(&self) -> nat {
        self.accessed_nodes as nat
    }

    /// `key` is one of the stored keys.
    pub open spec fn contains(&self, key: i32) -> bool {
        holds(self@, key)
    }

    /// The set of the stored keys.
    pub open spec fn keys(&self) -> Set<i32> {
        key_set(self@)
    }

    /// `self` is `other` but for the counter of node visits.
    pub open(crate) spec fn same_tree(&self, other: &RawTree) -> bool {
        *self == (RawTree { accessed_nodes: self.accessed_nodes, ..*other })
    }

    /// `self` holds the keys of `other` in the same slots and in the same
    /// order: only ranks, links and the rotation counter may differ.
    #[verifier::opaque]
    pub open(crate) spec fn rebalanced_from(&self, other: &RawTree) -> bool {
        &&& self.order@ == other.order@
        &&& self.free@ == other.free@
        &&& self.count == other.count
        &&& self.accessed_nodes == other.accessed_nodes
        &&& self.rotations >= other.rotations
        &&& self.nodes@.len() == other.nodes@.len()
        &&& self.span@.len() == other.span@.len()
        &&& forall|i: int|
            0 <= i < self.nodes@.len() ==> (#[trigger] self.nodes@[i]).data == other.nodes@[i].data
        &&& forall|i: int|
            0 <= i < self.span@.len() ==> (#[trigger] self.span@[i]).live == other.span@[i].live
    }

    /// Rebalancing steps compose.
    pub(crate) proof fn lemma_rebalanced_trans(&self, mid: &RawTree, start: &RawTree)
        requires
            self.rebalanced_from(mid),
            mid.rebalanced_from(start),
        ensures
            self.rebalanced_from(start),
    {
        reveal(RawTree::rebalanced_from);
    }

    /// A tree is a rebalanced form of itself.
    pub(crate) proof fn lemma_rebalanced_refl(&self)
        ensures
            self.rebalanced_from(self),
    {
        reveal(RawTree::rebalanced_from);
    }

    /// Rebalancing keeps the search order and the keys of the view.
    pub(crate) proof fn lemma_rebalanced_keys(&self, start: &RawTree)
        requires
            self.rebalanced_from(start),
            start.wf_shape(),
        ensures
            start.graph().sorted() ==> self.graph().sorted(),
            self@.len() == start@.len(),
            forall|p: int| 0 <= p < self@.len() ==> (#[trigger] self@[p]).0 == start@[p].0,
            self.store_ok(),
            self.count == start.count,
            self.accessed_nodes == start.accessed_nodes,
            self.rotations >= start.rotations,
            self.free@ == start.free@,
    {
        reveal(RawTree::rebalanced_from);
        let g = self.graph();
        let h = start.graph();
        assert forall|p: int| 0 <= p < g.order.len() implies g.key_at(p) == h.key_at(p) by {
            assert(h.live(h.order[p]));
            assert(g.nodes[g.order[p] as int].data == h.nodes[h.order[p] as int].data);
        }
        if h.sorted() {
            assert forall|p: int, q: int| 0 <= p < q < g.order.len() implies g.key_at(p) < g.key_at(
                q,
            ) by {
                assert(h.key_at(p) < h.key_at(q));
            }
        }
        assert forall|k: int| 0 <= k < self.free@.len() implies (#[trigger] self.free@[k])
            < self.nodes@.len() && !self.span@[self.free@[k] as int].live by {
            assert(start.free@[k] < start.nodes@.len());
        }
    }

    /// `contains` speaks of the keys of the graph.
    pub(crate) proof fn lemma_has_key(&self, key: i32)
        ensures
            self.contains(key) == self.graph().has_key(key),
    {
        let g = self.graph();
        if self.contains(key) {
            let p = choose|p: int| 0 <= p < self@.len() && (#[trigger] self@[p]).0 == key;
            assert(g.key_at(p) == key);
        }
        if g.has_key(key) {
            let p = choose|p: int| 0 <= p < g.order.len() && #[trigger] g.key_at(p) == key;
            assert(self@[p].0 == key);
        }
    }

    /// Putting a key into the sequence puts it into the set of keys.
    pub(crate) proof fn lemma_keys_inserted(&self, before: &RawTree, a: int, data: i32)
        requires
            self.graph().keys_inserted(before.graph(), a, data),
        ensures
            self.keys() == before.keys().insert(data),
            self@.len() == before@.len() + 1,
            key_seq(self@) == key_seq(before@).insert(a, data),
    {
        let g = self.graph();
        let h = before.graph();
        assert forall|key: i32| self.keys().contains(key) == before.keys().insert(data).contains(
            key,
        ) by {
            self.lemma_has_key(key);
            before.lemma_has_key(key);
            if g.has_key(key) {
                let p = choose|p: int| 0 <= p < g.order.len() && #[trigger] g.key_at(p) == key;
                if p < a {
                    assert(h.key_at(p) == key);
                } else if p > a {
                    assert(h.key_at(p - 1) == key);
                }
            }
            if h.has_key(key) {
                let p = choose|p: int| 0 <= p < h.order.len() && #[trigger] h.key_at(p) == key;
                if p < a {
                    assert(g.key_at(p) == key);
                } else {
                    assert(g.key_at(p + 1) == key);
                }
            }
            if key == data {
                assert(g.key_at(a) == key);
            }
        }
        assert(self.keys() =~= before.keys().insert(data));
        assert(key_seq(self@) =~= key_seq(before@).insert(a, data)) by {
            assert forall|p: int| 0 <= p < self@.len() implies key_seq(self@)[p] == key_seq(
                before@,
            ).insert(a, data)[p] by {
                assert(key_seq(self@)[p] == g.key_at(p));
                if p < a {
                    assert(g.key_at(p) == h.key_at(p));
                } else if p > a {
                    assert(g.key_at(p) == h.key_at(p - 1));
                }
            }
        }
    }

    /// Taking a key out of the sequence takes it out of the set of keys,
    /// where the keys are in search order.
    pub(crate) proof fn lemma_keys_removed(&self, before: &RawTree, a: int)
        requires
            self.graph().keys_removed(before.graph(), a),
            before.graph().sorted(),
        ensures
            self.keys() == before.keys().remove(before@[a].0),
            self@.len() == before@.len() - 1,
            key_seq(self@) == key_seq(before@).remove(a),
    {
        let g = self.graph();
        let h = before.graph();
        let data = before@[a].0;
        assert(h.key_at(a) == data);
        assert forall|key: i32| self.keys().contains(key) == before.keys().remove(data).contains(
            key,
        ) by {
            self.lemma_has_key(key);
            before.lemma_has_key(key);
            if g.has_key(key) {
                let p = choose|p: int| 0 <= p < g.order.len() && #[trigger] g.key_at(p) == key;
                if p < a {
                    assert(h.key_at(p) == key);
                    assert(h.key_at(p) < h.key_at(a));
                } else {
                    assert(h.key_at(p + 1) == key);
                    assert(h.key_at(a) < h.key_at(p + 1));
                }
            }
            if h.has_key(key) && key != data {
                let p = choose|p: int| 0 <= p < h.order.len() && #[trigger] h.key_at(p) == key;
                if p < a {
                    assert(g.key_at(p) == key);
                } else {
                    assert(g.key_at(p - 1) == key);
                }
            }
        }
        assert(self.keys() =~= before.keys().remove(data));
        assert(key_seq(self@) =~= key_seq(before@).remove(a)) by {
            assert forall|p: int| 0 <= p < self@.len() implies key_seq(self@)[p] == key_seq(
                before@,
            ).remove(a)[p] by {
                assert(key_seq(self@)[p] == g.key_at(p));
                if p < a {
                    assert(g.key_at(p) == h.key_at(p));
                } else {
                    assert(g.key_at(p) == h.key_at(p + 1));
                }
            }
        }
    }

    /// An empty tree with both counters at zero.
    pub(crate) fn new() -> (tree: Self)
        ensures
            tree.wf(),
            tree@ == Seq::<(i32, i32)>::empty(),
            tree.shape() is Nil,
            tree.spec_rotations() == 0,
            tree.spec_accessed_nodes() == 0,
    {
        Self {
            count: 0,
            rotations: 0,
            accessed_nodes: 0,
            root: NIL,
            nodes: Vec::new(),
            free: Vec::new(),
            order: Ghost(Seq::empty()),
            span: Ghost(Seq::empty()),
        }
    }

    /// Sets the rotation counter back to zero.
    pub(crate) fn reset_rotations(&mut self)
        ensures
            final(self).spec_rotations() == 0,
            final(self).spec_accessed_nodes() == old(self).spec_accessed_nodes(),
            final(self)@ == old(self)@,
            final(self).shape() == old(self).shape(),
            old(self).wf() ==> final(self).wf(),
    {
        self.rotations = 0;
    }

    /// Sets the counter of node visits back to zero.
    pub(crate) fn reset_accessed_nodes(&mut self)
        ensures
            final(self).spec_accessed_nodes() == 0,
            final(self).spec_rotations() == old(self).spec_rotations(),
            final(self)@ == old(self)@,
            final(self).shape() == old(self).shape(),
            old(self).wf() ==> final(self).wf(),
    {
        self.accessed_nodes = 0;
    }

    /// The rotations counted since the last reset.
    pub(crate) fn rotations(&self) -> (n: usize)
        ensures
            n == self.spec_rotations(),
    {
        self.rotations
    }

    /// The node visits counted since the last reset.
    pub(crate) fn accessed_nodes(&self) -> (n: usize)
        ensures
            n == self.spec_accessed_nodes(),
    {
        self.accessed_nodes
    }

    /// Counts one rotation. The counter stops at `usize::MAX`.
    pub(crate) fn increase_rotations(&mut self)
        ensures
            *final(self) == (RawTree { rotations: final(self).rotations, ..*old(self) }),
            final(self).rotations == if old(self).rotations < usize::MAX {
                old(self).rotations + 1
            } else {
                usize::MAX as int
            },
            final(self).rebalanced_from(old(self)),
    {
        if self.rotations < usize::MAX {
            self.rotations += 1;
        }
        proof {
            reveal(RawTree::rebalanced_from);
        }
    }

    /// Counts one node visit. The counter stops at `usize::MAX`.
    pub(crate) fn increase_nodes(&mut self)
        ensures
            *final(self) == (RawTree { accessed_nodes: final(self).accessed_nodes, ..*old(self) }),
            final(self).accessed_nodes == if old(self).accessed_nodes < usize::MAX {
                old(self).accessed_nodes + 1
            } else {
                usize::MAX as int
            },
    {
        if self.accessed_nodes < usize::MAX {
            self.accessed_nodes += 1;
        }
    }

    /// The number of stored keys.
    pub(crate) fn node_count(&self) -> (n: usize)
        requires
            self.wf(),
        ensures
            n == self@.len(),
    {
        self.count
    }
}

} // verus!
