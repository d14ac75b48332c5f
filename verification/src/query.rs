//! The queries, the in-order walk and the bulk clear.

use vstd::prelude::*;
use crate::model::{
    ascending, counted, greatest_below, holds, least_above, lemma_ascending_keys,
};
use crate::node::NIL;
use crate::raw::RawTree;

verus! {

impl RawTree {
    /// In a well-formed tree the keys of the view ascend strictly.
    pub(crate) proof fn lemma_ascending(&self)
        requires
            self.wf(),
        ensures
            ascending(self@),
            self.keys().finite(),
            self.keys().len() == self@.len(),
    {
        let g = self.graph();
        assert forall|i: int, j: int| 0 <= i < j < self@.len() implies self@[i].0 < self@[j].0 by {
            assert(g.key_at(i) < g.key_at(j));
        }
        lemma_ascending_keys(self@);
    }

    /// Whether `data` is one of the stored keys. The tree stays as it is;
    /// only the node visits are counted.
    pub(crate) fn find(&mut self, data: i32) -> (found: bool)
        requires
            old(self).wf(),
        ensures
            final(self).wf(),
            found == old(self).contains(data),
            final(self)@ == old(self)@,
            final(self).shape() == old(self).shape(),
            final(self).spec_rotations() == old(self).spec_rotations(),
            final(self).spec_accessed_nodes() == counted(
                old(self).spec_accessed_nodes(),
                old(self).shape().misses(data),
            ),
    {
        proof {
            if self.root != NIL {
                assert(self.graph().slot_ok(self.root));
            }
            old(self).lemma_has_key(data);
        }
        let node: usize = self.find_node(self.root, data);
        proof {
            if node != NIL {
                assert(self.graph().slot_ok(node));
                assert(self.graph().key_at(self.span@[node as int].at) == data);
            }
        }
        node != NIL
    }

    /// The least stored key above `data`, where `data` is stored and is not
    /// the greatest key. The tree stays as it is; only the node visits are
    /// counted.
    pub(crate) fn successor(&mut self, data: i32) -> (next: Option<i32>)
        requires
            old(self).wf(),
        ensures
            final(self).wf(),
            final(self)@ == old(self)@,
            final(self).shape() == old(self).shape(),
            final(self).spec_rotations() == old(self).spec_rotations(),
            final(self).spec_accessed_nodes() == counted(
                old(self).spec_accessed_nodes(),
                old(self).shape().misses(data),
            ),
            match next {
                Some(key) => old(self).contains(data) && least_above(old(self)@, data, key),
                None => !old(self).contains(data) || forall|k: i32|
                    holds(old(self)@, k) ==> k <= data,
            },
    {
        let ghost g = self.graph();
        proof {
            if self.root != NIL {
                assert(g.slot_ok(self.root));
            }
            old(self).lemma_has_key(data);
        }
        let node: usize = self.find_node(self.root, data);
        if node != NIL {
            let ghost at = g.span[node as int].at;
            proof {
                assert(g.slot_ok(node));
                assert(g.key_at(at) == data);
            }
            let nodesucc: usize = self.successor_of_node(node);
            if nodesucc != NIL {
                proof {
                    assert(g.key_at(at + 1) == g.nodes[nodesucc as int].data);
                    assert(old(self)@[at + 1].0 == g.key_at(at + 1));
                    assert(holds(old(self)@, g.nodes[nodesucc as int].data));
                    assert(g.key_at(at) < g.key_at(at + 1));
                    assert forall|k: i32| holds(old(self)@, k) && data < k implies g.nodes[nodesucc as int].data
                        <= k by {
                        let p = choose|p: int|
                            0 <= p < old(self)@.len() && (#[trigger] old(self)@[p]).0 == k;
                        assert(g.key_at(p) == k);
                        if p < at {
                            assert(g.key_at(p) < g.key_at(at));
                        }
                        if p > at + 1 {
                            assert(g.key_at(at + 1) < g.key_at(p));
                        }
                    }
                }
                return Some(self.nodes[nodesucc].data);
            }
            proof {
                assert forall|k: i32| holds(old(self)@, k) implies k <= data by {
                    let p = choose|p: int|
                        0 <= p < old(self)@.len() && (#[trigger] old(self)@[p]).0 == k;
                    assert(g.key_at(p) == k);
                    if p < at {
                        assert(g.key_at(p) < g.key_at(at));
                    }
                }
            }
        }
        None
    }

    /// The greatest stored key below `data`, where `data` is stored and is
    /// not the least key. The tree stays as it is; only the node visits are
    /// counted.
    pub(crate) fn predecessor(&mut self, data: i32) -> (prev: Option<i32>)
        requires
            old(self).wf(),
        ensures
            final(self).wf(),
            final(self)@ == old(self)@,
            final(self).shape() == old(self).shape(),
            final(self).spec_rotations() == old(self).spec_rotations(),
            final(self).spec_accessed_nodes() == counted(
                old(self).spec_accessed_nodes(),
                old(self).shape().misses(data),
            ),
            match prev {
                Some(key) => old(self).contains(data) && greatest_below(old(self)@, data, key),
                None => !old(self).contains(data) || forall|k: i32|
                    holds(old(self)@, k) ==> data <= k,
            },
    {
        let ghost g = self.graph();
        proof {
            if self.root != NIL {
                assert(g.slot_ok(self.root));
            }
            old(self).lemma_has_key(data);
        }
        let node: usize = self.find_node(self.root, data);
        if node != NIL {
            let ghost at = g.span[node as int].at;
            proof {
                assert(g.slot_ok(node));
                assert(g.key_at(at) == data);
            }
            let nodepred: usize = self.predecessor_of_node(node);
            if nodepred != NIL {
                proof {
                    assert(g.key_at(at - 1) == g.nodes[nodepred as int].data);
                    assert(old(self)@[at - 1].0 == g.key_at(at - 1));
                    assert(holds(old(self)@, g.nodes[nodepred as int].data));
                    assert(g.key_at(at - 1) < g.key_at(at));
                    assert forall|k: i32| holds(old(self)@, k) && k < data implies k
                        <= g.nodes[nodepred as int].data by {
                        let p = choose|p: int|
                            0 <= p < old(self)@.len() && (#[trigger] old(self)@[p]).0 == k;
                        assert(g.key_at(p) == k);
                        if p > at {
                            assert(g.key_at(at) < g.key_at(p));
                        }
                        if p < at - 1 {
                            assert(g.key_at(p) < g.key_at(at - 1));
                        }
                    }
                }
                return Some(self.nodes[nodepred].data);
            }
            proof {
                assert forall|k: i32| holds(old(self)@, k) implies data <= k by {
                    let p = choose|p: int|
                        0 <= p < old(self)@.len() && (#[trigger] old(self)@[p]).0 == k;
                    assert(g.key_at(p) == k);
                    if p > at {
                        assert(g.key_at(at) < g.key_at(p));
                    }
                }
            }
        }
        None
    }

    /// The `(key, rank)` pairs of the tree by ascending key: starts at the
    /// leftmost node and steps from each node to its successor.
    pub(crate) fn inorder(&self) -> (v: Vec<(i32, i32)>)
        requires
            self.wf(),
        ensures
            v@ == self@,
    {
        let ghost g = self.graph();
        let mut v: Vec<(i32, i32)> = Vec::new();
        if self.root != NIL {
            proof {
                assert(g.slot_ok(self.root));
            }
            let mut node: usize = self.leftmost_child(self.root);
            proof {
                assert(g.slot_ok(node));
            }
            loop
                invariant
                    self.wf(),
                    g == self.graph(),
                    v@.len() <= g.order.len(),
                    v@ == self@.subrange(0, v@.len() as int),
                    node == if v@.len() < g.order.len() {
                        g.order[v@.len() as int]
                    } else {
                        NIL
                    },
                    node != NIL ==> g.live(node) && g.span[node as int].at == v@.len(),
                ensures
                    v@ == self@,
                decreases g.order.len() - v@.len(),
            {
                if node == NIL {
                    proof {
                        assert(g.order.len() > 0 ==> g.live(g.order[0]));
                        assert(v@.len() == g.order.len()) by {
                            if v@.len() < g.order.len() {
                                assert(g.live(g.order[v@.len() as int]));
                            }
                        }
                        assert(v@ =~= self@);
                    }
                    break ;
                }
                proof {
                    assert(g.slot_ok(node));
                }
                let ghost k = v@.len() as int;
                v.push((self.nodes[node].data, self.nodes[node].rank));
                node = self.successor_of_node(node);
                proof {
                    assert(v@ =~= self@.subrange(0, k + 1));
                    if node != NIL {
                        assert(g.slot_ok(node));
                    }
                }
            }
        } else {
            proof {
                assert(v@ =~= self@);
            }
        }
        v
    }

    /// Empties the tree: takes out the root, without restoring the rank
    /// rule, until none is left. The counters stay as they are.
    pub(crate) fn clear(&mut self)
        requires
            old(self).wf(),
        ensures
            final(self).wf(),
            final(self)@ == Seq::<(i32, i32)>::empty(),
            final(self).shape() is Nil,
            final(self).spec_rotations() == old(self).spec_rotations(),
            final(self).spec_accessed_nodes() == old(self).spec_accessed_nodes(),
    {
        while self.root != NIL
            invariant
                self.wf_shape(),
                self.graph().sorted(),
                self.rotations == old(self).rotations,
                self.accessed_nodes == old(self).accessed_nodes,
            decreases self.order@.len(),
        {
            proof {
                let g = self.graph();
                let at = g.span[self.root as int].at;
                assert(g.slot_ok(self.root));
                assert(g.key_at(at) == g.nodes[self.root as int].data);
                if at > 0 {
                    assert(g.key_at(at - 1) < g.key_at(at));
                }
                if at + 1 < g.order.len() {
                    assert(g.key_at(at) < g.key_at(at + 1));
                }
            }
            self.remove_node(self.root, false);
        }
        self.count = 0;
        proof {
            assert(self@ =~= Seq::<(i32, i32)>::empty());
            assert forall|j: usize| self.graph().live(j) implies #[trigger] self.graph().rank_ok(
                j,
            ) by {
                assert(self.graph().slot_ok(j));
            }
        }
    }
}

} // verus!
