//! Hanging a new leaf into an empty child slot.

use vstd::prelude::*;
use crate::arena::{Graph, Span};
use crate::node::{Node, NIL};
use crate::raw::RawTree;
use crate::shape::{fork, Shape};

verus! {

impl Span {
    /// The span after a new position was opened at `a`.
    pub open spec fn shifted_up(self, a: int) -> Span {
        Span {
            live: self.live,
            lo: if self.lo > a {
                self.lo + 1
            } else {
                self.lo
            },
            at: if self.at >= a {
                self.at + 1
            } else {
                self.at
            },
            hi: if self.hi >= a {
                self.hi + 1
            } else {
                self.hi
            },
        }
    }
}

impl Graph {
    /// The position at which a new leaf in a child slot of `parent` enters
    /// the ascending sequence.
    pub open spec fn graft_at(self, parent: usize, on_left: bool) -> int {
        if parent == NIL {
            0
        } else if on_left {
            self.span[parent as int].at
        } else {
            self.span[parent as int].at + 1
        }
    }

    /// A new leaf may be hung into the named slot of `parent`: the slot is
    /// empty, and the neighbour in ascending order on the far side of the
    /// slot has `parent` in its subtree. With `NIL` for `parent` the tree is
    /// empty and the leaf becomes the root.
    pub open spec fn graft_site(self, parent: usize, on_left: bool) -> bool {
        let a = self.graft_at(parent, on_left);
        if parent == NIL {
            self.root == NIL
        } else {
            &&& self.live(parent)
            &&& if on_left {
                &&& self.nodes[parent as int].left == NIL
                &&& a > 0 ==> self.span[self.order[a - 1] as int].hi > a
            } else {
                &&& self.nodes[parent as int].right == NIL
                &&& a < self.order.len() ==> self.span[self.order[a] as int].lo < a
            }
        }
    }

    /// `data` fits between the neighbours of position `a`.
    pub open spec fn key_fits(self, a: int, data: i32) -> bool {
        &&& a > 0 ==> self.key_at(a - 1) < data
        &&& a < self.order.len() ==> data < self.key_at(a)
    }

    /// The graph after a leaf that holds `data` was stored in slot `idx` of
    /// the arena and hung into the named child slot of `parent`.
    #[verifier::opaque]
    pub open spec fn grafted(self, parent: usize, on_left: bool, idx: usize, data: i32) -> Graph {
        let a = self.graft_at(parent, on_left);
        let leaf = Node { data, rank: 1, left: NIL, right: NIL, parent };
        let n0 = if idx == self.nodes.len() {
            self.nodes.push(leaf)
        } else {
            self.nodes.update(idx as int, leaf)
        };
        let n1 = if parent == NIL {
            n0
        } else if on_left {
            n0.update(parent as int, Node { left: idx, ..self.nodes[parent as int] })
        } else {
            n0.update(parent as int, Node { right: idx, ..self.nodes[parent as int] })
        };
        Graph {
            nodes: n1,
            span: Seq::new(
                n1.len(),
                |i: int|
                    if i == idx {
                        Span { live: true, lo: a, at: a, hi: a + 1 }
                    } else {
                        self.span[i].shifted_up(a)
                    },
            ),
            order: Seq::new(
                self.order.len() + 1,
                |p: int|
                    if p < a {
                        self.order[p]
                    } else if p == a {
                        idx
                    } else {
                        self.order[p - 1]
                    },
            ),
            root: if parent == NIL {
                idx
            } else {
                self.root
            },
        }
    }

    /// Hanging a new leaf into an empty slot keeps the links consistent,
    /// puts `(data, 1)` at its position of the ascending sequence, and can
    /// break the rank rule at `parent` only.
    #[verifier::rlimit(30)]
    pub proof fn lemma_grafted(self, parent: usize, on_left: bool, idx: usize, data: i32)
        requires
            self.shape_ok(),
            self.graft_site(parent, on_left),
            idx < usize::MAX,
            idx <= self.nodes.len(),
            idx < self.nodes.len() ==> !self.span[idx as int].live,
            idx < self.nodes.len() ==> self.order.len() < self.nodes.len(),
        ensures
            self.grafted(parent, on_left, idx, data).shape_ok(),
            self.grafted(parent, on_left, idx, data).entries() == self.entries().insert(
                self.graft_at(parent, on_left),
                (data, 1i32),
            ),
            0 <= self.graft_at(parent, on_left) <= self.order.len(),
            self.sorted() && self.key_fits(self.graft_at(parent, on_left), data) ==> self.grafted(
                parent,
                on_left,
                idx,
                data,
            ).sorted(),
            forall|j: usize|
                self.grafted(parent, on_left, idx, data).live(j) == (self.live(j) || j == idx),
            forall|j: usize|
                self.live(j) && j != parent ==> #[trigger] self.grafted(
                    parent,
                    on_left,
                    idx,
                    data,
                ).nodes[j as int] == self.nodes[j as int],
            self.grafted(parent, on_left, idx, data).keys_inserted(
                self,
                self.graft_at(parent, on_left),
                data,
            ),
            forall|j: usize|
                self.live(j) && j != parent && self.rank_ok(j) ==> #[trigger] self.grafted(
                    parent,
                    on_left,
                    idx,
                    data,
                ).rank_ok(j),
            self.grafted(parent, on_left, idx, data).nodes[idx as int] == (Node {
                data,
                rank: 1,
                left: NIL,
                right: NIL,
                parent,
            }),
            self.grafted(parent, on_left, idx, data).rank_ok(idx),
            parent != NIL ==> self.grafted(parent, on_left, idx, data).nodes[parent as int]
                == if on_left {
                Node { left: idx, ..self.nodes[parent as int] }
            } else {
                Node { right: idx, ..self.nodes[parent as int] }
            },
    {
        reveal(Graph::grafted);
        let g = self.grafted(parent, on_left, idx, data);
        let a = self.graft_at(parent, on_left);
        let n = self.order.len() as int;
        if parent != NIL {
            assert(self.slot_ok(parent));
        }
        if a > 0 {
            assert(self.live(self.order[a - 1]));
            assert(self.slot_ok(self.order[a - 1]));
        }
        if a < n {
            assert(self.live(self.order[a]));
            assert(self.slot_ok(self.order[a]));
        }
        assert forall|i: usize| g.live(i) implies #[trigger] g.slot_ok(i) by {
            if i != idx {
                assert(self.slot_ok(i));
                let nd = self.nodes[i as int];
                if nd.left != NIL {
                    assert(self.slot_ok(nd.left));
                }
                if nd.right != NIL {
                    assert(self.slot_ok(nd.right));
                }
                if nd.parent != NIL {
                    assert(self.slot_ok(nd.parent));
                }
            }
        }
        assert forall|p: int| 0 <= p < g.order.len() implies g.live(#[trigger] g.order[p])
            && g.span[g.order[p] as int].at == p by {
            if p < a {
                assert(self.live(self.order[p]));
            } else if p > a {
                assert(self.live(self.order[p - 1]));
            }
        }
        if self.root != NIL {
            assert(self.slot_ok(self.root));
        }
        assert(g.entries() =~= self.entries().insert(a, (data, 1i32))) by {
            assert forall|p: int| 0 <= p < g.order.len() implies #[trigger] g.entries()[p]
                == self.entries().insert(a, (data, 1i32))[p] by {
                if p < a {
                    assert(self.live(self.order[p]));
                } else if p > a {
                    assert(self.live(self.order[p - 1]));
                }
            }
        }
        assert(g.keys_inserted(self, a, data)) by {
            assert forall|p: int| 0 <= p < a implies #[trigger] g.key_at(p) == self.key_at(p) by {
                assert(self.live(self.order[p]));
            }
            assert forall|p: int| a < p <= self.order.len() implies #[trigger] g.key_at(p)
                == self.key_at(p - 1) by {
                assert(self.live(self.order[p - 1]));
            }
        }
        if self.sorted() && self.key_fits(a, data) {
            assert forall|p: int, q: int| 0 <= p < q < g.order.len() implies g.key_at(p) < g.key_at(
                q,
            ) by {
                let pp = if p < a { p } else { p - 1 };
                let qq = if q < a { q } else { q - 1 };
                if p != a {
                    assert(self.live(self.order[pp]));
                    assert(g.key_at(p) == self.key_at(pp));
                }
                if q != a {
                    assert(self.live(self.order[qq]));
                    assert(g.key_at(q) == self.key_at(qq));
                }
                if p == a {
                    assert(g.key_at(p) == data);
                    if qq > a {
                        assert(self.key_at(a) < self.key_at(qq));
                    }
                } else if q == a {
                    assert(g.key_at(q) == data);
                    if pp < a - 1 {
                        assert(self.key_at(pp) < self.key_at(a - 1));
                    }
                } else {
                    assert(self.key_at(pp) < self.key_at(qq));
                }
            }
        }
        assert forall|j: usize| self.live(j) && j != parent && self.rank_ok(j) implies #[trigger] g.rank_ok(
            j,
        ) by {
            assert(self.slot_ok(j));
        }
    }

    /// Hanging in a new leaf grows the shape below every node above it by
    /// that leaf.
    #[verifier::rlimit(30)]
    pub proof fn lemma_grafted_below(
        self,
        parent: usize,
        on_left: bool,
        idx: usize,
        data: i32,
        c: usize,
    )
        requires
            self.shape_ok(),
            self.sorted(),
            self.graft_site(parent, on_left),
            self.key_fits(self.graft_at(parent, on_left), data),
            idx < usize::MAX,
            idx <= self.nodes.len(),
            idx < self.nodes.len() ==> !self.span[idx as int].live,
            idx < self.nodes.len() ==> self.order.len() < self.nodes.len(),
            parent != NIL,
            self.live(c),
            self.span[c as int].lo <= self.span[parent as int].at < self.span[c as int].hi,
        ensures
            self.grafted(parent, on_left, idx, data).shape_at(c) == self.shape_at(c).grown(data),
        decreases self.span[c as int].hi - self.span[c as int].lo,
    {
        let g = self.grafted(parent, on_left, idx, data);
        let a = self.graft_at(parent, on_left);
        self.lemma_grafted(parent, on_left, idx, data);
        let nd = self.nodes[c as int];
        assert(self.slot_ok(c));
        assert(self.slot_ok(parent));
        assert(self.key_at(self.span[c as int].at) == nd.data);
        self.lemma_unfold(c);
        g.lemma_unfold(c);
        assert(self.shape_at(idx) == Shape::Nil);
        if c == parent {
            g.lemma_unfold(idx);
            let other = if on_left { nd.right } else { nd.left };
            assert(self.same_below(g, other)) by {
                assert forall|j: usize| self.live(j) && self.within(j, other) implies #[trigger] self.same_node(
                    g,
                    j,
                ) by {
                    assert(g.nodes[j as int] == self.nodes[j as int]);
                }
            }
            if other != NIL {
                assert(self.slot_ok(other));
            }
            self.lemma_shape_frame(g, other);
            assert(g.shape_at(idx) == fork(Shape::Nil, data, 1, Shape::Nil));
            assert(g.shape_at(other) == self.shape_at(other));
            if on_left {
                assert(data < nd.data);
                assert(nd.left == NIL);
                assert(g.nodes[c as int].left == idx);
                assert(g.nodes[c as int].right == nd.right);
                assert(self.shape_at(c).grown(data) == fork(
                    self.shape_at(nd.left).grown(data),
                    nd.data,
                    nd.rank as int,
                    self.shape_at(nd.right),
                ));
                assert(g.shape_at(c) == self.shape_at(c).grown(data));
            } else {
                assert(data > nd.data);
                assert(nd.right == NIL);
                assert(g.nodes[c as int].right == idx);
                assert(g.nodes[c as int].left == nd.left);
                assert(self.shape_at(c).grown(data) == fork(
                    self.shape_at(nd.left),
                    nd.data,
                    nd.rank as int,
                    self.shape_at(nd.right).grown(data),
                ));
                assert(g.shape_at(c) == self.shape_at(c).grown(data));
            }
        } else {
            assert(g.nodes[c as int] == nd);
            let at_p = self.span[parent as int].at;
            let at_c = self.span[c as int].at;
            if at_p < at_c {
                assert(self.key_at(a) <= self.key_at(at_c)) by {
                    if a < at_c {
                        assert(self.key_at(a) < self.key_at(at_c));
                    }
                }
                assert(self.slot_ok(nd.left));
                self.lemma_grafted_below(parent, on_left, idx, data, nd.left);
                assert(self.same_below(g, nd.right)) by {
                    assert forall|j: usize| self.live(j) && self.within(j, nd.right) implies #[trigger] self.same_node(
                        g,
                        j,
                    ) by {
                        assert(g.nodes[j as int] == self.nodes[j as int]);
                    }
                }
                if nd.right != NIL {
                    assert(self.slot_ok(nd.right));
                }
                self.lemma_shape_frame(g, nd.right);
                assert(data < nd.data);
                assert(self.shape_at(c).grown(data) == fork(
                    self.shape_at(nd.left).grown(data),
                    nd.data,
                    nd.rank as int,
                    self.shape_at(nd.right),
                ));
            } else {
                assert(self.key_at(at_c) <= self.key_at(a - 1)) by {
                    if at_c < a - 1 {
                        assert(self.key_at(at_c) < self.key_at(a - 1));
                    }
                }
                assert(self.slot_ok(nd.right));
                self.lemma_grafted_below(parent, on_left, idx, data, nd.right);
                assert(self.same_below(g, nd.left)) by {
                    assert forall|j: usize| self.live(j) && self.within(j, nd.left) implies #[trigger] self.same_node(
                        g,
                        j,
                    ) by {
                        assert(g.nodes[j as int] == self.nodes[j as int]);
                    }
                }
                if nd.left != NIL {
                    assert(self.slot_ok(nd.left));
                }
                self.lemma_shape_frame(g, nd.left);
                assert(data > nd.data);
                assert(self.shape_at(c).grown(data) == fork(
                    self.shape_at(nd.left),
                    nd.data,
                    nd.rank as int,
                    self.shape_at(nd.right).grown(data),
                ));
            }
        }
    }

    /// Hanging in a new leaf grows the shape of the tree by that leaf.
    pub proof fn lemma_grafted_shape(self, parent: usize, on_left: bool, idx: usize, data: i32)
        requires
            self.shape_ok(),
            self.sorted(),
            self.graft_site(parent, on_left),
            self.key_fits(self.graft_at(parent, on_left), data),
            idx < usize::MAX,
            idx <= self.nodes.len(),
            idx < self.nodes.len() ==> !self.span[idx as int].live,
            idx < self.nodes.len() ==> self.order.len() < self.nodes.len(),
        ensures
            self.grafted(parent, on_left, idx, data).shape_at(
                self.grafted(parent, on_left, idx, data).root,
            ) == self.shape_at(self.root).grown(data),
    {
        let g = self.grafted(parent, on_left, idx, data);
        self.lemma_grafted(parent, on_left, idx, data);
        reveal(Graph::grafted);
        if parent == NIL {
            g.lemma_unfold(idx);
        } else {
            assert(self.slot_ok(parent));
            assert(self.slot_ok(self.root));
            self.lemma_grafted_below(parent, on_left, idx, data, self.root);
        }
    }
}

impl RawTree {
    /// Stores a new leaf that holds `data` in a free slot of the arena and
    /// hangs it into the named child slot of `parent`, or makes it the root
    /// where `parent` is `NIL`. Returns the index of the leaf.
    pub(crate) fn attach(&mut self, parent: usize, data: i32, on_left: bool) -> (idx: usize)
        requires
            old(self).wf_shape(),
            old(self).graph().graft_site(parent, on_left),
        ensures
            final(self).wf_shape(),
            final(self).graph() == old(self).graph().grafted(parent, on_left, idx, data),
            idx < usize::MAX,
            idx <= old(self).nodes@.len(),
            idx < old(self).nodes@.len() ==> !old(self).span@[idx as int].live && old(
                self,
            ).order@.len() < old(self).nodes@.len(),
            final(self).count == old(self).count,
            final(self).rotations == old(self).rotations,
            final(self).accessed_nodes == old(self).accessed_nodes,
    {
        let ghost pre = self.graph();
        let node = if parent == NIL {
            Node::new(data)
        } else {
            Node::new_with_parent(data, parent)
        };
        let idx: usize;
        if self.free.len() > 0 {
            let ghost last = self.free@.len() - 1;
            proof {
                assert(self.free@[last] < self.nodes@.len());
            }
            idx = self.free.pop().unwrap();
            self.nodes[idx] = node;
            proof {
                assert forall|k: int| 0 <= k < self.free@.len() implies (#[trigger] self.free@[k])
                    != idx by {
                    assert(old(self).free@[k] != old(self).free@[last]);
                }
            }
        } else {
            idx = self.nodes.len();
            self.nodes.push(node);
            proof {
                assert(self.nodes.len() == self.nodes@.len());
            }
        }
        proof {
            pre.lemma_grafted(parent, on_left, idx, data);
            if parent != NIL {
                assert(pre.slot_ok(parent));
            }
        }
        if parent == NIL {
            self.root = idx;
        } else if on_left {
            self.nodes[parent].left = idx;
        } else {
            self.nodes[parent].right = idx;
        }
        proof {
            reveal(Graph::grafted);
            let post = pre.grafted(parent, on_left, idx, data);
            self.order@ = post.order;
            self.span@ = post.span;
            assert(self.graph().nodes =~= post.nodes);
            assert(self.graph() == post);
            assert forall|k: int| 0 <= k < self.free@.len() implies (#[trigger] self.free@[k])
                < self.nodes@.len() && !self.span@[self.free@[k] as int].live by {
                let f = self.free@[k];
                assert(f == old(self).free@[k]);
                assert(f != idx);
            }
        }
        idx
    }
}

} // verus!
