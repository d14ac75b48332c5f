//! Taking a node with at most one child out of the tree.

use vstd::prelude::*;
use crate::arena::{Graph, Span};
use crate::model::counted;
use crate::node::{Node, NIL};
use crate::raw::RawTree;

verus! {

impl Span {
    /// The span after the position `q` was closed.
    pub open spec fn shifted_down(self, q: int) -> Span {
        Span {
            live: self.live,
            lo: if self.lo > q {
                self.lo - 1
            } else {
                self.lo
            },
            at: if self.at > q {
                self.at - 1
            } else {
                self.at
            },
            hi: if self.hi > q {
                self.hi - 1
            } else {
                self.hi
            },
        }
    }
}

impl Graph {
    /// The child of a node that has at most one: its left child if it has
    /// one, else its right child, which may be `NIL`.
    pub open spec fn only_child(self, x: usize) -> usize {
        if self.nodes[x as int].left != NIL {
            self.nodes[x as int].left
        } else {
            self.nodes[x as int].right
        }
    }

    /// `x` is a node with at most one child.
    pub open spec fn splice_site(self, x: usize) -> bool {
        &&& self.live(x)
        &&& (self.nodes[x as int].left == NIL || self.nodes[x as int].right == NIL)
    }

    /// The keys ascend strictly once position `q` is left out.
    pub open spec fn sorted_but(self, q: int) -> bool {
        forall|p1: int, p2: int|
            0 <= p1 < p2 < self.order.len() && p1 != q && p2 != q ==> self.key_at(p1)
                < self.key_at(p2)
    }

    /// The graph after `x`, a node with at most one child, was taken out and
    /// its child, if any, put in its place.
    #[verifier::opaque]
    pub open spec fn spliced(self, x: usize) -> Graph {
        let r = self.only_child(x);
        let p = self.nodes[x as int].parent;
        let q = self.span[x as int].at;
        let n1 = if r != NIL {
            self.nodes.update(r as int, Node { parent: p, ..self.nodes[r as int] })
        } else {
            self.nodes
        };
        let n2 = if p != NIL {
            if self.nodes[p as int].left == x {
                n1.update(p as int, Node { left: r, ..self.nodes[p as int] })
            } else {
                n1.update(p as int, Node { right: r, ..self.nodes[p as int] })
            }
        } else {
            n1
        };
        Graph {
            nodes: n2,
            span: Seq::new(
                self.span.len(),
                |i: int|
                    if i == x {
                        Span { live: false, ..self.span[i] }
                    } else {
                        self.span[i].shifted_down(q)
                    },
            ),
            order: Seq::new(
                (self.order.len() - 1) as nat,
                |k: int|
                    if k < q {
                        self.order[k]
                    } else {
                        self.order[k + 1]
                    },
            ),
            root: if p == NIL {
                r
            } else {
                self.root
            },
        }
    }

    /// The key of `x` does not break the order of the keys next to it.
    pub open spec fn fits(self, x: usize) -> bool {
        let q = self.span[x as int].at;
        &&& q > 0 ==> self.key_at(q - 1) <= self.nodes[x as int].data
        &&& q + 1 < self.order.len() ==> self.nodes[x as int].data < self.key_at(q + 1)
    }

    /// The graph with the key of `x` set to `key`.
    pub open spec fn with_key(self, x: usize, key: i32) -> Graph {
        Graph { nodes: self.nodes.update(x as int, Node { data: key, ..self.nodes[x as int] }), ..self }
    }

    /// The node that comes out when the key of `x` is removed: `x` itself,
    /// or the node that follows it in ascending order where `x` has two
    /// children.
    pub open spec fn leaver(self, x: usize) -> usize {
        if self.nodes[x as int].left != NIL && self.nodes[x as int].right != NIL {
            self.order[self.span[x as int].at + 1]
        } else {
            x
        }
    }

    /// The graph after the key of `x` was taken out, ranks left as they are:
    /// a node with two children takes over the key of the node that
    /// follows it, and that node is taken out in its stead.
    pub open spec fn unlinked(self, x: usize) -> Graph {
        let y = self.leaver(x);
        if y == x {
            self.spliced(x)
        } else {
            self.with_key(x, self.nodes[y as int].data).spliced(y)
        }
    }

    /// The levels between the root and the slot of the node that leaves
    /// when the key of `x` is taken out, counted in the graph without it.
    pub open spec fn unlinked_levels(self, x: usize) -> nat {
        self.unlinked(x).walk_levels(self.nodes[self.leaver(x) as int].parent)
    }

    /// What `spliced` does to the node records and to the set of live nodes.
    pub proof fn lemma_spliced_nodes(self, x: usize)
        requires
            self.shape_ok(),
            self.splice_site(x),
        ensures
            self.spliced(x).nodes.len() == self.nodes.len(),
            self.spliced(x).span.len() == self.span.len(),
            self.spliced(x).order.len() == self.order.len() - 1,
            forall|j: usize| self.spliced(x).live(j) == (self.live(j) && j != x),
            forall|j: usize|
                self.live(j) && j != x && j != self.nodes[x as int].parent && j != self.only_child(
                    x,
                ) ==> #[trigger] self.spliced(x).nodes[j as int] == self.nodes[j as int],
            self.only_child(x) != NIL ==> self.spliced(x).nodes[self.only_child(x) as int] == (Node {
                parent: self.nodes[x as int].parent,
                ..self.nodes[self.only_child(x) as int]
            }),
            self.nodes[x as int].parent != NIL ==> self.spliced(
                x,
            ).nodes[self.nodes[x as int].parent as int] == if self.nodes[self.nodes[x as int].parent as int].left
                == x {
                Node { left: self.only_child(x), ..self.nodes[self.nodes[x as int].parent as int] }
            } else {
                Node { right: self.only_child(x), ..self.nodes[self.nodes[x as int].parent as int] }
            },
            forall|j: int|
                0 <= j < self.span.len() && j != x ==> #[trigger] self.spliced(x).span[j]
                    == self.span[j].shifted_down(self.span[x as int].at),
            self.spliced(x).root == if self.nodes[x as int].parent == NIL {
                self.only_child(x)
            } else {
                self.root
            },
            forall|k: int|
                0 <= k < self.order.len() - 1 ==> #[trigger] self.spliced(x).order[k] == if k
                    < self.span[x as int].at {
                    self.order[k]
                } else {
                    self.order[k + 1]
                },
            self.nodes[x as int].parent != x,
            self.only_child(x) != x,
            self.nodes[x as int].parent != NIL ==> self.nodes[x as int].parent != self.only_child(x),
    {
        reveal(Graph::spliced);
        let r = self.only_child(x);
        let p = self.nodes[x as int].parent;
        assert(self.slot_ok(x));
        if r != NIL {
            assert(self.slot_ok(r));
        }
        if p != NIL {
            assert(self.slot_ok(p));
        }
    }

    /// Taking out a node with at most one child keeps the links consistent.
    #[verifier::rlimit(30)]
    pub proof fn lemma_spliced_shape(self, x: usize)
        requires
            self.shape_ok(),
            self.splice_site(x),
        ensures
            self.spliced(x).shape_ok(),
    {
        self.lemma_spliced_nodes(x);
        let g = self.spliced(x);
        let r = self.only_child(x);
        let p = self.nodes[x as int].parent;
        let q = self.span[x as int].at;
        let n = self.order.len() as int;
        assert(self.slot_ok(x));
        if r != NIL {
            assert(self.slot_ok(r));
        }
        if p != NIL {
            assert(self.slot_ok(p));
        }
        assert forall|i: usize| g.live(i) implies #[trigger] g.slot_ok(i) by {
            assert(self.slot_ok(i));
            let nd = self.nodes[i as int];
            let md = g.nodes[i as int];
            let s = self.span[i as int];
            let t = g.span[i as int];
            assert(t == s.shifted_down(q));
            assert(s.at != q);
            assert(0 <= t.lo <= t.at < t.hi <= g.order.len());
            assert(g.order[t.at] == i);
            assert(md.rank >= 1);
            assert(g.child_ok(md.left, i, t.lo, t.at)) by {
                if nd.left != NIL {
                    assert(self.slot_ok(nd.left));
                }
            }
            assert(g.child_ok(md.right, i, t.at + 1, t.hi)) by {
                if nd.right != NIL {
                    assert(self.slot_ok(nd.right));
                }
            }
            if nd.parent != NIL {
                assert(self.slot_ok(nd.parent));
            }
        }
        assert forall|k: int| 0 <= k < g.order.len() implies g.live(#[trigger] g.order[k])
            && g.span[g.order[k] as int].at == k by {
            if k < q {
                assert(self.live(self.order[k]));
            } else {
                assert(self.live(self.order[k + 1]));
            }
        }
        if self.root != NIL {
            assert(self.slot_ok(self.root));
        }
    }

    /// Taking out a node drops its position from the ascending sequence.
    pub proof fn lemma_spliced_keys(self, x: usize)
        requires
            self.shape_ok(),
            self.splice_site(x),
        ensures
            self.spliced(x).keys_removed(self, self.span[x as int].at),
            self.sorted_but(self.span[x as int].at) ==> self.spliced(x).sorted(),
    {
        self.lemma_spliced_nodes(x);
        let g = self.spliced(x);
        let q = self.span[x as int].at;
        assert(self.slot_ok(x));
        assert forall|k: int| 0 <= k < g.order.len() implies #[trigger] g.key_at(k) == self.key_at(
            if k < q {
                k
            } else {
                k + 1
            },
        ) by {
            let pk = if k < q { k } else { k + 1 };
            let j = self.order[pk];
            assert(self.live(j));
            assert(self.slot_ok(j));
            assert(g.order[k] == j);
            assert(j != x);
        }
        if self.sorted_but(q) {
            assert forall|k1: int, k2: int| 0 <= k1 < k2 < g.order.len() implies g.key_at(k1)
                < g.key_at(k2) by {
                let p1 = if k1 < q { k1 } else { k1 + 1 };
                let p2 = if k2 < q { k2 } else { k2 + 1 };
                assert(g.key_at(k1) == self.key_at(p1));
                assert(g.key_at(k2) == self.key_at(p2));
                assert(self.key_at(p1) < self.key_at(p2));
            }
        }
    }

    /// Taking out a node with at most one child keeps the links consistent,
    /// drops its position from the ascending sequence, and can break the
    /// rank rule at its former parent only.
    pub proof fn lemma_spliced(self, x: usize)
        requires
            self.shape_ok(),
            self.splice_site(x),
        ensures
            self.spliced(x).shape_ok(),
            self.spliced(x).keys_removed(self, self.span[x as int].at),
            self.sorted_but(self.span[x as int].at) ==> self.spliced(x).sorted(),
            self.spliced(x).nodes.len() == self.nodes.len(),
            forall|j: usize| self.spliced(x).live(j) == (self.live(j) && j != x),
            forall|j: usize|
                self.live(j) && j != x && j != self.nodes[x as int].parent && j != self.only_child(
                    x,
                ) ==> #[trigger] self.spliced(x).nodes[j as int] == self.nodes[j as int],
            forall|j: usize|
                self.live(j) && j != x && j != self.nodes[x as int].parent && self.rank_ok(j)
                    ==> #[trigger] self.spliced(x).rank_ok(j),
            self.only_child(x) != NIL ==> self.spliced(x).nodes[self.only_child(x) as int] == (Node {
                parent: self.nodes[x as int].parent,
                ..self.nodes[self.only_child(x) as int]
            }),
            self.nodes[x as int].parent != NIL ==> self.spliced(
                x,
            ).nodes[self.nodes[x as int].parent as int] == if self.nodes[self.nodes[x as int].parent as int].left
                == x {
                Node { left: self.only_child(x), ..self.nodes[self.nodes[x as int].parent as int] }
            } else {
                Node { right: self.only_child(x), ..self.nodes[self.nodes[x as int].parent as int] }
            },
    {
        self.lemma_spliced_nodes(x);
        self.lemma_spliced_shape(x);
        self.lemma_spliced_keys(x);
        let g = self.spliced(x);
        let p = self.nodes[x as int].parent;
        assert forall|j: usize|
            self.live(j) && j != x && j != p && self.rank_ok(j) implies #[trigger] g.rank_ok(
            j,
        ) by {
            assert(self.slot_ok(j));
            let nd = self.nodes[j as int];
            if nd.left != NIL {
                assert(self.slot_ok(nd.left));
            }
            if nd.right != NIL {
                assert(self.slot_ok(nd.right));
            }
        }
    }

    /// The keys ascend strictly along the positions below `c`.
    pub open spec fn sorted_below(self, c: usize) -> bool {
        forall|p1: int, p2: int|
            self.span[c as int].lo <= p1 < p2 < self.span[c as int].hi ==> self.key_at(p1)
                < self.key_at(p2)
    }

    /// The least key below a node is the key at the first position of its
    /// span.
    pub proof fn lemma_min_key(self, c: usize)
        requires
            self.shape_ok(),
            self.live(c),
        ensures
            self.shape_at(c).min_key() == self.key_at(self.span[c as int].lo),
        decreases self.span[c as int].hi - self.span[c as int].lo,
    {
        let nd = self.nodes[c as int];
        assert(self.slot_ok(c));
        self.lemma_unfold(c);
        if nd.left != NIL {
            assert(self.slot_ok(nd.left));
            self.lemma_unfold(nd.left);
            self.lemma_min_key(nd.left);
        }
    }

    /// Changing a key leaves the links consistent.
    pub proof fn lemma_with_key(self, x: usize, key: i32)
        requires
            self.shape_ok(),
            self.live(x),
        ensures
            self.with_key(x, key).shape_ok(),
            forall|j: usize| self.with_key(x, key).live(j) == self.live(j),
    {
        let m = self.with_key(x, key);
        assert forall|i: usize| m.live(i) implies #[trigger] m.slot_ok(i) by {
            assert(self.slot_ok(i));
        }
    }

    /// Taking out `x`, a node with at most one child, prunes the shape below
    /// every node above it by the key of `x`.
    #[verifier::rlimit(30)]
    pub proof fn lemma_spliced_below(self, x: usize, c: usize)
        requires
            self.shape_ok(),
            self.splice_site(x),
            self.live(c),
            c != x,
            self.within(x, c),
            self.sorted_below(c),
        ensures
            self.spliced(x).shape_at(c) == self.shape_at(c).pruned(self.nodes[x as int].data),
        decreases self.span[c as int].hi - self.span[c as int].lo,
    {
        let h = self.spliced(x);
        let nd = self.nodes[c as int];
        let key = self.nodes[x as int].data;
        let r = self.only_child(x);
        let p = self.nodes[x as int].parent;
        self.lemma_spliced_nodes(x);
        self.lemma_spliced_shape(x);
        assert(self.slot_ok(c));
        assert(self.slot_ok(x));
        let at_c = self.span[c as int].at;
        let at_x = self.span[x as int].at;
        assert(self.key_at(at_c) == nd.data);
        assert(self.key_at(at_x) == key);
        let on_left = at_x < at_c;
        let d = if on_left { nd.left } else { nd.right };
        let sib = if on_left { nd.right } else { nd.left };
        if on_left {
            assert(self.key_at(at_x) < self.key_at(at_c));
        } else {
            assert(self.key_at(at_c) < self.key_at(at_x));
        }
        assert(self.slot_ok(d));
        if sib != NIL {
            assert(self.slot_ok(sib));
        }
        self.lemma_unfold(c);
        h.lemma_unfold(c);
        if d != x {
            self.lemma_parent_within(d, x, d);
        }
        assert(self.same_below(h, sib)) by {
            assert forall|j: usize| self.live(j) && self.within(j, sib) implies #[trigger] self.same_node(
                h,
                j,
            ) by {
                assert(h.live(j) == (self.live(j) && j != x));
            }
        }
        self.lemma_shape_frame(h, sib);
        if d == x {
            self.lemma_unfold(x);
            if r != NIL {
                assert(self.slot_ok(r));
            }
            assert(self.same_below(h, r)) by {
                assert forall|j: usize| self.live(j) && self.within(j, r) implies #[trigger] self.same_node(
                    h,
                    j,
                ) by {
                    assert(h.live(j) == (self.live(j) && j != x));
                }
            }
            self.lemma_shape_frame(h, r);
            assert(self.shape_at(x).pruned(key) == self.shape_at(r));
        } else {
            assert(self.sorted_below(d));
            self.lemma_spliced_below(x, d);
            assert(h.nodes[c as int] == nd);
        }
    }

    /// Taking out the key of `x`, a node with two children, prunes the shape
    /// below `x` and below every node above it by that key.
    #[verifier::rlimit(30)]
    pub proof fn lemma_unlinked_below(self, x: usize, c: usize)
        requires
            self.shape_ok(),
            self.sorted(),
            self.live(x),
            self.nodes[x as int].left != NIL,
            self.nodes[x as int].right != NIL,
            self.live(c),
            self.within(x, c),
        ensures
            self.unlinked(x).shape_at(c) == self.shape_at(c).pruned(self.nodes[x as int].data),
        decreases self.span[c as int].hi - self.span[c as int].lo,
    {
        let nx = self.nodes[x as int];
        let key = nx.data;
        let at_x = self.span[x as int].at;
        assert(self.slot_ok(x));
        assert(self.slot_ok(nx.right));
        assert(self.slot_ok(nx.left));
        let y = self.order[at_x + 1];
        assert(self.live(y));
        assert(self.slot_ok(y));
        let s = self.nodes[y as int].data;
        let m = self.with_key(x, s);
        let h = m.spliced(y);
        let r = self.nodes[y as int].right;
        let py = self.nodes[y as int].parent;
        self.lemma_with_key(x, s);
        assert(self.within(y, nx.right));
        if y != nx.right {
            self.lemma_parent_within(nx.right, y, nx.right);
        }
        self.lemma_span_within(nx.right, y, nx.right);
        assert(self.nodes[y as int].left == NIL) by {
            let l = self.nodes[y as int].left;
            if l != NIL {
                assert(self.slot_ok(l));
            }
        }
        if r != NIL {
            assert(self.slot_ok(r));
        }
        assert(m.splice_site(y));
        assert(m.only_child(y) == r);
        m.lemma_spliced_nodes(y);
        m.lemma_spliced_shape(y);
        let nd = self.nodes[c as int];
        assert(self.slot_ok(c));
        let at_c = self.span[c as int].at;
        assert(self.key_at(at_c) == nd.data);
        assert(self.key_at(at_x) == key);
        self.lemma_unfold(c);
        h.lemma_unfold(c);
        if c == x {
            assert(self.same_below(h, nx.left)) by {
                assert forall|j: usize| self.live(j) && self.within(j, nx.left) implies #[trigger] self.same_node(
                    h,
                    j,
                ) by {
                    assert(h.live(j) == (m.live(j) && j != y));
                }
            }
            self.lemma_shape_frame(h, nx.left);
            self.lemma_min_key(nx.right);
            assert(self.key_at(at_x + 1) == s);
            self.lemma_unfold(nx.right);
            self.lemma_unfold(nx.left);
            if y == nx.right {
                if r != NIL {
                    assert(self.slot_ok(r));
                }
                assert(self.same_below(h, r)) by {
                    assert forall|j: usize| self.live(j) && self.within(j, r) implies #[trigger] self.same_node(
                        h,
                        j,
                    ) by {
                        assert(h.live(j) == (m.live(j) && j != y));
                    }
                }
                self.lemma_shape_frame(h, r);
                assert(self.shape_at(y).pruned(s) == self.shape_at(r));
            } else {
                assert(self.same_below(m, nx.right)) by {
                    assert forall|j: usize| self.live(j) && self.within(j, nx.right) implies #[trigger] self.same_node(
                        m,
                        j,
                    ) by {}
                }
                self.lemma_shape_frame(m, nx.right);
                assert(m.sorted_below(nx.right)) by {
                    assert forall|p1: int, p2: int|
                        m.span[nx.right as int].lo <= p1 < p2 < m.span[nx.right as int].hi implies m.key_at(
                        p1,
                    ) < m.key_at(p2) by {
                        assert(self.live(self.order[p1]));
                        assert(self.live(self.order[p2]));
                        assert(self.slot_ok(self.order[p1]));
                        assert(self.slot_ok(self.order[p2]));
                        assert(self.key_at(p1) < self.key_at(p2));
                    }
                }
                m.lemma_spliced_below(y, nx.right);
            }
        } else {
            let on_left = at_x < at_c;
            let d = if on_left { nd.left } else { nd.right };
            let sib = if on_left { nd.right } else { nd.left };
            if on_left {
                assert(self.key_at(at_x) < self.key_at(at_c));
            } else {
                assert(self.key_at(at_c) < self.key_at(at_x));
            }
            assert(self.slot_ok(d));
            if sib != NIL {
                assert(self.slot_ok(sib));
            }
            self.lemma_span_within(d, x, d);
            assert(self.same_below(h, sib)) by {
                assert forall|j: usize| self.live(j) && self.within(j, sib) implies #[trigger] self.same_node(
                    h,
                    j,
                ) by {
                    assert(h.live(j) == (m.live(j) && j != y));
                    assert(j != x && j != y && j != py && (r != NIL ==> j != r));
                }
            }
            self.lemma_shape_frame(h, sib);
            self.lemma_unlinked_below(x, d);
            assert(h.nodes[c as int] == nd);
        }
    }

    /// Taking out the key of a node prunes the shape of the tree by that
    /// key, and the key that leaves is the one that the shape names.
    pub proof fn lemma_unlinked_shape(self, x: usize)
        requires
            self.shape_ok(),
            self.sorted(),
            self.live(x),
        ensures
            self.unlinked(x).shape_at(self.unlinked(x).root) == self.shape_at(self.root).pruned(
                self.nodes[x as int].data,
            ),
            self.nodes[self.leaver(x) as int].data == self.shape_at(self.root).leaving(
                self.nodes[x as int].data,
            ),
    {
        let nx = self.nodes[x as int];
        let root = self.root;
        assert(self.slot_ok(x));
        assert(self.slot_ok(root));
        assert(self.within(x, root));
        self.lemma_subtree(root, x);
        self.lemma_unfold(x);
        if nx.left != NIL {
            assert(self.slot_ok(nx.left));
            self.lemma_unfold(nx.left);
        }
        if nx.right != NIL {
            assert(self.slot_ok(nx.right));
            self.lemma_unfold(nx.right);
        }
        if nx.left != NIL && nx.right != NIL {
            let y = self.order[self.span[x as int].at + 1];
            assert(self.live(y));
            assert(self.slot_ok(y));
            self.lemma_min_key(nx.right);
            self.lemma_unlinked_below(x, root);
            let m = self.with_key(x, self.nodes[y as int].data);
            self.lemma_with_key(x, self.nodes[y as int].data);
            assert(self.within(y, nx.right));
            if y != nx.right {
                self.lemma_parent_within(nx.right, y, nx.right);
            }
            self.lemma_span_within(nx.right, y, nx.right);
            assert(self.nodes[y as int].left == NIL) by {
                let l = self.nodes[y as int].left;
                if l != NIL {
                    assert(self.slot_ok(l));
                }
            }
            assert(m.splice_site(y));
            m.lemma_spliced_nodes(y);
        } else {
            let h = self.spliced(x);
            let r = self.only_child(x);
            self.lemma_spliced_nodes(x);
            self.lemma_spliced_shape(x);
            if x == root {
                if r != NIL {
                    assert(self.slot_ok(r));
                }
                assert(self.same_below(h, r)) by {
                    assert forall|j: usize| self.live(j) && self.within(j, r) implies #[trigger] self.same_node(
                        h,
                        j,
                    ) by {
                        assert(h.live(j) == (self.live(j) && j != x));
                    }
                }
                self.lemma_shape_frame(h, r);
            } else {
                assert(self.sorted_below(root));
                self.lemma_spliced_below(x, root);
            }
        }
    }

    /// Below a node above the parent of the node that leaves, the descent
    /// for the key of that parent in the graph without the leaver is one
    /// node shorter than the descent for the key of the leaver before.
    pub proof fn lemma_levels_below(self, x: usize, c: usize)
        requires
            self.shape_ok(),
            self.sorted(),
            self.live(x),
            self.live(c),
            self.nodes[self.leaver(x) as int].parent != NIL,
            self.within(self.nodes[self.leaver(x) as int].parent, c),
        ensures
            self.unlinked(x).shape_at(c).path_len(
                self.unlinked(x).nodes[self.nodes[self.leaver(x) as int].parent as int].data,
            ) == self.shape_at(c).path_len(self.nodes[self.leaver(x) as int].data) - 1,
        decreases self.span[c as int].hi - self.span[c as int].lo,
    {
        let y = self.leaver(x);
        let u = self.unlinked(x);
        let p0 = self.nodes[y as int].parent;
        let nx = self.nodes[x as int];
        assert(self.slot_ok(x));
        if nx.left != NIL && nx.right != NIL {
            assert(self.slot_ok(nx.right));
            assert(self.live(self.order[self.span[x as int].at + 1]));
            assert(y != x);
        }
        assert(self.slot_ok(y));
        assert(self.slot_ok(p0));
        assert(self.slot_ok(c));
        let key_y = self.nodes[y as int].data;
        let m = if y == x { self } else { self.with_key(x, key_y) };
        if y != x {
            self.lemma_with_key(x, key_y);
            assert(self.within(y, nx.right));
            self.lemma_span_within(nx.right, y, nx.right);
            assert(self.nodes[y as int].left == NIL) by {
                let l = self.nodes[y as int].left;
                if l != NIL {
                    assert(self.slot_ok(l));
                }
            }
            if y != nx.right {
                self.lemma_parent_within(nx.right, y, nx.right);
            }
        }
        assert(m.splice_site(y));
        assert(u == m.spliced(y));
        m.lemma_spliced_nodes(y);
        m.lemma_spliced_shape(y);
        let r = m.only_child(y);
        if r != NIL {
            assert(self.slot_ok(r));
        }
        let at_c = self.span[c as int].at;
        let at_y = self.span[y as int].at;
        let at_p = self.span[p0 as int].at;
        assert(self.key_at(at_c) == self.nodes[c as int].data);
        assert(self.key_at(at_y) == key_y);
        assert(self.key_at(at_p) == self.nodes[p0 as int].data);
        assert(u.live(c));
        assert(u.live(p0));
        let key_p = u.nodes[p0 as int].data;
        self.lemma_descent(c, key_y);
        u.lemma_descent(c, key_p);
        if c == p0 {
            self.lemma_descent(y, key_y);
            if at_y < at_p {
                assert(self.key_at(at_y) < self.key_at(at_p));
            } else {
                assert(self.key_at(at_p) < self.key_at(at_y));
            }
        } else {
            let nd = self.nodes[c as int];
            let on_left = at_p < at_c;
            let d = if on_left { nd.left } else { nd.right };
            assert(self.slot_ok(d));
            self.lemma_span_within(d, p0, d);
            assert(u.nodes[c as int].left == nd.left && u.nodes[c as int].right == nd.right);
            let pos = if p0 == x { at_y } else { at_p };
            assert(self.key_at(pos) == key_p);
            if on_left {
                assert(self.key_at(at_y) < self.key_at(at_c));
                if c == x {
                } else {
                    assert(self.key_at(pos) < self.key_at(at_c));
                }
            } else {
                assert(self.key_at(at_c) < self.key_at(at_y));
                if c == x {
                    assert(at_p > at_y);
                    assert(self.key_at(at_y) < self.key_at(at_p));
                } else {
                    assert(self.key_at(at_c) < self.key_at(pos));
                }
            }
            self.lemma_levels_below(x, d);
        }
    }

    /// The walk after the key of `x` was taken out starts as many levels
    /// below the root as the shape counts nodes above the node that leaves.
    pub proof fn lemma_unlinked_levels(self, x: usize)
        requires
            self.shape_ok(),
            self.sorted(),
            self.live(x),
        ensures
            self.unlinked_levels(x) == self.shape_at(self.root).path_len(
                self.nodes[self.leaver(x) as int].data,
            ) - 1,
    {
        let y = self.leaver(x);
        let p0 = self.nodes[y as int].parent;
        assert(self.slot_ok(x));
        if self.nodes[x as int].left != NIL && self.nodes[x as int].right != NIL {
            assert(self.slot_ok(self.nodes[x as int].right));
            assert(self.live(self.order[self.span[x as int].at + 1]));
            assert(y != x);
        }
        assert(self.slot_ok(y));
        assert(self.slot_ok(self.root));
        if p0 == NIL {
            self.lemma_descent(y, self.nodes[y as int].data);
        } else {
            assert(self.slot_ok(p0));
            assert(self.within(p0, self.root));
            self.lemma_levels_below(x, self.root);
            let key_y = self.nodes[y as int].data;
            let m = if y == x { self } else { self.with_key(x, key_y) };
            if y != x {
                self.lemma_with_key(x, key_y);
                self.lemma_span_within(self.nodes[x as int].right, y, self.nodes[x as int].right);
                assert(self.nodes[y as int].left == NIL) by {
                    let l = self.nodes[y as int].left;
                    if l != NIL {
                        assert(self.slot_ok(l));
                    }
                }
            }
            assert(m.splice_site(y));
            m.lemma_spliced_nodes(y);
        }
    }
}

impl RawTree {
    /// Takes `node`, which has at most the one child `r`, out of the tree:
    /// `r` (which may be `NIL`) takes its place below the former parent, the
    /// slot of `node` goes to the free list, and with `rebalance` the rank
    /// rule is restored from the former parent upwards. Without `rebalance`
    /// no rank and no other link changes.
    #[verifier::rlimit(30)]
    pub(crate) fn replace_node(&mut self, node: usize, r: usize, rebalance: bool)
        requires
            old(self).wf_shape(),
            old(self).graph().splice_site(node),
            r == old(self).graph().only_child(node),
            old(self).graph().sorted_but(old(self).span@[node as int].at),
            old(self).graph().fits(node),
            rebalance ==> old(self).graph().ranks_ok(),
        ensures
            final(self).wf_shape(),
            final(self).graph().sorted(),
            rebalance ==> final(self).graph().ranks_ok(),
            final(self).graph().keys_removed(old(self).graph(), old(self).span@[node as int].at),
            final(self).count == old(self).count,
            final(self).accessed_nodes == old(self).accessed_nodes,
            old(self).rotations <= final(self).rotations <= old(self).rotations + 2,
            !rebalance ==> final(self).rotations == old(self).rotations,
            !rebalance ==> final(self).graph() == old(self).graph().spliced(node),
            final(self).free@ == old(self).free@.push(node),
            rebalance ==> final(self).graph().shape_at(final(self).root) == old(
                self,
            ).graph().spliced(node).shape_at(old(self).graph().spliced(node).root).resettled(
                old(self).nodes@[node as int].data,
                old(self).graph().spliced(node).walk_levels(old(self).nodes@[node as int].parent),
                true,
            ),
            rebalance && old(self).graph().strict_except(NIL) ==> final(self).graph().shape_at(
                final(self).root,
            ).no_double_gap() || old(self).graph().spliced(node).shape_at(
                old(self).graph().spliced(node).root,
            ).resettled_strands(
                old(self).nodes@[node as int].data,
                old(self).graph().spliced(node).walk_levels(old(self).nodes@[node as int].parent),
                true,
            ),
            rebalance ==> final(self).rotations == counted(
                old(self).rotations as nat,
                old(self).graph().spliced(node).shape_at(
                    old(self).graph().spliced(node).root,
                ).resettled_turns(
                    old(self).nodes@[node as int].data,
                    old(self).graph().spliced(node).walk_levels(
                        old(self).nodes@[node as int].parent,
                    ),
                ),
            ),
            rebalance ==> old(self).graph().spliced(node).shape_at(
                old(self).graph().spliced(node).root,
            ).resettled_turns(
                old(self).nodes@[node as int].data,
                old(self).graph().spliced(node).walk_levels(old(self).nodes@[node as int].parent),
            ) <= 2,
    {
        let ghost g = self.graph();
        let ghost q = g.span[node as int].at;
        let ghost gone = g.nodes[node as int].data;
        let ghost on_left = g.nodes[g.nodes[node as int].parent as int].left == node;
        proof {
            g.lemma_spliced(node);
            assert(g.slot_ok(node));
            if r != NIL {
                assert(g.slot_ok(r));
            }
            if rebalance && g.strict_except(NIL) {
                g.lemma_spliced_strict(node);
            }
        }
        let parent: usize = self.nodes[node].parent;
        proof {
            if parent != NIL {
                assert(g.slot_ok(parent));
            }
            assert(parent != node && r != node && (parent != NIL ==> parent != r));
        }
        if parent == NIL {
            self.root = r;
            if r != NIL {
                self.nodes[r].parent = NIL;
            }
        } else {
            if r != NIL {
                self.nodes[r].parent = parent;
            }
            if self.nodes[parent].left == node {
                self.nodes[parent].left = r;
            } else if self.nodes[parent].right == node {
                self.nodes[parent].right = r;
            }
        }
        self.free.push(node);
        proof {
            reveal(Graph::spliced);
            let post = g.spliced(node);
            self.order@ = post.order;
            self.span@ = post.span;
            assert(self.graph().nodes =~= post.nodes);
            assert(self.graph() == post);
            assert forall|k: int| 0 <= k < self.free@.len() implies (#[trigger] self.free@[k])
                < self.nodes@.len() && !self.span@[self.free@[k] as int].live by {
                if k < old(self).free@.len() {
                    assert(self.free@[k] == old(self).free@[k]);
                }
            }
            assert forall|k: int, l: int| 0 <= k < l < self.free@.len() implies self.free@[k]
                != self.free@[l] by {
                if l < old(self).free@.len() {
                    assert(old(self).free@[k] != old(self).free@[l]);
                } else {
                    assert(self.free@[k] == old(self).free@[k]);
                }
            }
        }
        let ghost t1 = *self;
        if rebalance {
            proof {
                let g1 = self.graph();
                assert(g.rank_ok(node));
                if parent != NIL {
                    assert(g.rank_ok(parent));
                    let sib = g.sibling_of(node, parent);
                    if sib != NIL {
                        assert(g.slot_ok(sib));
                    }
                }
                if r != NIL {
                    assert(g.rank_ok(r));
                }
                assert(g1.ranks_ok_except(parent)) by {
                    assert forall|j: usize| g1.live(j) && j != parent implies #[trigger] g1.rank_ok(
                        j,
                    ) by {
                        assert(g.rank_ok(j));
                    }
                }
                assert(g1.delete_pending(r, parent));
                g.lemma_spliced_nodes(node);
                assert(g1.keys_removed(g, q));
                if q > 0 {
                    assert(g1.key_at(q - 1) == g.key_at(q - 1));
                }
                if q < g1.order.len() {
                    assert(g1.key_at(q) == g.key_at(q + 1));
                }
                if parent != NIL {
                    assert(g1.span[parent as int] == g.span[parent as int].shifted_down(q));
                    assert(g1.gap_at(
                        gone,
                        q,
                        g1.slot_lo(parent, on_left),
                        g1.slot_hi(parent, on_left),
                    ));
                }
            }
            self.balance_deleted(r, parent, Ghost(on_left), Ghost(gone), Ghost(q));
            proof {
                self.lemma_rebalanced_keys(&t1);
                let g1 = t1.graph();
                let g2 = self.graph();
                assert(g2.keys_removed(g, q)) by {
                    assert forall|p: int| 0 <= p < g2.order.len() implies g2.key_at(p) == g1.key_at(
                        p,
                    ) by {
                        assert(self@[p].0 == t1@[p].0);
                    }
                }
            }
        }
    }
}

} // verus!
