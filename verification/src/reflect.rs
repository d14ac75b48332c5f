//! The shape that the links of the arena describe.

use vstd::prelude::*;
use crate::arena::Graph;
use crate::node::NIL;
use crate::raw::RawTree;
use crate::shape::Shape;

verus! {

impl Graph {
    /// The number of positions below `c`, where `c` is a node with
    /// consistent links; 0 otherwise.
    pub open spec fn width(self, c: usize) -> nat {
        if c != NIL && self.live(c) && self.slot_ok(c) {
            (self.span[c as int].hi - self.span[c as int].lo) as nat
        } else {
            0
        }
    }

    /// The subtree below the child slot `c`, read off the links.
    pub open spec fn shape_at(self, c: usize) -> Shape
        decreases self.width(c),
    {
        if c != NIL && self.live(c) && self.slot_ok(c) {
            let nd = self.nodes[c as int];
            Shape::Fork {
                left: Box::new(self.shape_at(nd.left)),
                key: nd.data,
                rank: nd.rank,
                right: Box::new(self.shape_at(nd.right)),
            }
        } else {
            Shape::Nil
        }
    }

    /// The subtree that is read off the links below a node has the rank of
    /// that node at its root, walks in order through the positions of the
    /// node's span, and obeys the rank rule where all the nodes below do.
    pub proof fn lemma_shape_at(self, c: usize)
        requires
            self.shape_ok(),
            self.live(c),
        ensures
            self.shape_at(c) is Fork,
            self.shape_at(c).rank_of() == self.nodes[c as int].rank,
            self.shape_at(c).root_key() == Some(self.nodes[c as int].data),
            self.shape_at(c).entries() == self.entries().subrange(
                self.span[c as int].lo,
                self.span[c as int].hi,
            ),
            self.subtree_ranks_ok(c) ==> self.shape_at(c).obeys_rank_rule(),
        decreases self.span[c as int].hi - self.span[c as int].lo,
    {
        let nd = self.nodes[c as int];
        let s = self.span[c as int];
        assert(self.slot_ok(c));
        let l = self.shape_at(nd.left);
        let r = self.shape_at(nd.right);
        if nd.left != NIL {
            assert(self.slot_ok(nd.left));
            self.lemma_shape_at(nd.left);
        }
        if nd.right != NIL {
            assert(self.slot_ok(nd.right));
            self.lemma_shape_at(nd.right);
        }
        assert(l.entries() =~= self.entries().subrange(s.lo, s.at));
        assert(r.entries() =~= self.entries().subrange(s.at + 1, s.hi));
        assert(self.entries()[s.at] == (nd.data, nd.rank));
        assert(self.shape_at(c).entries() =~= self.entries().subrange(s.lo, s.hi));
        if self.subtree_ranks_ok(c) {
            assert(self.rank_ok(c));
            if nd.left != NIL {
                assert(self.subtree_ranks_ok(nd.left));
            } else {
                assert(l == Shape::Nil);
            }
            if nd.right != NIL {
                assert(self.subtree_ranks_ok(nd.right));
            } else {
                assert(r == Shape::Nil);
            }
            assert(l.rank_of() == self.rank_of(nd.left));
            assert(r.rank_of() == self.rank_of(nd.right));
            assert(l.obeys_rank_rule());
            assert(r.obeys_rank_rule());
            assert(self.shape_at(c) == Shape::Fork {
                left: Box::new(l),
                key: nd.data,
                rank: nd.rank,
                right: Box::new(r),
            });
            assert(self.shape_at(c).obeys_rank_rule());
        }
    }

    /// The node `j` lies in the subtree below `c`.
    pub open spec fn within(self, j: usize, c: usize) -> bool {
        c != NIL && self.span[c as int].lo <= self.span[j as int].at < self.span[c as int].hi
    }

    /// The node `j` has in `other` the key, rank and children that it has in
    /// `self`.
    pub open spec fn same_node(self, other: Graph, j: usize) -> bool {
        &&& other.live(j)
        &&& other.nodes[j as int].data == self.nodes[j as int].data
        &&& other.nodes[j as int].rank == self.nodes[j as int].rank
        &&& other.nodes[j as int].left == self.nodes[j as int].left
        &&& other.nodes[j as int].right == self.nodes[j as int].right
    }

    /// Every node below `c` has in `other` the key, rank and children that
    /// it has in `self`.
    pub open spec fn same_below(self, other: Graph, c: usize) -> bool {
        forall|j: usize| self.live(j) && self.within(j, c) ==> #[trigger] self.same_node(other, j)
    }

    /// The shape below a slot depends on the keys, ranks and children of the
    /// nodes below it alone.
    pub proof fn lemma_shape_frame(self, other: Graph, c: usize)
        requires
            self.shape_ok(),
            other.shape_ok(),
            c != NIL ==> self.live(c),
            self.same_below(other, c),
        ensures
            other.shape_at(c) == self.shape_at(c),
        decreases self.width(c),
    {
        if c != NIL {
            let nd = self.nodes[c as int];
            assert(self.slot_ok(c));
            assert(self.within(c, c));
            assert(self.same_node(other, c));
            assert(other.slot_ok(c));
            if nd.left != NIL {
                assert(self.slot_ok(nd.left));
            }
            if nd.right != NIL {
                assert(self.slot_ok(nd.right));
            }
            assert(self.same_below(other, nd.left)) by {
                assert forall|j: usize| self.live(j) && self.within(j, nd.left) implies #[trigger] self.same_node(
                    other,
                    j,
                ) by {
                    assert(self.within(j, c));
                }
            }
            assert(self.same_below(other, nd.right)) by {
                assert forall|j: usize| self.live(j) && self.within(j, nd.right) implies #[trigger] self.same_node(
                    other,
                    j,
                ) by {
                    assert(self.within(j, c));
                }
            }
            self.lemma_shape_frame(other, nd.left);
            self.lemma_shape_frame(other, nd.right);
        }
    }

    /// The shape below a node, one level unfolded.
    pub proof fn lemma_unfold(self, c: usize)
        requires
            self.shape_ok(),
            self.live(c),
        ensures
            self.shape_at(NIL) == Shape::Nil,
            self.shape_at(c) == crate::shape::fork(
                self.shape_at(self.nodes[c as int].left),
                self.nodes[c as int].data,
                self.nodes[c as int].rank as int,
                self.shape_at(self.nodes[c as int].right),
            ),
    {
        assert(self.slot_ok(c));
    }

    /// One step of a descent for `key`, as the shape sees it.
    pub proof fn lemma_descent(self, c: usize, key: i32)
        requires
            self.shape_ok(),
            self.live(c),
        ensures
            self.shape_at(NIL) == Shape::Nil,
            key == self.nodes[c as int].data ==> self.shape_at(c).misses(key) == 0 && self.shape_at(
                c,
            ).path_len(key) == 1,
            key < self.nodes[c as int].data ==> self.shape_at(c).misses(key) == 1 + self.shape_at(
                self.nodes[c as int].left,
            ).misses(key) && self.shape_at(c).path_len(key) == 1 + self.shape_at(
                self.nodes[c as int].left,
            ).path_len(key),
            key > self.nodes[c as int].data ==> self.shape_at(c).misses(key) == 1 + self.shape_at(
                self.nodes[c as int].right,
            ).misses(key) && self.shape_at(c).path_len(key) == 1 + self.shape_at(
                self.nodes[c as int].right,
            ).path_len(key),
    {
        assert(self.slot_ok(c));
        let nd = self.nodes[c as int];
        assert(self.shape_at(c) == Shape::Fork {
            left: Box::new(self.shape_at(nd.left)),
            key: nd.data,
            rank: nd.rank,
            right: Box::new(self.shape_at(nd.right)),
        });
    }

    /// Descending in search order from a node finds the subtree of each
    /// node below it.
    pub proof fn lemma_subtree(self, a: usize, c: usize)
        requires
            self.shape_ok(),
            self.sorted(),
            self.live(a),
            self.live(c),
            self.span[a as int].lo <= self.span[c as int].at < self.span[a as int].hi,
        ensures
            self.shape_at(a).subtree(self.nodes[c as int].data) == self.shape_at(c),
        decreases self.span[a as int].hi - self.span[a as int].lo,
    {
        let nd = self.nodes[a as int];
        assert(self.slot_ok(a));
        assert(self.slot_ok(c));
        let pa = self.span[a as int].at;
        let pc = self.span[c as int].at;
        assert(self.key_at(pa) == nd.data);
        assert(self.key_at(pc) == self.nodes[c as int].data);
        if pc == pa {
        } else if pc < pa {
            assert(self.key_at(pc) < self.key_at(pa));
            assert(self.slot_ok(nd.left));
            self.lemma_subtree(nd.left, c);
        } else {
            assert(self.key_at(pa) < self.key_at(pc));
            assert(self.slot_ok(nd.right));
            self.lemma_subtree(nd.right, c);
        }
    }
}

impl RawTree {
    /// The tree as a mathematical value, read off the links from the root.
    pub open(crate) spec fn shape(&self) -> Shape {
        self.graph().shape_at(self.root)
    }

    /// The shape of a well-formed tree walks in order through its view and
    /// obeys the rank rule.
    pub(crate) proof fn lemma_shape(&self)
        requires
            self.wf(),
        ensures
            self.shape().entries() == self@,
            self.shape().obeys_rank_rule(),
            self@.len() <= usize::MAX,
    {
        let g = self.graph();
        if self.root != NIL {
            g.lemma_shape_at(self.root);
            assert(g.slot_ok(self.root));
            assert(self@.subrange(0, self@.len() as int) =~= self@);
        } else {
            assert(self@ =~= Seq::<(i32, i32)>::empty());
        }
    }

    /// The key and rank of each node by ascending key, with the keys of its
    /// left and of its right child.
    pub(crate) fn links(&self) -> (v: Vec<(i32, i32, Option<i32>, Option<i32>)>)
        requires
            self.wf(),
        ensures
            v@.len() == self@.len(),
            forall|p: int|
                0 <= p < v@.len() ==> self.shape().has_link(self@[p], #[trigger] v@[p]),
    {
        let ghost g = self.graph();
        let mut v: Vec<(i32, i32, Option<i32>, Option<i32>)> = Vec::new();
        if self.root != NIL {
            proof {
                assert(g.slot_ok(self.root));
            }
            let mut node: usize = self.leftmost_child(self.root);
            proof {
                assert(g.slot_ok(node));
            }
            loop
                invariant
                    self.wf(),
                    g == self.graph(),
                    self.root != NIL,
                    v@.len() <= g.order.len(),
                    node == if v@.len() < g.order.len() {
                        g.order[v@.len() as int]
                    } else {
                        NIL
                    },
                    node != NIL ==> g.live(node) && g.span[node as int].at == v@.len(),
                    forall|p: int|
                        0 <= p < v@.len() ==> self.shape().has_link(self@[p], #[trigger] v@[p]),
                ensures
                    v@.len() == g.order.len(),
                decreases g.order.len() - v@.len(),
            {
                if node == NIL {
                    break ;
                }
                let ghost k = v@.len() as int;
                let ghost before = v@;
                let left: usize = self.nodes[node].left;
                let right: usize = self.nodes[node].right;
                proof {
                    assert(g.slot_ok(node));
                    assert(g.slot_ok(self.root));
                    g.lemma_subtree(self.root, node);
                    g.lemma_shape_at(node);
                    if left != NIL {
                        g.lemma_shape_at(left);
                    }
                    if right != NIL {
                        g.lemma_shape_at(right);
                    }
                }
                let left_key: Option<i32> = if left == NIL {
                    None
                } else {
                    Some(self.nodes[left].data)
                };
                let right_key: Option<i32> = if right == NIL {
                    None
                } else {
                    Some(self.nodes[right].data)
                };
                v.push((self.nodes[node].data, self.nodes[node].rank, left_key, right_key));
                node = self.successor_of_node(node);
                proof {
                    assert forall|p: int| 0 <= p < k implies v@[p] == before[p] by {}
                    if node != NIL {
                        assert(g.slot_ok(node));
                    }
                }
            }
        }
        v
    }
}

} // verus!
