//! Left and right rotation.

use vstd::prelude::*;
use crate::arena::{Graph, Span};
use crate::node::{Node, NIL};
use crate::raw::RawTree;

verus! {

impl Graph {
    /// The graph after a left rotation at `x`: the right child `y` of `x`
    /// takes the place of `x`, `x` becomes the left child of `y`, and the
    /// former left subtree of `y` becomes the right subtree of `x`.
    #[verifier::opaque]
    pub open spec fn rotated_left(self, x: usize) -> Graph {
        let y = self.nodes[x as int].right;
        let b = self.nodes[y as int].left;
        let p = self.nodes[x as int].parent;
        let n1 = self.nodes.update(x as int, Node { right: b, parent: y, ..self.nodes[x as int] })
            .update(y as int, Node { left: x, parent: p, ..self.nodes[y as int] });
        let n2 = if b != NIL {
            n1.update(b as int, Node { parent: x, ..self.nodes[b as int] })
        } else {
            n1
        };
        let n3 = if p != NIL {
            if self.nodes[p as int].left == x {
                n2.update(p as int, Node { left: y, ..self.nodes[p as int] })
            } else {
                n2.update(p as int, Node { right: y, ..self.nodes[p as int] })
            }
        } else {
            n2
        };
        Graph {
            nodes: n3,
            span: self.span.update(x as int, Span { hi: self.span[y as int].at, ..self.span[x as int] })
                .update(y as int, Span { lo: self.span[x as int].lo, ..self.span[y as int] }),
            order: self.order,
            root: if p == NIL {
                y
            } else {
                self.root
            },
        }
    }

    /// What a left rotation at `x` changes, link by link: `post` is `self`
    /// but for the links among `x`, its right child, that child's left
    /// child and the parent of `x`.
    pub open spec fn left_rotation(self, post: Graph, x: usize) -> bool {
        let y = self.nodes[x as int].right;
        let b = self.nodes[y as int].left;
        let p = self.nodes[x as int].parent;
        &&& post.order == self.order
        &&& post.nodes.len() == self.nodes.len()
        &&& post.span.len() == self.span.len()
        &&& post.root == if p == NIL {
            y
        } else {
            self.root
        }
        &&& post.nodes[x as int] == (Node { right: b, parent: y, ..self.nodes[x as int] })
        &&& post.nodes[y as int] == (Node { left: x, parent: p, ..self.nodes[y as int] })
        &&& b != NIL ==> post.nodes[b as int] == (Node { parent: x, ..self.nodes[b as int] })
        &&& p != NIL ==> post.nodes[p as int] == if self.nodes[p as int].left == x {
            Node { left: y, ..self.nodes[p as int] }
        } else {
            Node { right: y, ..self.nodes[p as int] }
        }
        &&& forall|j: int|
            0 <= j < self.nodes.len() && j != x && j != y && j != b && j != p
                ==> #[trigger] post.nodes[j] == self.nodes[j]
        &&& forall|j: int|
            0 <= j < self.span.len() ==> (#[trigger] post.span[j]).live == self.span[j].live
        &&& forall|j: usize|
            self.live(j) && j != x && j != y && j != p && self.rank_ok(j)
                ==> #[trigger] post.rank_ok(j)
    }

    /// The graph after a right rotation at `x`: the left child `y` of `x`
    /// takes the place of `x`, `x` becomes the right child of `y`, and the
    /// former right subtree of `y` becomes the left subtree of `x`.
    #[verifier::opaque]
    pub open spec fn rotated_right(self, x: usize) -> Graph {
        let y = self.nodes[x as int].left;
        let b = self.nodes[y as int].right;
        let p = self.nodes[x as int].parent;
        let n1 = self.nodes.update(x as int, Node { left: b, parent: y, ..self.nodes[x as int] })
            .update(y as int, Node { right: x, parent: p, ..self.nodes[y as int] });
        let n2 = if b != NIL {
            n1.update(b as int, Node { parent: x, ..self.nodes[b as int] })
        } else {
            n1
        };
        let n3 = if p != NIL {
            if self.nodes[p as int].right == x {
                n2.update(p as int, Node { right: y, ..self.nodes[p as int] })
            } else {
                n2.update(p as int, Node { left: y, ..self.nodes[p as int] })
            }
        } else {
            n2
        };
        Graph {
            nodes: n3,
            span: self.span.update(x as int, Span { lo: self.span[y as int].at + 1, ..self.span[x as int] })
                .update(y as int, Span { hi: self.span[x as int].hi, ..self.span[y as int] }),
            order: self.order,
            root: if p == NIL {
                y
            } else {
                self.root
            },
        }
    }

    /// What a right rotation at `x` changes, link by link: `post` is `self`
    /// but for the links among `x`, its left child, that child's right
    /// child and the parent of `x`.
    pub open spec fn right_rotation(self, post: Graph, x: usize) -> bool {
        let y = self.nodes[x as int].left;
        let b = self.nodes[y as int].right;
        let p = self.nodes[x as int].parent;
        &&& post.order == self.order
        &&& post.nodes.len() == self.nodes.len()
        &&& post.span.len() == self.span.len()
        &&& post.root == if p == NIL {
            y
        } else {
            self.root
        }
        &&& post.nodes[x as int] == (Node { left: b, parent: y, ..self.nodes[x as int] })
        &&& post.nodes[y as int] == (Node { right: x, parent: p, ..self.nodes[y as int] })
        &&& b != NIL ==> post.nodes[b as int] == (Node { parent: x, ..self.nodes[b as int] })
        &&& p != NIL ==> post.nodes[p as int] == if self.nodes[p as int].right == x {
            Node { right: y, ..self.nodes[p as int] }
        } else {
            Node { left: y, ..self.nodes[p as int] }
        }
        &&& forall|j: int|
            0 <= j < self.nodes.len() && j != x && j != y && j != b && j != p
                ==> #[trigger] post.nodes[j] == self.nodes[j]
        &&& forall|j: int|
            0 <= j < self.span.len() ==> (#[trigger] post.span[j]).live == self.span[j].live
        &&& forall|j: usize|
            self.live(j) && j != x && j != y && j != p && self.rank_ok(j)
                ==> #[trigger] post.rank_ok(j)
    }

    /// A left rotation keeps the links consistent and the ascending
    /// sequence as it was, and changes what `left_rotation` says.
    #[verifier::rlimit(30)]
    pub proof fn lemma_rotated_left(self, x: usize)
        requires
            self.shape_ok(),
            self.live(x),
            self.nodes[x as int].right != NIL,
        ensures
            self.rotated_left(x).shape_ok(),
            self.rotated_left(x).entries() == self.entries(),
            self.left_rotation(self.rotated_left(x), x),
    {
        reveal(Graph::rotated_left);
        let g = self.rotated_left(x);
        let y = self.nodes[x as int].right;
        let b = self.nodes[y as int].left;
        let p = self.nodes[x as int].parent;
        assert(self.slot_ok(x));
        assert(self.slot_ok(y));
        if b != NIL {
            assert(self.slot_ok(b));
        }
        if p != NIL {
            assert(self.slot_ok(p));
        }
        assert(x != y && b != x && b != y && p != x && p != y && (p != NIL ==> p != b));
        assert forall|i: usize| g.live(i) implies #[trigger] g.slot_ok(i) by {
            assert(self.slot_ok(i));
            if i != x && i != y && i != b && i != p {
                let nd = self.nodes[i as int];
                assert(g.nodes[i as int] == nd);
                assert(nd.left != x && nd.left != y && (b != NIL ==> nd.left != b));
                assert(nd.right != x && nd.right != y && (b != NIL ==> nd.right != b));
                if nd.left != NIL {
                    assert(self.slot_ok(nd.left));
                }
                if nd.right != NIL {
                    assert(self.slot_ok(nd.right));
                }
            }
        }
        assert(g.entries() =~= self.entries());
        assert forall|j: usize|
            self.live(j) && j != x && j != y && j != p && self.rank_ok(j) implies #[trigger] g.rank_ok(
            j,
        ) by {
            assert(self.slot_ok(j));
        }
    }

    /// A right rotation keeps the links consistent and the ascending
    /// sequence as it was, and changes what `right_rotation` says.
    #[verifier::rlimit(30)]
    pub proof fn lemma_rotated_right(self, x: usize)
        requires
            self.shape_ok(),
            self.live(x),
            self.nodes[x as int].left != NIL,
        ensures
            self.rotated_right(x).shape_ok(),
            self.rotated_right(x).entries() == self.entries(),
            self.right_rotation(self.rotated_right(x), x),
    {
        reveal(Graph::rotated_right);
        let g = self.rotated_right(x);
        let y = self.nodes[x as int].left;
        let b = self.nodes[y as int].right;
        let p = self.nodes[x as int].parent;
        assert(self.slot_ok(x));
        assert(self.slot_ok(y));
        if b != NIL {
            assert(self.slot_ok(b));
        }
        if p != NIL {
            assert(self.slot_ok(p));
        }
        assert(x != y && b != x && b != y && p != x && p != y && (p != NIL ==> p != b));
        assert forall|i: usize| g.live(i) implies #[trigger] g.slot_ok(i) by {
            assert(self.slot_ok(i));
            if i != x && i != y && i != b && i != p {
                let nd = self.nodes[i as int];
                assert(g.nodes[i as int] == nd);
                assert(nd.left != x && nd.left != y && (b != NIL ==> nd.left != b));
                assert(nd.right != x && nd.right != y && (b != NIL ==> nd.right != b));
                if nd.left != NIL {
                    assert(self.slot_ok(nd.left));
                }
                if nd.right != NIL {
                    assert(self.slot_ok(nd.right));
                }
            }
        }
        assert(g.entries() =~= self.entries());
        assert forall|j: usize|
            self.live(j) && j != x && j != y && j != p && self.rank_ok(j) implies #[trigger] g.rank_ok(
            j,
        ) by {
            assert(self.slot_ok(j));
        }
    }
}

impl RawTree {
    /// Rotates left at `x`, whose right child takes its place. Keys, ranks
    /// and the ascending sequence stay as they are.
    pub(crate) fn rotate_left(&mut self, x: usize)
        requires
            old(self).wf_shape(),
            old(self).graph().live(x),
            old(self).nodes@[x as int].right != NIL,
        ensures
            final(self).wf_shape(),
            final(self).graph() == old(self).graph().rotated_left(x),
            old(self).graph().left_rotation(final(self).graph(), x),
            final(self)@ == old(self)@,
            final(self).rebalanced_from(old(self)),
            final(self).rotations == old(self).rotations,
    {
        let ghost pre = self.graph();
        proof {
            pre.lemma_rotated_left(x);
            assert(pre.slot_ok(x));
        }
        let y: usize = self.nodes[x].right;
        proof {
            assert(pre.slot_ok(y));
        }
        let b: usize = self.nodes[y].left;
        let p: usize = self.nodes[x].parent;
        proof {
            if b != NIL {
                assert(pre.slot_ok(b));
            }
            if p != NIL {
                assert(pre.slot_ok(p));
            }
            assert(x != y && b != x && b != y && p != x && p != y && (p != NIL ==> p != b));
        }
        self.nodes[x].right = b;
        if b != NIL {
            self.nodes[b].parent = x;
        }
        self.nodes[y].parent = p;
        if p == NIL {
            self.root = y;
        } else if self.nodes[p].left == x {
            self.nodes[p].left = y;
        } else {
            self.nodes[p].right = y;
        }
        self.nodes[y].left = x;
        self.nodes[x].parent = y;
        proof {
            reveal(Graph::rotated_left);
            reveal(RawTree::rebalanced_from);
            self.span@ = pre.rotated_left(x).span;
            assert(self.graph().nodes =~= pre.rotated_left(x).nodes);
            assert(self.graph() == pre.rotated_left(x));
        }
    }

    /// Rotates right at `x`, whose left child takes its place. Keys, ranks
    /// and the ascending sequence stay as they are.
    pub(crate) fn rotate_right(&mut self, x: usize)
        requires
            old(self).wf_shape(),
            old(self).graph().live(x),
            old(self).nodes@[x as int].left != NIL,
        ensures
            final(self).wf_shape(),
            final(self).graph() == old(self).graph().rotated_right(x),
            old(self).graph().right_rotation(final(self).graph(), x),
            final(self)@ == old(self)@,
            final(self).rebalanced_from(old(self)),
            final(self).rotations == old(self).rotations,
    {
        let ghost pre = self.graph();
        proof {
            pre.lemma_rotated_right(x);
            assert(pre.slot_ok(x));
        }
        let y: usize = self.nodes[x].left;
        proof {
            assert(pre.slot_ok(y));
        }
        let b: usize = self.nodes[y].right;
        let p: usize = self.nodes[x].parent;
        proof {
            if b != NIL {
                assert(pre.slot_ok(b));
            }
            if p != NIL {
                assert(pre.slot_ok(p));
            }
            assert(x != y && b != x && b != y && p != x && p != y && (p != NIL ==> p != b));
        }
        self.nodes[x].left = b;
        if b != NIL {
            self.nodes[b].parent = x;
        }
        self.nodes[y].parent = p;
        if p == NIL {
            self.root = y;
        } else if self.nodes[p].right == x {
            self.nodes[p].right = y;
        } else {
            self.nodes[p].left = y;
        }
        self.nodes[y].right = x;
        self.nodes[x].parent = y;
        proof {
            reveal(Graph::rotated_right);
            reveal(RawTree::rebalanced_from);
            self.span@ = pre.rotated_right(x).span;
            assert(self.graph().nodes =~= pre.rotated_right(x).nodes);
            assert(self.graph() == pre.rotated_right(x));
        }
    }
}

} // verus!
