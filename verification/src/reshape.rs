//! How changes to the arena change the shape: changes of rank, rotations,
//! and the replacement of one subtree by another.

use vstd::prelude::*;
use crate::arena::Graph;
use crate::node::{Node, NIL};

verus! {

impl Graph {
    /// The node `j`, which lies outside the subtree that stood below `c`, is
    /// in `other` what it is in `self`, but that a link to `c` has become a
    /// link to `top`.
    pub open spec fn same_outside(self, other: Graph, j: usize, c: usize, top: usize) -> bool {
        let old_node = self.nodes[j as int];
        let new_node = other.nodes[j as int];
        &&& other.live(j)
        &&& other.span[j as int] == self.span[j as int]
        &&& new_node.data == old_node.data
        &&& new_node.rank == old_node.rank
        &&& new_node.parent == old_node.parent
        &&& new_node.left == if old_node.left == c {
            top
        } else {
            old_node.left
        }
        &&& new_node.right == if old_node.right == c {
            top
        } else {
            old_node.right
        }
    }

    /// `other` is `self` but for the subtree that stood below `c`, whose
    /// nodes now stand below `top`, at the same positions and in the same
    /// place of the tree.
    pub open spec fn replaced_below(self, other: Graph, c: usize, top: usize) -> bool {
        &&& other.order == self.order
        &&& other.nodes.len() == self.nodes.len()
        &&& other.span.len() == self.span.len()
        &&& forall|j: int|
            0 <= j < self.span.len() ==> (#[trigger] other.span[j]).at == self.span[j].at
                && other.span[j].live == self.span[j].live
        &&& self.live(top)
        &&& self.within(top, c)
        &&& other.span[top as int].lo == self.span[c as int].lo
        &&& other.span[top as int].hi == self.span[c as int].hi
        &&& other.nodes[top as int].parent == self.nodes[c as int].parent
        &&& other.root == if self.nodes[c as int].parent == NIL {
            top
        } else {
            self.root
        }
        &&& forall|j: usize|
            self.live(j) && !self.within(j, c) ==> #[trigger] self.same_outside(other, j, c, top)
    }

    /// The parent of a node that lies below `c` lies below `c` too, or is
    /// `c`.
    pub proof fn lemma_parent_within(self, c: usize, v: usize, a: usize)
        requires
            self.shape_ok(),
            self.live(a),
            self.live(v),
            self.within(a, c),
            self.span[c as int].lo <= self.span[a as int].lo,
            self.span[a as int].hi <= self.span[c as int].hi,
            self.within(v, a),
            v != a,
        ensures
            self.within(self.nodes[v as int].parent, c),
        decreases self.span[a as int].hi - self.span[a as int].lo,
    {
        let nd = self.nodes[a as int];
        assert(self.slot_ok(a));
        assert(self.slot_ok(v));
        let d = if self.span[v as int].at < self.span[a as int].at {
            nd.left
        } else {
            nd.right
        };
        assert(self.slot_ok(d));
        if d != v {
            self.lemma_parent_within(c, v, d);
        }
    }

    /// The span of a node that lies below `c` lies within the span of `c`.
    pub proof fn lemma_span_within(self, c: usize, v: usize, a: usize)
        requires
            self.shape_ok(),
            self.live(a),
            self.live(v),
            self.span[c as int].lo <= self.span[a as int].lo,
            self.span[a as int].hi <= self.span[c as int].hi,
            self.within(v, a),
        ensures
            self.span[c as int].lo <= self.span[v as int].lo,
            self.span[v as int].hi <= self.span[c as int].hi,
        decreases self.span[a as int].hi - self.span[a as int].lo,
    {
        let nd = self.nodes[a as int];
        assert(self.slot_ok(a));
        assert(self.slot_ok(v));
        if v != a {
            let d = if self.span[v as int].at < self.span[a as int].at {
                nd.left
            } else {
                nd.right
            };
            assert(self.slot_ok(d));
            self.lemma_span_within(c, v, d);
        }
    }

    /// Replacements below the same place of the tree compose.
    #[verifier::rlimit(30)]
    pub proof fn lemma_replaced_trans(self, mid: Graph, last: Graph, c: usize, top: usize, end: usize)
        requires
            self.shape_ok(),
            mid.shape_ok(),
            self.live(c),
            self.replaced_below(mid, c, top),
            mid.replaced_below(last, top, end),
        ensures
            self.replaced_below(last, c, end),
    {
        assert(self.slot_ok(c));
        assert(mid.slot_ok(top));
        assert(self.within(c, c));
        if top != c {
            self.lemma_parent_within(c, top, c);
        }
        assert forall|j: int| 0 <= j < self.span.len() implies (#[trigger] last.span[j]).at
            == self.span[j].at && last.span[j].live == self.span[j].live by {
            assert(mid.span[j].at == self.span[j].at);
        }
        assert(mid.span[end as int].at == self.span[end as int].at);
        assert(mid.span[top as int].at == self.span[top as int].at);
        assert forall|j: usize| self.live(j) && !self.within(j, c) implies #[trigger] self.same_outside(
            last,
            j,
            c,
            end,
        ) by {
            assert(self.same_outside(mid, j, c, top));
            assert(mid.span[j as int].at == self.span[j as int].at);
            assert(!mid.within(j, top));
            assert(mid.same_outside(last, j, top, end));
            assert(self.slot_ok(j));
            let nd = self.nodes[j as int];
            if nd.left != NIL {
                assert(self.slot_ok(nd.left));
            }
            if nd.right != NIL {
                assert(self.slot_ok(nd.right));
            }
        }
    }

    /// A replacement below `c` is a replacement of one child below the
    /// parent of `c`: the shape below the parent has the new shape in the
    /// place of the old one, and the parent stands where it stood.
    pub proof fn lemma_lift(self, other: Graph, c: usize, top: usize)
        requires
            self.shape_ok(),
            other.shape_ok(),
            self.live(c),
            self.replaced_below(other, c, top),
            self.nodes[c as int].parent != NIL,
        ensures
            other.shape_at(self.nodes[c as int].parent) == self.shape_at(
                self.nodes[c as int].parent,
            ).with_child(
                self.nodes[self.nodes[c as int].parent as int].left == c,
                other.shape_at(top),
            ),
            self.replaced_below(other, self.nodes[c as int].parent, self.nodes[c as int].parent),
    {
        let p = self.nodes[c as int].parent;
        let nd = self.nodes[p as int];
        assert(self.slot_ok(c));
        assert(self.slot_ok(p));
        assert(!self.within(p, c));
        assert(self.same_outside(other, p, c, top));
        self.lemma_unfold(p);
        other.lemma_unfold(p);
        let sib = if nd.left == c { nd.right } else { nd.left };
        if sib != NIL {
            assert(self.slot_ok(sib));
        }
        assert(self.same_below(other, sib)) by {
            assert forall|j: usize| self.live(j) && self.within(j, sib) implies #[trigger] self.same_node(
                other,
                j,
            ) by {
                assert(!self.within(j, c));
                assert(self.same_outside(other, j, c, top));
                assert(self.slot_ok(j));
            }
        }
        self.lemma_shape_frame(other, sib);
        assert forall|j: usize| self.live(j) && !self.within(j, p) implies #[trigger] self.same_outside(
            other,
            j,
            p,
            p,
        ) by {
            assert(!self.within(j, c));
            assert(self.same_outside(other, j, c, top));
            assert(self.slot_ok(j));
        }
        assert(self.within(p, p));
    }

    /// The graph with the rank of node `n` changed by `delta`.
    pub open spec fn bumped(self, n: usize, delta: int) -> Graph {
        Graph {
            nodes: self.nodes.update(
                n as int,
                Node { rank: (self.nodes[n as int].rank + delta) as i32, ..self.nodes[n as int] },
            ),
            ..self
        }
    }

    /// A change of rank at `n` changes the shape below `n` at its root
    /// alone, and nothing outside.
    pub proof fn lemma_bumped(self, n: usize, delta: int)
        requires
            self.shape_ok(),
            self.live(n),
            1 <= self.nodes[n as int].rank + delta <= i32::MAX,
        ensures
            self.bumped(n, delta).shape_ok(),
            self.replaced_below(self.bumped(n, delta), n, n),
            self.bumped(n, delta).shape_at(n) == self.shape_at(n).with_rank(
                self.nodes[n as int].rank + delta,
            ),
    {
        let h = self.bumped(n, delta);
        let nd = self.nodes[n as int];
        assert(self.slot_ok(n));
        assert forall|i: usize| h.live(i) implies #[trigger] h.slot_ok(i) by {
            assert(self.slot_ok(i));
        }
        self.lemma_unfold(n);
        h.lemma_unfold(n);
        if nd.left != NIL {
            assert(self.slot_ok(nd.left));
        }
        if nd.right != NIL {
            assert(self.slot_ok(nd.right));
        }
        assert(self.same_below(h, nd.left)) by {
            assert forall|j: usize| self.live(j) && self.within(j, nd.left) implies #[trigger] self.same_node(
                h,
                j,
            ) by {}
        }
        assert(self.same_below(h, nd.right)) by {
            assert forall|j: usize| self.live(j) && self.within(j, nd.right) implies #[trigger] self.same_node(
                h,
                j,
            ) by {}
        }
        self.lemma_shape_frame(h, nd.left);
        self.lemma_shape_frame(h, nd.right);
        assert(self.within(n, n));
        assert forall|j: usize| self.live(j) && !self.within(j, n) implies #[trigger] self.same_outside(
            h,
            j,
            n,
            n,
        ) by {}
    }

    /// The graph after the check that follows a rotation: `n` is demoted
    /// where both its gaps are 2.
    pub open spec fn checked_at(self, n: usize) -> Graph {
        if self.nodes[n as int].rank - self.rank_of(self.nodes[n as int].left) == 2
            && self.nodes[n as int].rank - self.rank_of(self.nodes[n as int].right) == 2 {
            self.bumped(n, -1)
        } else {
            self
        }
    }

    /// Node `c` may sink by one rank: it is the root, or both gaps of its
    /// parent are 1.
    pub open spec fn room_above(self, c: usize) -> bool {
        let up = self.nodes[c as int].parent;
        up == NIL || (self.nodes[up as int].rank - self.rank_of(self.nodes[up as int].left) == 1
            && self.nodes[up as int].rank - self.rank_of(self.nodes[up as int].right) == 1)
    }

    /// Both gaps of node `n` are 2.
    pub open spec fn double_gap_at(self, n: usize) -> bool {
        self.nodes[n as int].rank - self.rank_of(self.nodes[n as int].left) == 2
            && self.nodes[n as int].rank - self.rank_of(self.nodes[n as int].right) == 2
    }

    /// The graph after the check of the node that a rotation has lifted:
    /// `n` is demoted where both its gaps are 2 and there is room for it.
    pub open spec fn lowered_at(self, n: usize, room: bool) -> Graph {
        if room && self.double_gap_at(n) {
            self.bumped(n, -1)
        } else {
            self
        }
    }

    /// The check of the lifted node is the check of the shape below it.
    pub proof fn lemma_lowered(self, n: usize, room: bool)
        requires
            self.shape_ok(),
            self.live(n),
        ensures
            self.lowered_at(n, room).shape_ok(),
            self.replaced_below(self.lowered_at(n, room), n, n),
            self.lowered_at(n, room).shape_at(n) == self.shape_at(n).lowered_if(room),
    {
        let nd = self.nodes[n as int];
        assert(self.slot_ok(n));
        self.lemma_unfold(n);
        if nd.left != NIL {
            assert(self.slot_ok(nd.left));
            self.lemma_unfold(nd.left);
        }
        if nd.right != NIL {
            assert(self.slot_ok(nd.right));
            self.lemma_unfold(nd.right);
        }
        if room && self.double_gap_at(n) {
            self.lemma_bumped(n, -1);
        } else {
            self.lemma_replaced_refl(n);
        }
    }

    /// The room above a node is the room that the shape below its parent
    /// gives.
    pub proof fn lemma_room(self, c: usize)
        requires
            self.shape_ok(),
            self.live(c),
            self.nodes[c as int].parent != NIL,
        ensures
            self.room_above(c) == self.shape_at(self.nodes[c as int].parent).gives_room(),
    {
        let up = self.nodes[c as int].parent;
        let nd = self.nodes[up as int];
        assert(self.slot_ok(c));
        assert(self.slot_ok(up));
        self.lemma_unfold(up);
        if nd.left != NIL {
            assert(self.slot_ok(nd.left));
            self.lemma_unfold(nd.left);
        }
        if nd.right != NIL {
            assert(self.slot_ok(nd.right));
            self.lemma_unfold(nd.right);
        }
    }

    /// A graph is a replacement of itself below any of its nodes.
    pub proof fn lemma_replaced_refl(self, n: usize)
        requires
            self.shape_ok(),
            self.live(n),
        ensures
            self.replaced_below(self, n, n),
    {
        assert(self.slot_ok(n));
        assert(self.within(n, n));
        assert forall|j: usize| self.live(j) && !self.within(j, n) implies #[trigger] self.same_outside(
            self,
            j,
            n,
            n,
        ) by {}
    }

    /// The check after a rotation is the check of the shape below `n`.
    pub proof fn lemma_checked(self, n: usize)
        requires
            self.shape_ok(),
            self.live(n),
        ensures
            self.checked_at(n).shape_ok(),
            self.replaced_below(self.checked_at(n), n, n),
            self.checked_at(n).shape_at(n) == self.shape_at(n).checked(),
    {
        let nd = self.nodes[n as int];
        assert(self.slot_ok(n));
        self.lemma_unfold(n);
        if nd.left != NIL {
            assert(self.slot_ok(nd.left));
            self.lemma_unfold(nd.left);
        }
        if nd.right != NIL {
            assert(self.slot_ok(nd.right));
            self.lemma_unfold(nd.right);
        }
        if nd.rank - self.rank_of(nd.left) == 2 && nd.rank - self.rank_of(nd.right) == 2 {
            self.lemma_bumped(n, -1);
        } else {
            self.lemma_replaced_refl(n);
        }
    }

    /// A left rotation at `x` rotates the shape below `x` and changes
    /// nothing outside.
    #[verifier::rlimit(30)]
    pub proof fn lemma_rotated_left_shape(self, x: usize)
        requires
            self.shape_ok(),
            self.live(x),
            self.nodes[x as int].right != NIL,
        ensures
            self.rotated_left(x).shape_ok(),
            self.replaced_below(self.rotated_left(x), x, self.nodes[x as int].right),
            self.rotated_left(x).shape_at(self.nodes[x as int].right) == self.shape_at(
                x,
            ).rotated_left(),
    {
        let h = self.rotated_left(x);
        let y = self.nodes[x as int].right;
        let a = self.nodes[x as int].left;
        let b = self.nodes[y as int].left;
        let c = self.nodes[y as int].right;
        let p = self.nodes[x as int].parent;
        self.lemma_rotated_left(x);
        reveal(Graph::rotated_left);
        assert(self.slot_ok(x));
        assert(self.slot_ok(y));
        if a != NIL {
            assert(self.slot_ok(a));
        }
        if b != NIL {
            assert(self.slot_ok(b));
        }
        if c != NIL {
            assert(self.slot_ok(c));
        }
        if p != NIL {
            assert(self.slot_ok(p));
        }
        self.lemma_unfold(x);
        self.lemma_unfold(y);
        h.lemma_unfold(x);
        h.lemma_unfold(y);
        assert(self.same_below(h, a)) by {
            assert forall|j: usize| self.live(j) && self.within(j, a) implies #[trigger] self.same_node(
                h,
                j,
            ) by {
                assert(h.live(j) == self.live(j));
            }
        }
        assert(self.same_below(h, b)) by {
            assert forall|j: usize| self.live(j) && self.within(j, b) implies #[trigger] self.same_node(
                h,
                j,
            ) by {
                assert(h.live(j) == self.live(j));
            }
        }
        assert(self.same_below(h, c)) by {
            assert forall|j: usize| self.live(j) && self.within(j, c) implies #[trigger] self.same_node(
                h,
                j,
            ) by {
                assert(h.live(j) == self.live(j));
            }
        }
        self.lemma_shape_frame(h, a);
        self.lemma_shape_frame(h, b);
        self.lemma_shape_frame(h, c);
        assert(self.within(y, x));
        assert forall|j: usize| self.live(j) && !self.within(j, x) implies #[trigger] self.same_outside(
            h,
            j,
            x,
            y,
        ) by {
            assert(h.live(j) == self.live(j));
            assert(self.slot_ok(j));
        }
    }

    /// A right rotation at `x` rotates the shape below `x` and changes
    /// nothing outside.
    #[verifier::rlimit(30)]
    pub proof fn lemma_rotated_right_shape(self, x: usize)
        requires
            self.shape_ok(),
            self.live(x),
            self.nodes[x as int].left != NIL,
        ensures
            self.rotated_right(x).shape_ok(),
            self.replaced_below(self.rotated_right(x), x, self.nodes[x as int].left),
            self.rotated_right(x).shape_at(self.nodes[x as int].left) == self.shape_at(
                x,
            ).rotated_right(),
    {
        let h = self.rotated_right(x);
        let y = self.nodes[x as int].left;
        let a = self.nodes[x as int].right;
        let b = self.nodes[y as int].right;
        let c = self.nodes[y as int].left;
        let p = self.nodes[x as int].parent;
        self.lemma_rotated_right(x);
        reveal(Graph::rotated_right);
        assert(self.slot_ok(x));
        assert(self.slot_ok(y));
        if a != NIL {
            assert(self.slot_ok(a));
        }
        if b != NIL {
            assert(self.slot_ok(b));
        }
        if c != NIL {
            assert(self.slot_ok(c));
        }
        if p != NIL {
            assert(self.slot_ok(p));
        }
        self.lemma_unfold(x);
        self.lemma_unfold(y);
        h.lemma_unfold(x);
        h.lemma_unfold(y);
        assert(self.same_below(h, a)) by {
            assert forall|j: usize| self.live(j) && self.within(j, a) implies #[trigger] self.same_node(
                h,
                j,
            ) by {
                assert(h.live(j) == self.live(j));
            }
        }
        assert(self.same_below(h, b)) by {
            assert forall|j: usize| self.live(j) && self.within(j, b) implies #[trigger] self.same_node(
                h,
                j,
            ) by {
                assert(h.live(j) == self.live(j));
            }
        }
        assert(self.same_below(h, c)) by {
            assert forall|j: usize| self.live(j) && self.within(j, c) implies #[trigger] self.same_node(
                h,
                j,
            ) by {
                assert(h.live(j) == self.live(j));
            }
        }
        self.lemma_shape_frame(h, a);
        self.lemma_shape_frame(h, b);
        self.lemma_shape_frame(h, c);
        assert(self.within(y, x));
        assert forall|j: usize| self.live(j) && !self.within(j, x) implies #[trigger] self.same_outside(
            h,
            j,
            x,
            y,
        ) by {
            assert(h.live(j) == self.live(j));
            assert(self.slot_ok(j));
        }
    }
}

} // verus!
