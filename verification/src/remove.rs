//! Removal, and the walk that restores the rank rule after it.

use vstd::prelude::*;
use crate::arena::Graph;
use crate::model::{counted, holds, key_seq};
use crate::node::{Node, NIL};
use crate::raw::RawTree;

verus! {

impl Graph {
    /// The state in which the walk after a removal stands at the child slot
    /// `node` of `parent`: the rank rule holds everywhere but at `parent`,
    /// where the gap to `node` may have grown to 3 and a leaf may have been
    /// left at rank 2. With no parent left, the rule holds everywhere.
    pub open spec fn delete_pending(self, node: usize, parent: usize) -> bool {
        &&& self.ranks_ok_except(parent)
        &&& parent != NIL ==> {
            let gap = self.nodes[parent as int].rank - self.rank_of(node);
            let sib = self.nodes[parent as int].rank - self.rank_of(self.sibling_of(node, parent));
            &&& self.live(parent)
            &&& self.is_slot_of(node, parent)
            &&& 1 <= gap <= 3
            &&& 1 <= sib <= 2
        }
    }
}

impl Graph {
    /// Where `top` has taken the place of `parent` at the rank of `parent`,
    /// it has the room above it that `parent` had.
    pub proof fn lemma_room_kept(self, other: Graph, parent: usize, top: usize)
        requires
            self.shape_ok(),
            other.shape_ok(),
            self.live(parent),
            self.replaced_below(other, parent, top),
            other.nodes[top as int].rank == self.nodes[parent as int].rank,
        ensures
            other.nodes[top as int].parent == self.nodes[parent as int].parent,
            other.room_above(top) == self.room_above(parent),
    {
        let up = self.nodes[parent as int].parent;
        assert(self.slot_ok(parent));
        if up != NIL {
            assert(self.slot_ok(up));
            assert(!self.within(up, parent));
            assert(self.same_outside(other, up, parent, top));
            let sib = self.sibling_of(parent, up);
            if sib != NIL {
                assert(self.slot_ok(sib));
                assert(!self.within(sib, parent));
                assert(self.same_outside(other, sib, parent, top));
            }
        }
    }

    /// Where the walk after a removal stops at `parent`, its step there
    /// changes nothing.
    pub proof fn lemma_delete_stop(self, parent: usize, on_left: bool, room: bool)
        requires
            self.shape_ok(),
            self.live(parent),
            ({
                let nd = self.nodes[parent as int];
                let node = if on_left { nd.left } else { nd.right };
                let sibling = if on_left { nd.right } else { nd.left };
                let gap = nd.rank - self.rank_of(node);
                gap == 1 || (gap == 2 && nd.rank - self.rank_of(sibling) != 2)
            }),
        ensures
            self.shape_at(parent).after_delete(on_left, room) == self.shape_at(parent),
            self.shape_at(parent).delete_turns_at(on_left) == 0,
            !self.shape_at(parent).delete_goes_on(on_left),
    {
        let nd = self.nodes[parent as int];
        assert(self.slot_ok(parent));
        self.lemma_unfold(parent);
        if nd.left != NIL {
            assert(self.slot_ok(nd.left));
            self.lemma_unfold(nd.left);
        }
        if nd.right != NIL {
            assert(self.slot_ok(nd.right));
            self.lemma_unfold(nd.right);
        }
    }

    /// The demotion of `parent` is the step of `after_delete` where the gap
    /// to the sibling is 2 and the gap to the slot is 2 or 3.
    pub proof fn lemma_delete_demoted(self, parent: usize, on_left: bool, room: bool)
        requires
            self.shape_ok(),
            self.live(parent),
            ({
                let nd = self.nodes[parent as int];
                let node = if on_left { nd.left } else { nd.right };
                let sibling = if on_left { nd.right } else { nd.left };
                let gap = nd.rank - self.rank_of(node);
                (gap == 2 || gap == 3) && nd.rank - self.rank_of(sibling) == 2
            }),
        ensures
            self.bumped(parent, -1).shape_ok(),
            self.replaced_below(self.bumped(parent, -1), parent, parent),
            self.bumped(parent, -1).shape_at(parent) == self.shape_at(parent).after_delete(
                on_left,
                room,
            ),
            self.shape_at(parent).delete_turns_at(on_left) == 0,
            self.shape_at(parent).delete_goes_on(on_left),
    {
        let nd = self.nodes[parent as int];
        assert(self.slot_ok(parent));
        self.lemma_unfold(parent);
        if nd.left != NIL {
            assert(self.slot_ok(nd.left));
            self.lemma_unfold(nd.left);
        }
        if nd.right != NIL {
            assert(self.slot_ok(nd.right));
            self.lemma_unfold(nd.right);
        }
        self.lemma_bumped(parent, -1);
    }

    /// The demotion of `parent` and of the sibling of the slot is the step
    /// of `after_delete` where the gap to the slot is 3, the gap to the
    /// sibling is 1, and both gaps of the sibling are 2.
    pub proof fn lemma_delete_demoted_both(self, parent: usize, on_left: bool, room: bool)
        requires
            self.shape_ok(),
            self.live(parent),
            ({
                let nd = self.nodes[parent as int];
                let node = if on_left { nd.left } else { nd.right };
                let sibling = if on_left { nd.right } else { nd.left };
                &&& sibling != NIL
                &&& nd.rank - self.rank_of(node) == 3
                &&& nd.rank - self.rank_of(sibling) == 1
                &&& self.nodes[sibling as int].rank - self.rank_of(self.nodes[sibling as int].left)
                    == 2
                &&& self.nodes[sibling as int].rank - self.rank_of(
                    self.nodes[sibling as int].right,
                ) == 2
            }),
        ensures
            ({
                let nd = self.nodes[parent as int];
                let sibling = if on_left { nd.right } else { nd.left };
                let h = self.bumped(parent, -1).bumped(sibling, -1);
                &&& h.shape_ok()
                &&& self.replaced_below(h, parent, parent)
                &&& h.shape_at(parent) == self.shape_at(parent).after_delete(on_left, room)
                &&& self.shape_at(parent).delete_turns_at(on_left) == 0
                &&& self.shape_at(parent).delete_goes_on(on_left)
            }),
    {
        let nd = self.nodes[parent as int];
        let node = if on_left { nd.left } else { nd.right };
        let sibling = if on_left { nd.right } else { nd.left };
        let g1 = self.bumped(parent, -1);
        let h = g1.bumped(sibling, -1);
        assert(self.slot_ok(parent));
        assert(self.slot_ok(sibling));
        self.lemma_unfold(parent);
        self.lemma_unfold(sibling);
        if node != NIL {
            assert(self.slot_ok(node));
            self.lemma_unfold(node);
        }
        let sl = self.nodes[sibling as int].left;
        let sr = self.nodes[sibling as int].right;
        if sl != NIL {
            assert(self.slot_ok(sl));
            self.lemma_unfold(sl);
        }
        if sr != NIL {
            assert(self.slot_ok(sr));
            self.lemma_unfold(sr);
        }
        self.lemma_bumped(parent, -1);
        assert(g1.slot_ok(parent));
        assert(g1.slot_ok(sibling));
        g1.lemma_unfold(parent);
        g1.lemma_unfold(sibling);
        g1.lemma_bumped(sibling, -1);
        g1.lemma_lift(h, sibling, sibling);
        self.lemma_replaced_trans(g1, h, parent, parent, parent);
    }

    /// The graph after the single rotation that ends the walk after a
    /// removal from the right slot of `parent`.
    pub open spec fn delete_rotated_right(self, parent: usize) -> Graph {
        let s = self.nodes[parent as int].left;
        self.rotated_right(parent).bumped(parent, -1).bumped(s, 1).checked_at(parent)
    }

    /// The single right rotation after a removal is the step of
    /// `after_delete` at `parent`.
    #[verifier::rlimit(30)]
    pub proof fn lemma_delete_rotated_right(self, parent: usize, room: bool)
        requires
            self.shape_ok(),
            self.live(parent),
            self.nodes[parent as int].left != NIL,
            self.nodes[parent as int].rank - self.rank_of(self.nodes[parent as int].right) == 3,
            self.nodes[parent as int].rank - self.rank_of(self.nodes[parent as int].left) == 1,
            self.nodes[self.nodes[parent as int].left as int].rank - self.rank_of(
                self.nodes[self.nodes[parent as int].left as int].left,
            ) == 1,
        ensures
            self.delete_rotated_right(parent).shape_ok(),
            self.replaced_below(
                self.delete_rotated_right(parent),
                parent,
                self.nodes[parent as int].left,
            ),
            self.delete_rotated_right(parent).nodes[self.nodes[parent as int].left as int].rank
                == self.nodes[parent as int].rank,
            self.delete_rotated_right(parent).shape_at(self.nodes[parent as int].left).lowered_if(
                room,
            ) == self.shape_at(parent).after_delete(false, room),
            self.delete_rotated_right(parent).nodes[self.nodes[parent as int].left as int].parent
                == self.nodes[parent as int].parent,
            self.delete_rotated_right(parent).room_above(self.nodes[parent as int].left)
                == self.room_above(parent),
            self.shape_at(parent).delete_turns_at(false) == 1,
            !self.shape_at(parent).delete_goes_on(false),
    {
        let s = self.nodes[parent as int].left;
        let node = self.nodes[parent as int].right;
        let g1 = self.rotated_right(parent);
        let g2 = g1.bumped(parent, -1);
        let g3 = g2.bumped(s, 1);
        let h = g3.checked_at(parent);
        assert(self.slot_ok(parent));
        assert(self.slot_ok(s));
        let inner = self.nodes[s as int].right;
        let outer = self.nodes[s as int].left;
        if node != NIL {
            assert(self.slot_ok(node));
            self.lemma_unfold(node);
        }
        if inner != NIL {
            assert(self.slot_ok(inner));
            self.lemma_unfold(inner);
        }
        if outer != NIL {
            assert(self.slot_ok(outer));
            self.lemma_unfold(outer);
        }
        self.lemma_unfold(parent);
        self.lemma_unfold(s);
        self.lemma_rotated_right_shape(parent);
        self.lemma_rotated_right(parent);
        assert(g1.slot_ok(parent));
        assert(g1.slot_ok(s));
        g1.lemma_unfold(s);
        g1.lemma_bumped(parent, -1);
        g1.lemma_lift(g2, parent, parent);
        assert(g2.slot_ok(s));
        g2.lemma_bumped(s, 1);
        g1.lemma_replaced_trans(g2, g3, s, s, s);
        assert(g3.slot_ok(s));
        assert(g3.slot_ok(parent));
        g3.lemma_unfold(s);
        g3.lemma_checked(parent);
        g3.lemma_lift(h, parent, parent);
        g1.lemma_replaced_trans(g3, h, s, s, s);
        self.lemma_replaced_trans(g1, h, parent, s, s);
        assert(h.slot_ok(s));
        h.lemma_unfold(s);
        self.lemma_room_kept(h, parent, s);
    }

    /// The graph after the single rotation that ends the walk after a
    /// removal from the left slot of `parent`.
    pub open spec fn delete_rotated_left(self, parent: usize) -> Graph {
        let s = self.nodes[parent as int].right;
        self.rotated_left(parent).bumped(parent, -1).bumped(s, 1).checked_at(parent)
    }

    /// The single left rotation after a removal is the step of
    /// `after_delete` at `parent`.
    #[verifier::rlimit(30)]
    pub proof fn lemma_delete_rotated_left(self, parent: usize, room: bool)
        requires
            self.shape_ok(),
            self.live(parent),
            self.nodes[parent as int].right != NIL,
            self.nodes[parent as int].rank - self.rank_of(self.nodes[parent as int].left) == 3,
            self.nodes[parent as int].rank - self.rank_of(self.nodes[parent as int].right) == 1,
            self.nodes[self.nodes[parent as int].right as int].rank - self.rank_of(
                self.nodes[self.nodes[parent as int].right as int].right,
            ) == 1,
        ensures
            self.delete_rotated_left(parent).shape_ok(),
            self.replaced_below(
                self.delete_rotated_left(parent),
                parent,
                self.nodes[parent as int].right,
            ),
            self.delete_rotated_left(parent).nodes[self.nodes[parent as int].right as int].rank
                == self.nodes[parent as int].rank,
            self.delete_rotated_left(parent).shape_at(self.nodes[parent as int].right).lowered_if(
                room,
            ) == self.shape_at(parent).after_delete(true, room),
            self.delete_rotated_left(parent).nodes[self.nodes[parent as int].right as int].parent
                == self.nodes[parent as int].parent,
            self.delete_rotated_left(parent).room_above(self.nodes[parent as int].right)
                == self.room_above(parent),
            self.shape_at(parent).delete_turns_at(true) == 1,
            !self.shape_at(parent).delete_goes_on(true),
    {
        let s = self.nodes[parent as int].right;
        let node = self.nodes[parent as int].left;
        let g1 = self.rotated_left(parent);
        let g2 = g1.bumped(parent, -1);
        let g3 = g2.bumped(s, 1);
        let h = g3.checked_at(parent);
        assert(self.slot_ok(parent));
        assert(self.slot_ok(s));
        let inner = self.nodes[s as int].left;
        let outer = self.nodes[s as int].right;
        if node != NIL {
            assert(self.slot_ok(node));
            self.lemma_unfold(node);
        }
        if inner != NIL {
            assert(self.slot_ok(inner));
            self.lemma_unfold(inner);
        }
        if outer != NIL {
            assert(self.slot_ok(outer));
            self.lemma_unfold(outer);
        }
        self.lemma_unfold(parent);
        self.lemma_unfold(s);
        self.lemma_rotated_left_shape(parent);
        self.lemma_rotated_left(parent);
        assert(g1.slot_ok(parent));
        assert(g1.slot_ok(s));
        g1.lemma_unfold(s);
        g1.lemma_bumped(parent, -1);
        g1.lemma_lift(g2, parent, parent);
        assert(g2.slot_ok(s));
        g2.lemma_bumped(s, 1);
        g1.lemma_replaced_trans(g2, g3, s, s, s);
        assert(g3.slot_ok(s));
        assert(g3.slot_ok(parent));
        g3.lemma_unfold(s);
        g3.lemma_checked(parent);
        g3.lemma_lift(h, parent, parent);
        g1.lemma_replaced_trans(g3, h, s, s, s);
        self.lemma_replaced_trans(g1, h, parent, s, s);
        assert(h.slot_ok(s));
        h.lemma_unfold(s);
        self.lemma_room_kept(h, parent, s);
    }

    /// The graph after the double rotation that ends the walk after a
    /// removal from the right slot of `parent`.
    pub open spec fn delete_rotated_left_right(self, parent: usize) -> Graph {
        let s = self.nodes[parent as int].left;
        let t = self.nodes[s as int].right;
        self.rotated_left(s).bumped(s, -1).bumped(t, 1).rotated_right(parent).bumped(
            parent,
            -1,
        ).bumped(t, 1).bumped(parent, -1)
    }

    /// The first half of the double rotation after a removal: the inner
    /// child of the sibling has risen over the sibling.
    pub open spec fn delete_risen_left_right(self, parent: usize) -> Graph {
        let s = self.nodes[parent as int].left;
        let t = self.nodes[s as int].right;
        self.rotated_left(s).bumped(s, -1).bumped(t, 1)
    }

    /// The first half of the double rotation, seen from `parent`.
    #[verifier::rlimit(30)]
    pub proof fn lemma_delete_risen_left_right(self, parent: usize)
        requires
            self.shape_ok(),
            self.live(parent),
            self.nodes[parent as int].left != NIL,
            self.nodes[parent as int].rank - self.rank_of(self.nodes[parent as int].right) == 3,
            self.nodes[parent as int].rank - self.rank_of(self.nodes[parent as int].left) == 1,
            self.nodes[self.nodes[parent as int].left as int].rank - self.rank_of(
                self.nodes[self.nodes[parent as int].left as int].left,
            ) == 2,
            self.nodes[self.nodes[parent as int].left as int].rank - self.rank_of(
                self.nodes[self.nodes[parent as int].left as int].right,
            ) == 1,
        ensures
            self.delete_risen_left_right(parent).shape_ok(),
            self.replaced_below(self.delete_risen_left_right(parent), parent, parent),
            self.delete_risen_left_right(parent).nodes[parent as int] == (Node {
                left: self.nodes[self.nodes[parent as int].left as int].right,
                ..self.nodes[parent as int]
            }),
            self.delete_risen_left_right(
                parent,
            ).nodes[self.nodes[self.nodes[parent as int].left as int].right as int].rank
                == self.nodes[parent as int].rank - 1,
            self.delete_risen_left_right(parent).shape_at(parent) == self.shape_at(parent).with_child(
                true,
                self.shape_at(parent).child(true).rotated_left().with_child(
                    true,
                    self.shape_at(parent).child(true).rotated_left().child(
                        true,
                    ).demoted(),
                ).promoted(),
            ),
    {
        let s = self.nodes[parent as int].left;
        let t = self.nodes[s as int].right;
        let g1 = self.rotated_left(s);
        let g2 = g1.bumped(s, -1);
        let g3 = g2.bumped(t, 1);
        assert(self.slot_ok(parent));
        assert(self.slot_ok(s));
        let outer = self.nodes[s as int].left;
        if outer != NIL {
            assert(self.slot_ok(outer));
            self.lemma_unfold(outer);
        }
        assert(t != NIL);
        assert(self.slot_ok(t));
        self.lemma_unfold(parent);
        self.lemma_unfold(s);
        self.lemma_unfold(t);
        self.lemma_rotated_left_shape(s);
        self.lemma_rotated_left(s);
        assert(g1.slot_ok(s));
        assert(g1.slot_ok(t));
        assert(g1.slot_ok(parent));
        g1.lemma_unfold(t);
        g1.lemma_unfold(s);
        g1.lemma_bumped(s, -1);
        g1.lemma_lift(g2, s, s);
        assert(g2.slot_ok(t));
        g2.lemma_bumped(t, 1);
        g1.lemma_replaced_trans(g2, g3, t, t, t);
        self.lemma_replaced_trans(g1, g3, s, t, t);
        self.lemma_lift(g3, s, t);
        assert(!self.within(parent, s));
        assert(self.same_outside(g3, parent, s, t));
        assert(g3.slot_ok(parent));
    }

    /// The double rotation after a removal is the step of `after_delete` at
    /// `parent`.
    #[verifier::rlimit(30)]
    pub proof fn lemma_delete_rotated_left_right(self, parent: usize, room: bool)
        requires
            self.shape_ok(),
            self.live(parent),
            self.nodes[parent as int].left != NIL,
            self.nodes[parent as int].rank - self.rank_of(self.nodes[parent as int].right) == 3,
            self.nodes[parent as int].rank - self.rank_of(self.nodes[parent as int].left) == 1,
            self.nodes[self.nodes[parent as int].left as int].rank - self.rank_of(
                self.nodes[self.nodes[parent as int].left as int].left,
            ) == 2,
            self.nodes[self.nodes[parent as int].left as int].rank - self.rank_of(
                self.nodes[self.nodes[parent as int].left as int].right,
            ) == 1,
        ensures
            self.delete_rotated_left_right(parent).shape_ok(),
            self.replaced_below(
                self.delete_rotated_left_right(parent),
                parent,
                self.nodes[self.nodes[parent as int].left as int].right,
            ),
            self.delete_rotated_left_right(
                parent,
            ).nodes[self.nodes[self.nodes[parent as int].left as int].right as int].rank
                == self.nodes[parent as int].rank,
            self.delete_rotated_left_right(parent).shape_at(
                self.nodes[self.nodes[parent as int].left as int].right,
            ).lowered_if(room) == self.shape_at(parent).after_delete(false, room),
            self.delete_rotated_left_right(
                parent,
            ).nodes[self.nodes[self.nodes[parent as int].left as int].right as int].parent
                == self.nodes[parent as int].parent,
            self.delete_rotated_left_right(parent).room_above(
                self.nodes[self.nodes[parent as int].left as int].right,
            ) == self.room_above(parent),
            self.shape_at(parent).delete_turns_at(false) == 2,
            !self.shape_at(parent).delete_goes_on(false),
    {
        let s = self.nodes[parent as int].left;
        let t = self.nodes[s as int].right;
        let node = self.nodes[parent as int].right;
        let g3 = self.delete_risen_left_right(parent);
        let g4 = g3.rotated_right(parent);
        let g5 = g4.bumped(parent, -1);
        let g6 = g5.bumped(t, 1);
        let h = g6.bumped(parent, -1);
        self.lemma_delete_risen_left_right(parent);
        assert(self.slot_ok(parent));
        assert(self.slot_ok(s));
        self.lemma_unfold(parent);
        self.lemma_unfold(s);
        if node != NIL {
            assert(self.slot_ok(node));
            self.lemma_unfold(node);
        }
        let outer = self.nodes[s as int].left;
        if outer != NIL {
            assert(self.slot_ok(outer));
            self.lemma_unfold(outer);
        }
        assert(g3.slot_ok(parent));
        assert(g3.slot_ok(t));
        g3.lemma_unfold(parent);
        g3.lemma_unfold(t);
        g3.lemma_rotated_right_shape(parent);
        g3.lemma_rotated_right(parent);
        assert(g4.slot_ok(parent));
        assert(g4.slot_ok(t));
        g4.lemma_unfold(t);
        g4.lemma_bumped(parent, -1);
        g4.lemma_lift(g5, parent, parent);
        assert(g5.slot_ok(t));
        assert(g5.slot_ok(parent));
        g5.lemma_bumped(t, 1);
        g4.lemma_replaced_trans(g5, g6, t, t, t);
        assert(g6.slot_ok(t));
        assert(g6.slot_ok(parent));
        g6.lemma_unfold(t);
        g6.lemma_bumped(parent, -1);
        g6.lemma_lift(h, parent, parent);
        g4.lemma_replaced_trans(g6, h, t, t, t);
        g3.lemma_replaced_trans(g4, h, parent, t, t);
        self.lemma_replaced_trans(g3, h, parent, parent, t);
        assert(h.slot_ok(t));
        h.lemma_unfold(t);
        self.lemma_room_kept(h, parent, t);
    }

    /// The graph after the double rotation that ends the walk after a
    /// removal from the left slot of `parent`.
    pub open spec fn delete_rotated_right_left(self, parent: usize) -> Graph {
        let s = self.nodes[parent as int].right;
        let t = self.nodes[s as int].left;
        self.rotated_right(s).bumped(s, -1).bumped(t, 1).rotated_left(parent).bumped(
            parent,
            -1,
        ).bumped(t, 1).bumped(parent, -1)
    }

    /// The first half of the double rotation after a removal: the inner
    /// child of the sibling has risen over the sibling.
    pub open spec fn delete_risen_right_left(self, parent: usize) -> Graph {
        let s = self.nodes[parent as int].right;
        let t = self.nodes[s as int].left;
        self.rotated_right(s).bumped(s, -1).bumped(t, 1)
    }

    /// The first half of the double rotation, seen from `parent`.
    #[verifier::rlimit(30)]
    pub proof fn lemma_delete_risen_right_left(self, parent: usize)
        requires
            self.shape_ok(),
            self.live(parent),
            self.nodes[parent as int].right != NIL,
            self.nodes[parent as int].rank - self.rank_of(self.nodes[parent as int].left) == 3,
            self.nodes[parent as int].rank - self.rank_of(self.nodes[parent as int].right) == 1,
            self.nodes[self.nodes[parent as int].right as int].rank - self.rank_of(
                self.nodes[self.nodes[parent as int].right as int].right,
            ) == 2,
            self.nodes[self.nodes[parent as int].right as int].rank - self.rank_of(
                self.nodes[self.nodes[parent as int].right as int].left,
            ) == 1,
        ensures
            self.delete_risen_right_left(parent).shape_ok(),
            self.replaced_below(self.delete_risen_right_left(parent), parent, parent),
            self.delete_risen_right_left(parent).nodes[parent as int] == (Node {
                right: self.nodes[self.nodes[parent as int].right as int].left,
                ..self.nodes[parent as int]
            }),
            self.delete_risen_right_left(
                parent,
            ).nodes[self.nodes[self.nodes[parent as int].right as int].left as int].rank
                == self.nodes[parent as int].rank - 1,
            self.delete_risen_right_left(parent).shape_at(parent) == self.shape_at(parent).with_child(
                false,
                self.shape_at(parent).child(false).rotated_right().with_child(
                    false,
                    self.shape_at(parent).child(false).rotated_right().child(
                        false,
                    ).demoted(),
                ).promoted(),
            ),
    {
        let s = self.nodes[parent as int].right;
        let t = self.nodes[s as int].left;
        let g1 = self.rotated_right(s);
        let g2 = g1.bumped(s, -1);
        let g3 = g2.bumped(t, 1);
        assert(self.slot_ok(parent));
        assert(self.slot_ok(s));
        let outer = self.nodes[s as int].right;
        if outer != NIL {
            assert(self.slot_ok(outer));
            self.lemma_unfold(outer);
        }
        assert(t != NIL);
        assert(self.slot_ok(t));
        self.lemma_unfold(parent);
        self.lemma_unfold(s);
        self.lemma_unfold(t);
        self.lemma_rotated_right_shape(s);
        self.lemma_rotated_right(s);
        assert(g1.slot_ok(s));
        assert(g1.slot_ok(t));
        assert(g1.slot_ok(parent));
        g1.lemma_unfold(t);
        g1.lemma_unfold(s);
        g1.lemma_bumped(s, -1);
        g1.lemma_lift(g2, s, s);
        assert(g2.slot_ok(t));
        g2.lemma_bumped(t, 1);
        g1.lemma_replaced_trans(g2, g3, t, t, t);
        self.lemma_replaced_trans(g1, g3, s, t, t);
        self.lemma_lift(g3, s, t);
        assert(!self.within(parent, s));
        assert(self.same_outside(g3, parent, s, t));
        assert(g3.slot_ok(parent));
    }

    /// The double rotation after a removal is the step of `after_delete` at
    /// `parent`.
    #[verifier::rlimit(30)]
    pub proof fn lemma_delete_rotated_right_left(self, parent: usize, room: bool)
        requires
            self.shape_ok(),
            self.live(parent),
            self.nodes[parent as int].right != NIL,
            self.nodes[parent as int].rank - self.rank_of(self.nodes[parent as int].left) == 3,
            self.nodes[parent as int].rank - self.rank_of(self.nodes[parent as int].right) == 1,
            self.nodes[self.nodes[parent as int].right as int].rank - self.rank_of(
                self.nodes[self.nodes[parent as int].right as int].right,
            ) == 2,
            self.nodes[self.nodes[parent as int].right as int].rank - self.rank_of(
                self.nodes[self.nodes[parent as int].right as int].left,
            ) == 1,
        ensures
            self.delete_rotated_right_left(parent).shape_ok(),
            self.replaced_below(
                self.delete_rotated_right_left(parent),
                parent,
                self.nodes[self.nodes[parent as int].right as int].left,
            ),
            self.delete_rotated_right_left(
                parent,
            ).nodes[self.nodes[self.nodes[parent as int].right as int].left as int].rank
                == self.nodes[parent as int].rank,
            self.delete_rotated_right_left(parent).shape_at(
                self.nodes[self.nodes[parent as int].right as int].left,
            ).lowered_if(room) == self.shape_at(parent).after_delete(true, room),
            self.delete_rotated_right_left(
                parent,
            ).nodes[self.nodes[self.nodes[parent as int].right as int].left as int].parent
                == self.nodes[parent as int].parent,
            self.delete_rotated_right_left(parent).room_above(
                self.nodes[self.nodes[parent as int].right as int].left,
            ) == self.room_above(parent),
            self.shape_at(parent).delete_turns_at(true) == 2,
            !self.shape_at(parent).delete_goes_on(true),
    {
        let s = self.nodes[parent as int].right;
        let t = self.nodes[s as int].left;
        let node = self.nodes[parent as int].left;
        let g3 = self.delete_risen_right_left(parent);
        let g4 = g3.rotated_left(parent);
        let g5 = g4.bumped(parent, -1);
        let g6 = g5.bumped(t, 1);
        let h = g6.bumped(parent, -1);
        self.lemma_delete_risen_right_left(parent);
        assert(self.slot_ok(parent));
        assert(self.slot_ok(s));
        self.lemma_unfold(parent);
        self.lemma_unfold(s);
        if node != NIL {
            assert(self.slot_ok(node));
            self.lemma_unfold(node);
        }
        let outer = self.nodes[s as int].right;
        if outer != NIL {
            assert(self.slot_ok(outer));
            self.lemma_unfold(outer);
        }
        assert(g3.slot_ok(parent));
        assert(g3.slot_ok(t));
        g3.lemma_unfold(parent);
        g3.lemma_unfold(t);
        g3.lemma_rotated_left_shape(parent);
        g3.lemma_rotated_left(parent);
        assert(g4.slot_ok(parent));
        assert(g4.slot_ok(t));
        g4.lemma_unfold(t);
        g4.lemma_bumped(parent, -1);
        g4.lemma_lift(g5, parent, parent);
        assert(g5.slot_ok(t));
        assert(g5.slot_ok(parent));
        g5.lemma_bumped(t, 1);
        g4.lemma_replaced_trans(g5, g6, t, t, t);
        assert(g6.slot_ok(t));
        assert(g6.slot_ok(parent));
        g6.lemma_unfold(t);
        g6.lemma_bumped(parent, -1);
        g6.lemma_lift(h, parent, parent);
        g4.lemma_replaced_trans(g6, h, t, t, t);
        g3.lemma_replaced_trans(g4, h, parent, t, t);
        self.lemma_replaced_trans(g3, h, parent, parent, t);
        assert(h.slot_ok(t));
        h.lemma_unfold(t);
        self.lemma_room_kept(h, parent, t);
    }

    /// The key `gone` sits in the gap before position `q`, which lies in or
    /// next to the positions `lo..hi`.
    pub open spec fn gap_at(self, gone: i32, q: int, lo: int, hi: int) -> bool {
        &&& 0 <= lo <= q <= hi <= self.order.len()
        &&& q > 0 ==> self.key_at(q - 1) <= gone
        &&& q < self.order.len() ==> gone < self.key_at(q)
    }

    /// The first position of the named child slot of `parent`.
    pub open spec fn slot_lo(self, parent: usize, on_left: bool) -> int {
        if on_left {
            self.span[parent as int].lo
        } else {
            self.span[parent as int].at + 1
        }
    }

    /// The position after the last of the named child slot of `parent`.
    pub open spec fn slot_hi(self, parent: usize, on_left: bool) -> int {
        if on_left {
            self.span[parent as int].at
        } else {
            self.span[parent as int].hi
        }
    }

    /// The walk after the removal of the node that held `gone` has reached
    /// the named slot of `parent`, `levels` levels below which it began:
    /// `cur` is `self`, the graph in which the walk began, but below
    /// `parent`, where the walk has settled the shape below the slot and has
    /// not yet taken its step at `parent`. Position `a0` holds the key `key0`
    /// of the node at which the walk began.
    pub open spec fn delete_walk(
        self,
        cur: Graph,
        parent: usize,
        on_left: bool,
        gone: i32,
        q: int,
        levels: nat,
        key0: i32,
        a0: int,
    ) -> bool {
        let whole = self.shape_at(parent);
        let child = whole.child(on_left);
        &&& self.shape_ok()
        &&& cur.shape_ok()
        &&& self.sorted()
        &&& self.live(parent)
        &&& self.replaced_below(cur, parent, parent)
        &&& self.same_node(cur, parent)
        &&& levels >= 1
        &&& levels == whole.path_len(key0)
        &&& self.span[parent as int].lo <= a0 < self.span[parent as int].hi
        &&& self.key_at(a0) == key0
        &&& cur.shape_at(parent) == whole.with_child(
            on_left,
            child.resettled(gone, (levels - 1) as nat, whole.gives_room()),
        )
        &&& child.walk_reaches(gone, (levels - 1) as nat)
        &&& child.resettled_turns(gone, (levels - 1) as nat) == 0
        &&& self.gap_at(gone, q, self.slot_lo(parent, on_left), self.slot_hi(parent, on_left))
    }

    /// The levels between the root and the slot below `parent`: none where
    /// there is no parent.
    pub open spec fn walk_levels(self, parent: usize) -> nat {
        if parent == NIL {
            0
        } else {
            self.shape_at(self.root).path_len(self.nodes[parent as int].data)
        }
    }

    /// Above the node at which the walk has ended, the nodes stay as they
    /// are.
    pub proof fn lemma_resettled_above(
        self,
        cur: Graph,
        c: usize,
        top: usize,
        gone: i32,
        q: int,
        levels: nat,
        key0: i32,
        a0: int,
    )
        requires
            self.shape_ok(),
            cur.shape_ok(),
            self.sorted(),
            self.live(c),
            self.replaced_below(cur, c, top),
            self.gap_at(gone, q, self.span[c as int].lo, self.span[c as int].hi),
            levels >= 1,
            levels == self.shape_at(c).path_len(key0),
            self.span[c as int].lo <= a0 < self.span[c as int].hi,
            self.key_at(a0) == key0,
            cur.shape_at(top) == self.shape_at(c).resettled(gone, levels, self.room_above(c)),
            !self.shape_at(c).walk_reaches(gone, levels),
        ensures
            cur.shape_at(cur.root) == self.shape_at(self.root).resettled(
                gone,
                self.shape_at(self.root).path_len(key0),
                true,
            ),
            self.shape_at(self.root).resettled_turns(gone, self.shape_at(self.root).path_len(key0))
                == self.shape_at(c).resettled_turns(gone, levels),
        decreases self.order.len() - (self.span[c as int].hi - self.span[c as int].lo),
    {
        let p = self.nodes[c as int].parent;
        assert(self.slot_ok(c));
        if p != NIL {
            let nd = self.nodes[p as int];
            let on_left = nd.left == c;
            assert(self.slot_ok(p));
            self.lemma_lift(cur, c, top);
            self.lemma_unfold(p);
            cur.lemma_unfold(p);
            self.lemma_room(c);
            self.lemma_descent(p, key0);
            let at_p = self.span[p as int].at;
            assert(self.key_at(at_p) == nd.data);
            if on_left {
                if q < at_p {
                    assert(self.key_at(q) < self.key_at(at_p));
                }
                assert(gone < nd.data);
                assert(self.key_at(a0) < self.key_at(at_p));
            } else {
                if at_p < q - 1 {
                    assert(self.key_at(at_p) < self.key_at(q - 1));
                }
                assert(nd.data <= gone);
                assert(self.key_at(at_p) < self.key_at(a0));
            }
            let up_levels = (levels + 1) as nat;
            assert(self.shape_at(p).resettled(gone, up_levels, self.room_above(p)) == self.shape_at(
                p,
            ).with_child(on_left, cur.shape_at(top)));
            assert(!self.shape_at(p).walk_reaches(gone, up_levels));
            assert(self.shape_at(p).resettled_turns(gone, up_levels) == self.shape_at(
                c,
            ).resettled_turns(gone, levels));
            self.lemma_resettled_above(cur, p, p, gone, q, up_levels, key0, a0);
        }
    }

    /// The walk starts at the slot that the removed node has left.
    pub proof fn lemma_dwalk_start(self, parent: usize, on_left: bool, gone: i32, q: int)
        requires
            self.shape_ok(),
            self.sorted(),
            self.live(parent),
            self.gap_at(gone, q, self.slot_lo(parent, on_left), self.slot_hi(parent, on_left)),
        ensures
            self.delete_walk(
                self,
                parent,
                on_left,
                gone,
                q,
                1,
                self.nodes[parent as int].data,
                self.span[parent as int].at,
            ),
    {
        let nd = self.nodes[parent as int];
        assert(self.slot_ok(parent));
        self.lemma_unfold(parent);
        self.lemma_replaced_refl(parent);
        self.lemma_descent(parent, nd.data);
        assert(self.within(parent, parent));
        assert(self.key_at(self.span[parent as int].at) == nd.data);
    }

    /// A step of the walk at `parent`, which leaves `top` in the place of
    /// `parent` in `last`, settles the shape below that place.
    pub proof fn lemma_dwalk_at(
        self,
        cur: Graph,
        last: Graph,
        parent: usize,
        top: usize,
        on_left: bool,
        gone: i32,
        q: int,
        levels: nat,
        key0: i32,
        a0: int,
        turns: nat,
    )
        requires
            self.delete_walk(cur, parent, on_left, gone, q, levels, key0, a0),
            last.shape_ok(),
            cur.replaced_below(last, parent, top),
            last.shape_at(top) == cur.shape_at(parent).after_delete(on_left, self.room_above(parent)),
            cur.shape_at(parent).delete_turns_at(on_left) == turns,
        ensures
            self.replaced_below(last, parent, top),
            last.shape_at(top) == self.shape_at(parent).resettled(
                gone,
                levels,
                self.room_above(parent),
            ),
            self.shape_at(parent).resettled_turns(gone, levels) == turns,
            self.shape_at(parent).walk_reaches(gone, levels) == cur.shape_at(
                parent,
            ).delete_goes_on(on_left),
    {
        let nd = self.nodes[parent as int];
        assert(self.slot_ok(parent));
        self.lemma_replaced_trans(cur, last, parent, parent, top);
        self.lemma_unfold(parent);
        let at_p = self.span[parent as int].at;
        assert(self.key_at(at_p) == nd.data);
        if on_left {
            if q < at_p {
                assert(self.key_at(q) < self.key_at(at_p));
            }
            assert(gone < nd.data);
        } else {
            if at_p < q - 1 {
                assert(self.key_at(at_p) < self.key_at(q - 1));
            }
            assert(nd.data <= gone);
        }
    }

    /// After a step that has left `parent` in its place and lets the walk go
    /// on, the walk stands at the parent of `parent`, or has reached the
    /// root.
    pub proof fn lemma_dwalk_up(
        self,
        cur: Graph,
        last: Graph,
        parent: usize,
        on_left: bool,
        gone: i32,
        q: int,
        levels: nat,
        key0: i32,
        a0: int,
    )
        requires
            self.delete_walk(cur, parent, on_left, gone, q, levels, key0, a0),
            last.shape_ok(),
            cur.replaced_below(last, parent, parent),
            last.shape_at(parent) == cur.shape_at(parent).after_delete(
                on_left,
                self.room_above(parent),
            ),
            cur.shape_at(parent).delete_turns_at(on_left) == 0,
            cur.shape_at(parent).delete_goes_on(on_left),
        ensures
            self.nodes[parent as int].parent == last.nodes[parent as int].parent,
            self.nodes[parent as int].parent != NIL ==> self.delete_walk(
                last,
                self.nodes[parent as int].parent,
                self.nodes[self.nodes[parent as int].parent as int].left == parent,
                gone,
                q,
                (levels + 1) as nat,
                key0,
                a0,
            ),
            self.nodes[parent as int].parent == NIL ==> last.shape_at(last.root) == self.shape_at(
                self.root,
            ).resettled(gone, self.shape_at(self.root).path_len(key0), true) && self.shape_at(
                self.root,
            ).resettled_turns(gone, self.shape_at(self.root).path_len(key0)) == 0,
    {
        let up = self.nodes[parent as int].parent;
        self.lemma_dwalk_at(cur, last, parent, parent, on_left, gone, q, levels, key0, a0, 0);
        assert(self.slot_ok(parent));
        if up != NIL {
            let nd = self.nodes[up as int];
            assert(self.slot_ok(up));
            self.lemma_lift(last, parent, parent);
            self.lemma_unfold(up);
            self.lemma_room(parent);
            self.lemma_descent(up, key0);
            assert(!self.within(up, parent));
            assert(self.same_outside(last, up, parent, parent));
            let at_up = self.span[up as int].at;
            assert(self.key_at(at_up) == nd.data);
            if nd.left == parent {
                assert(self.key_at(a0) < self.key_at(at_up));
            } else {
                assert(self.key_at(at_up) < self.key_at(a0));
            }
        } else {
            assert(self.root == parent);
        }
    }

    /// The walk ends with a step at `parent` that leaves `top` in the place
    /// of `parent` in `last`.
    pub proof fn lemma_dwalk_done(
        self,
        cur: Graph,
        last: Graph,
        parent: usize,
        top: usize,
        on_left: bool,
        gone: i32,
        q: int,
        levels: nat,
        key0: i32,
        a0: int,
        turns: nat,
    )
        requires
            self.delete_walk(cur, parent, on_left, gone, q, levels, key0, a0),
            last.shape_ok(),
            cur.replaced_below(last, parent, top),
            last.shape_at(top) == cur.shape_at(parent).after_delete(on_left, self.room_above(parent)),
            cur.shape_at(parent).delete_turns_at(on_left) == turns,
            !cur.shape_at(parent).delete_goes_on(on_left),
        ensures
            last.shape_at(last.root) == self.shape_at(self.root).resettled(
                gone,
                self.shape_at(self.root).path_len(key0),
                true,
            ),
            self.shape_at(self.root).resettled_turns(gone, self.shape_at(self.root).path_len(key0))
                == turns,
    {
        self.lemma_dwalk_at(cur, last, parent, top, on_left, gone, q, levels, key0, a0, turns);
        assert(self.slot_ok(parent));
        self.lemma_resettled_above(last, parent, top, gone, q, levels, key0, a0);
    }
}

impl RawTree {
    /// Demotes `parent` once more where a single rotation has left it with
    /// gap 2 on both sides.
    pub(crate) fn check_after_rotation(&mut self, parent: usize)
        requires
            old(self).wf_shape(),
            old(self).graph().live(parent),
        ensures
            final(self).wf_shape(),
            final(self).rebalanced_from(old(self)),
            *final(self) == (RawTree { nodes: final(self).nodes, ..*old(self) }),
            final(self).graph() == old(self).graph().checked_at(parent),
            final(self).nodes@ == old(self).nodes@.update(
                parent as int,
                final(self).nodes@[parent as int],
            ),
            final(self).nodes@[parent as int] == if old(self).nodes@[parent as int].rank - old(
                self,
            ).graph().rank_of(old(self).nodes@[parent as int].left) == 2 && old(
                self,
            ).nodes@[parent as int].rank - old(self).graph().rank_of(
                old(self).nodes@[parent as int].right,
            ) == 2 {
                crate::node::Node {
                    rank: (old(self).nodes@[parent as int].rank - 1) as i32,
                    ..old(self).nodes@[parent as int]
                }
            } else {
                old(self).nodes@[parent as int]
            },
            forall|j: usize|
                old(self).graph().live(j) && j != parent && j != old(self).nodes@[parent as int].parent
                    && old(self).graph().rank_ok(j) ==> #[trigger] final(self).graph().rank_ok(j),
    {
        let ghost g = self.graph();
        proof {
            assert(g.slot_ok(parent));
            if g.nodes[parent as int].left != NIL {
                assert(g.slot_ok(g.nodes[parent as int].left));
            }
            if g.nodes[parent as int].right != NIL {
                assert(g.slot_ok(g.nodes[parent as int].right));
            }
        }
        let parent_left_rank: i32 = self.slot_rank(self.nodes[parent].left);
        let parent_right_rank: i32 = self.slot_rank(self.nodes[parent].right);
        if self.nodes[parent].rank - parent_left_rank == 2 && self.nodes[parent].rank
            - parent_right_rank == 2 {
            self.demote(parent);
        } else {
            proof {
                self.lemma_rebalanced_refl();
                assert(self.nodes@ =~= old(self).nodes@.update(
                    parent as int,
                    self.nodes@[parent as int],
                ));
            }
        }
    }

    /// The single rotation that ends the walk after a removal: the slot
    /// `node` is the right slot of `parent` at gap 3, the sibling is at gap 1
    /// and its left gap is 1. Rotates right at `parent`, demotes `parent`,
    /// promotes the sibling, and demotes `parent` once more where both its
    /// gaps have become 2.
    #[verifier::rlimit(30)]
    pub(crate) fn delete_rotate_right(&mut self, node: usize, parent: usize)
        requires
            old(self).wf_shape(),
            old(self).graph().live(parent),
            old(self).nodes@[parent as int].right == node,
            old(self).nodes@[parent as int].left != NIL,
            old(self).graph().ranks_ok_except(parent),
            old(self).nodes@[parent as int].rank - old(self).graph().rank_of(node) == 3,
            old(self).nodes@[parent as int].rank - old(self).graph().rank_of(
                old(self).nodes@[parent as int].left,
            ) == 1,
            old(self).nodes@[old(self).nodes@[parent as int].left as int].rank - old(
                self,
            ).graph().rank_of(
                old(self).nodes@[old(self).nodes@[parent as int].left as int].left,
            ) == 1,
        ensures
            final(self).wf_shape(),
            final(self).graph().ranks_ok(),
            final(self).rebalanced_from(old(self)),
            final(self).graph() == old(self).graph().delete_rotated_right(parent),
            final(self).rotations == counted(old(self).rotations as nat, 1),
            final(self).rotations <= old(self).rotations + 1,
    {
        let ghost t0 = *self;
        let ghost g = self.graph();
        let ghost up = g.nodes[parent as int].parent;
        proof {
            assert(g.slot_ok(parent));
            if node != NIL {
                assert(g.slot_ok(node));
            }
            if up != NIL {
                assert(g.slot_ok(up));
                assert(g.rank_ok(up));
            }
        }
        let s: usize = self.nodes[parent].left;
        let ghost inner = g.nodes[s as int].right;
        let ghost outer = g.nodes[s as int].left;
        proof {
            assert(g.slot_ok(s));
            assert(g.rank_ok(s));
            if inner != NIL {
                assert(g.slot_ok(inner));
            }
            if outer != NIL {
                assert(g.slot_ok(outer));
            }
        }
        self.increase_rotations();
        let ghost t1 = *self;
        self.rotate_right(parent);
        let ghost t2 = *self;
        let ghost g2 = self.graph();
        proof {
            assert(g2.slot_ok(parent));
            assert(g2.slot_ok(s));
        }
        self.demote(parent);
        let ghost t3 = *self;
        let ghost g3 = self.graph();
        self.promote(s);
        let ghost t4 = *self;
        let ghost g4 = self.graph();
        proof {
            assert(g4.slot_ok(parent));
        }
        self.check_after_rotation(parent);
        proof {
            let h = self.graph();
            t2.lemma_rebalanced_trans(&t1, &t0);
            t3.lemma_rebalanced_trans(&t2, &t0);
            t4.lemma_rebalanced_trans(&t3, &t0);
            self.lemma_rebalanced_trans(&t4, &t0);
            assert forall|j: usize| h.live(j) implies #[trigger] h.rank_ok(j) by {
                if j == parent {
                } else if j == s {
                } else if j == up {
                } else {
                    assert(g.rank_ok(j));
                    assert(g2.rank_ok(j));
                    assert(g3.rank_ok(j));
                    assert(g4.rank_ok(j));
                }
            }
        }
    }

    /// The single rotation that ends the walk after a removal: the slot
    /// `node` is the left slot of `parent` at gap 3, the sibling is at gap 1
    /// and its right gap is 1. Rotates left at `parent`, demotes `parent`,
    /// promotes the sibling, and demotes `parent` once more where both its
    /// gaps have become 2.
    #[verifier::rlimit(30)]
    pub(crate) fn delete_rotate_left(&mut self, node: usize, parent: usize)
        requires
            old(self).wf_shape(),
            old(self).graph().live(parent),
            old(self).nodes@[parent as int].left == node,
            old(self).nodes@[parent as int].right != NIL,
            old(self).graph().ranks_ok_except(parent),
            old(self).nodes@[parent as int].rank - old(self).graph().rank_of(node) == 3,
            old(self).nodes@[parent as int].rank - old(self).graph().rank_of(
                old(self).nodes@[parent as int].right,
            ) == 1,
            old(self).nodes@[old(self).nodes@[parent as int].right as int].rank - old(
                self,
            ).graph().rank_of(
                old(self).nodes@[old(self).nodes@[parent as int].right as int].right,
            ) == 1,
        ensures
            final(self).wf_shape(),
            final(self).graph().ranks_ok(),
            final(self).rebalanced_from(old(self)),
            final(self).graph() == old(self).graph().delete_rotated_left(parent),
            final(self).rotations == counted(old(self).rotations as nat, 1),
            final(self).rotations <= old(self).rotations + 1,
    {
        let ghost t0 = *self;
        let ghost g = self.graph();
        let ghost up = g.nodes[parent as int].parent;
        proof {
            assert(g.slot_ok(parent));
            if node != NIL {
                assert(g.slot_ok(node));
            }
            if up != NIL {
                assert(g.slot_ok(up));
                assert(g.rank_ok(up));
            }
        }
        let s: usize = self.nodes[parent].right;
        let ghost inner = g.nodes[s as int].left;
        let ghost outer = g.nodes[s as int].right;
        proof {
            assert(g.slot_ok(s));
            assert(g.rank_ok(s));
            if inner != NIL {
                assert(g.slot_ok(inner));
            }
            if outer != NIL {
                assert(g.slot_ok(outer));
            }
        }
        self.increase_rotations();
        let ghost t1 = *self;
        self.rotate_left(parent);
        let ghost t2 = *self;
        let ghost g2 = self.graph();
        proof {
            assert(g2.slot_ok(parent));
            assert(g2.slot_ok(s));
        }
        self.demote(parent);
        let ghost t3 = *self;
        let ghost g3 = self.graph();
        self.promote(s);
        let ghost t4 = *self;
        let ghost g4 = self.graph();
        proof {
            assert(g4.slot_ok(parent));
        }
        self.check_after_rotation(parent);
        proof {
            let h = self.graph();
            t2.lemma_rebalanced_trans(&t1, &t0);
            t3.lemma_rebalanced_trans(&t2, &t0);
            t4.lemma_rebalanced_trans(&t3, &t0);
            self.lemma_rebalanced_trans(&t4, &t0);
            assert forall|j: usize| h.live(j) implies #[trigger] h.rank_ok(j) by {
                if j == parent {
                } else if j == s {
                } else if j == up {
                } else {
                    assert(g.rank_ok(j));
                    assert(g2.rank_ok(j));
                    assert(g3.rank_ok(j));
                    assert(g4.rank_ok(j));
                }
            }
        }
    }

    /// The double rotation that ends the walk after a removal: the slot
    /// `node` is the right slot of `parent` at gap 3, the sibling is at gap 1,
    /// its left gap is 2 and its right gap is 1. The right child of the
    /// sibling rises over both: rotates left at the sibling, then
    /// right at `parent`. The risen node ends two ranks higher and
    /// `parent` two ranks lower, the sibling one rank lower.
    #[verifier::rlimit(40)]
    pub(crate) fn delete_rotate_left_right(&mut self, node: usize, parent: usize)
        requires
            old(self).wf_shape(),
            old(self).graph().live(parent),
            old(self).nodes@[parent as int].right == node,
            old(self).nodes@[parent as int].left != NIL,
            old(self).graph().ranks_ok_except(parent),
            old(self).nodes@[parent as int].rank - old(self).graph().rank_of(node) == 3,
            old(self).nodes@[parent as int].rank - old(self).graph().rank_of(
                old(self).nodes@[parent as int].left,
            ) == 1,
            old(self).nodes@[old(self).nodes@[parent as int].left as int].rank - old(
                self,
            ).graph().rank_of(
                old(self).nodes@[old(self).nodes@[parent as int].left as int].left,
            ) == 2,
            old(self).nodes@[old(self).nodes@[parent as int].left as int].rank - old(
                self,
            ).graph().rank_of(
                old(self).nodes@[old(self).nodes@[parent as int].left as int].right,
            ) == 1,
        ensures
            final(self).wf_shape(),
            final(self).graph().ranks_ok(),
            final(self).rebalanced_from(old(self)),
            final(self).graph() == old(self).graph().delete_rotated_left_right(parent),
            final(self).rotations == counted(old(self).rotations as nat, 2),
            final(self).rotations <= old(self).rotations + 2,
    {
        let ghost t0 = *self;
        let ghost g = self.graph();
        let ghost up = g.nodes[parent as int].parent;
        proof {
            assert(g.slot_ok(parent));
            if node != NIL {
                assert(g.slot_ok(node));
            }
            if up != NIL {
                assert(g.slot_ok(up));
                assert(g.rank_ok(up));
            }
        }
        let s: usize = self.nodes[parent].left;
        let ghost outer = g.nodes[s as int].left;
        proof {
            assert(g.slot_ok(s));
            assert(g.rank_ok(s));
            if outer != NIL {
                assert(g.slot_ok(outer));
            }
        }
        let t: usize = self.nodes[s].right;
        let ghost t_near = g.nodes[t as int].right;
        let ghost t_far = g.nodes[t as int].left;
        proof {
            assert(g.slot_ok(t));
            assert(g.rank_ok(t));
            if t_near != NIL {
                assert(g.slot_ok(t_near));
            }
            if t_far != NIL {
                assert(g.slot_ok(t_far));
            }
        }
        self.increase_rotations();
        let ghost t1 = *self;
        self.rotate_left(s);
        let ghost t2 = *self;
        let ghost g2 = self.graph();
        proof {
            assert(g2.slot_ok(s));
            assert(g2.slot_ok(t));
            assert(g2.slot_ok(parent));
        }
        self.demote(s);
        let ghost t3 = *self;
        let ghost g3 = self.graph();
        self.promote(t);
        let ghost t4 = *self;
        let ghost g4 = self.graph();
        self.increase_rotations();
        let ghost t5 = *self;
        self.rotate_right(parent);
        let ghost t6 = *self;
        let ghost g6 = self.graph();
        proof {
            assert(g6.slot_ok(parent));
            assert(g6.slot_ok(t));
        }
        self.demote(parent);
        let ghost t7 = *self;
        let ghost g7 = self.graph();
        self.promote(t);
        let ghost t8 = *self;
        let ghost g8 = self.graph();
        self.demote(parent);
        proof {
            let h = self.graph();
            t2.lemma_rebalanced_trans(&t1, &t0);
            t3.lemma_rebalanced_trans(&t2, &t0);
            t4.lemma_rebalanced_trans(&t3, &t0);
            t5.lemma_rebalanced_trans(&t4, &t0);
            t6.lemma_rebalanced_trans(&t5, &t0);
            t7.lemma_rebalanced_trans(&t6, &t0);
            t8.lemma_rebalanced_trans(&t7, &t0);
            self.lemma_rebalanced_trans(&t8, &t0);
            assert forall|j: usize| h.live(j) implies #[trigger] h.rank_ok(j) by {
                if j == parent {
                } else if j == s {
                } else if j == t {
                } else if j == up {
                } else {
                    assert(g.rank_ok(j));
                    assert(g2.rank_ok(j));
                    assert(g3.rank_ok(j));
                    assert(g4.rank_ok(j));
                    assert(g6.rank_ok(j));
                    assert(g7.rank_ok(j));
                    assert(g8.rank_ok(j));
                }
            }
        }
    }

    /// The double rotation that ends the walk after a removal: the slot
    /// `node` is the left slot of `parent` at gap 3, the sibling is at gap 1,
    /// its right gap is 2 and its left gap is 1. The left child of the
    /// sibling rises over both: rotates right at the sibling, then
    /// left at `parent`. The risen node ends two ranks higher and
    /// `parent` two ranks lower, the sibling one rank lower.
    #[verifier::rlimit(40)]
    pub(crate) fn delete_rotate_right_left(&mut self, node: usize, parent: usize)
        requires
            old(self).wf_shape(),
            old(self).graph().live(parent),
            old(self).nodes@[parent as int].left == node,
            old(self).nodes@[parent as int].right != NIL,
            old(self).graph().ranks_ok_except(parent),
            old(self).nodes@[parent as int].rank - old(self).graph().rank_of(node) == 3,
            old(self).nodes@[parent as int].rank - old(self).graph().rank_of(
                old(self).nodes@[parent as int].right,
            ) == 1,
            old(self).nodes@[old(self).nodes@[parent as int].right as int].rank - old(
                self,
            ).graph().rank_of(
                old(self).nodes@[old(self).nodes@[parent as int].right as int].right,
            ) == 2,
            old(self).nodes@[old(self).nodes@[parent as int].right as int].rank - old(
                self,
            ).graph().rank_of(
                old(self).nodes@[old(self).nodes@[parent as int].right as int].left,
            ) == 1,
        ensures
            final(self).wf_shape(),
            final(self).graph().ranks_ok(),
            final(self).rebalanced_from(old(self)),
            final(self).graph() == old(self).graph().delete_rotated_right_left(parent),
            final(self).rotations == counted(old(self).rotations as nat, 2),
            final(self).rotations <= old(self).rotations + 2,
    {
        let ghost t0 = *self;
        let ghost g = self.graph();
        let ghost up = g.nodes[parent as int].parent;
        proof {
            assert(g.slot_ok(parent));
            if node != NIL {
                assert(g.slot_ok(node));
            }
            if up != NIL {
                assert(g.slot_ok(up));
                assert(g.rank_ok(up));
            }
        }
        let s: usize = self.nodes[parent].right;
        let ghost outer = g.nodes[s as int].right;
        proof {
            assert(g.slot_ok(s));
            assert(g.rank_ok(s));
            if outer != NIL {
                assert(g.slot_ok(outer));
            }
        }
        let t: usize = self.nodes[s].left;
        let ghost t_near = g.nodes[t as int].left;
        let ghost t_far = g.nodes[t as int].right;
        proof {
            assert(g.slot_ok(t));
            assert(g.rank_ok(t));
            if t_near != NIL {
                assert(g.slot_ok(t_near));
            }
            if t_far != NIL {
                assert(g.slot_ok(t_far));
            }
        }
        self.increase_rotations();
        let ghost t1 = *self;
        self.rotate_right(s);
        let ghost t2 = *self;
        let ghost g2 = self.graph();
        proof {
            assert(g2.slot_ok(s));
            assert(g2.slot_ok(t));
            assert(g2.slot_ok(parent));
        }
        self.demote(s);
        let ghost t3 = *self;
        let ghost g3 = self.graph();
        self.promote(t);
        let ghost t4 = *self;
        let ghost g4 = self.graph();
        self.increase_rotations();
        let ghost t5 = *self;
        self.rotate_left(parent);
        let ghost t6 = *self;
        let ghost g6 = self.graph();
        proof {
            assert(g6.slot_ok(parent));
            assert(g6.slot_ok(t));
        }
        self.demote(parent);
        let ghost t7 = *self;
        let ghost g7 = self.graph();
        self.promote(t);
        let ghost t8 = *self;
        let ghost g8 = self.graph();
        self.demote(parent);
        proof {
            let h = self.graph();
            t2.lemma_rebalanced_trans(&t1, &t0);
            t3.lemma_rebalanced_trans(&t2, &t0);
            t4.lemma_rebalanced_trans(&t3, &t0);
            t5.lemma_rebalanced_trans(&t4, &t0);
            t6.lemma_rebalanced_trans(&t5, &t0);
            t7.lemma_rebalanced_trans(&t6, &t0);
            t8.lemma_rebalanced_trans(&t7, &t0);
            self.lemma_rebalanced_trans(&t8, &t0);
            assert forall|j: usize| h.live(j) implies #[trigger] h.rank_ok(j) by {
                if j == parent {
                } else if j == s {
                } else if j == t {
                } else if j == up {
                } else {
                    assert(g.rank_ok(j));
                    assert(g2.rank_ok(j));
                    assert(g3.rank_ok(j));
                    assert(g4.rank_ok(j));
                    assert(g6.rank_ok(j));
                    assert(g7.rank_ok(j));
                    assert(g8.rank_ok(j));
                }
            }
        }
    }

    /// Takes the key of `node` out of the tree. A node with at most one
    /// child is taken out itself. A node with two children takes over the
    /// key of its successor in ascending order, and the successor, which has
    /// no left child, is taken out in its stead; ranks and links of `node`
    /// stay as they are. Without `rebalance` nothing else changes; with it
    /// the rank rule is restored from the slot of the node that left.
    #[verifier::rlimit(30)]
    pub(crate) fn remove_node(&mut self, node: usize, rebalance: bool)
        requires
            old(self).wf_shape(),
            old(self).graph().live(node),
            old(self).graph().sorted_but(old(self).span@[node as int].at),
            old(self).graph().fits(node),
            rebalance ==> old(self).graph().ranks_ok(),
        ensures
            final(self).wf_shape(),
            final(self).graph().sorted(),
            rebalance ==> final(self).graph().ranks_ok(),
            final(self).graph().keys_removed(old(self).graph(), old(self).span@[node as int].at),
            final(self).count == old(self).count,
            final(self).accessed_nodes == old(self).accessed_nodes,
            old(self).rotations <= final(self).rotations <= old(self).rotations + 2,
            !rebalance ==> final(self).rotations == old(self).rotations,
            !rebalance ==> final(self).graph() == old(self).graph().unlinked(node),
            final(self).free@ == old(self).free@.push(old(self).graph().leaver(node)),
            rebalance ==> final(self).graph().shape_at(final(self).root) == old(
                self,
            ).graph().unlinked(node).shape_at(old(self).graph().unlinked(node).root).resettled(
                old(self).nodes@[old(self).graph().leaver(node) as int].data,
                old(self).graph().unlinked_levels(node),
                true,
            ),
            rebalance && old(self).graph().strict_except(NIL) ==> final(self).graph().shape_at(
                final(self).root,
            ).no_double_gap() || old(self).graph().unlinked(node).shape_at(
                old(self).graph().unlinked(node).root,
            ).resettled_strands(
                old(self).nodes@[old(self).graph().leaver(node) as int].data,
                old(self).graph().unlinked_levels(node),
                true,
            ),
            rebalance ==> final(self).rotations == counted(
                old(self).rotations as nat,
                old(self).graph().unlinked(node).shape_at(
                    old(self).graph().unlinked(node).root,
                ).resettled_turns(
                    old(self).nodes@[old(self).graph().leaver(node) as int].data,
                    old(self).graph().unlinked_levels(node),
                ),
            ),
            rebalance ==> old(self).graph().unlinked(node).shape_at(
                old(self).graph().unlinked(node).root,
            ).resettled_turns(
                old(self).nodes@[old(self).graph().leaver(node) as int].data,
                old(self).graph().unlinked_levels(node),
            ) <= 2,
        decreases
            if old(self).nodes@[node as int].left != NIL && old(self).nodes@[node as int].right
                != NIL {
                1int
            } else {
                0int
            },
    {
        let ghost g = self.graph();
        let ghost q = g.span[node as int].at;
        proof {
            assert(g.slot_ok(node));
        }
        let lchild: usize = self.nodes[node].left;
        let rchild: usize = self.nodes[node].right;
        if lchild == NIL && rchild == NIL {
            self.replace_node(node, NIL, rebalance);
        } else if lchild != NIL && rchild != NIL {
            let succ: usize = self.successor_of_node(node);
            proof {
                assert(g.slot_ok(rchild));
                assert(g.slot_ok(succ));
                assert(g.span[succ as int].at == q + 1);
            }
            self.nodes[node].data = self.nodes[succ].data;
            proof {
                let m = self.graph();
                assert forall|i: usize| m.live(i) implies #[trigger] m.slot_ok(i) by {
                    assert(g.slot_ok(i));
                }
                assert forall|p: int| 0 <= p < m.order.len() implies #[trigger] m.key_at(p) == if p
                    == q {
                    g.key_at(q + 1)
                } else {
                    g.key_at(p)
                } by {
                    assert(g.live(g.order[p]));
                    assert(g.slot_ok(g.order[p]));
                }
                assert(g.key_at(q + 1) == g.nodes[succ as int].data);
                assert forall|p1: int, p2: int|
                    0 <= p1 < p2 < m.order.len() && p1 != q + 1 && p2 != q + 1 implies m.key_at(p1)
                    < m.key_at(p2) by {
                    if p1 == q {
                        assert(g.key_at(q + 1) < g.key_at(p2));
                    } else if p2 == q {
                        assert(g.key_at(p1) < g.key_at(q + 1));
                    } else {
                        assert(g.key_at(p1) < g.key_at(p2));
                    }
                }
                if rebalance {
                    assert forall|j: usize| m.live(j) implies #[trigger] m.rank_ok(j) by {
                        assert(g.rank_ok(j));
                        assert(g.slot_ok(j));
                    }
                    if g.strict_except(NIL) {
                        assert forall|j: usize| m.live(j) && j != NIL implies #[trigger] m.strict_ok(
                            j,
                        ) by {
                            assert(g.strict_ok(j));
                            assert(g.slot_ok(j));
                        }
                    }
                }
                assert forall|k: int| 0 <= k < self.free@.len() implies (#[trigger] self.free@[k])
                    < self.nodes@.len() && !self.span@[self.free@[k] as int].live by {
                    assert(old(self).free@[k] < old(self).nodes@.len());
                }
            }
            let ghost m = self.graph();
            proof {
                assert(m == g.with_key(node, g.nodes[succ as int].data));
                assert(m.fits(succ)) by {
                    assert(m.key_at(q) == g.key_at(q + 1));
                    if q + 2 < m.order.len() {
                        assert(m.key_at(q + 2) == g.key_at(q + 2));
                        assert(g.key_at(q + 1) < g.key_at(q + 2));
                    }
                }
                assert(m.leaver(succ) == succ);
                assert(g.leaver(node) == succ);
                assert(m.nodes[succ as int].parent == g.nodes[succ as int].parent);
            }
            self.remove_node(succ, rebalance);
            proof {
                let h = self.graph();
                assert(h.keys_removed(g, q)) by {
                    assert forall|p: int| 0 <= p < q implies #[trigger] h.key_at(p) == g.key_at(
                        p,
                    ) by {
                        assert(h.key_at(p) == m.key_at(p));
                    }
                    assert forall|p: int| q <= p < h.order.len() implies #[trigger] h.key_at(p)
                        == g.key_at(p + 1) by {
                        if p == q {
                            assert(h.key_at(p) == m.key_at(p));
                        } else {
                            assert(h.key_at(p) == m.key_at(p + 1));
                        }
                    }
                }
            }
        } else if lchild != NIL {
            self.replace_node(node, lchild, rebalance);
        } else {
            self.replace_node(node, rchild, rebalance);
        }
    }

    /// Takes `data` out of the tree if it is there, and reports whether it
    /// was. The keys stay in search order and every node obeys the rank rule
    /// afterwards; an absent key leaves the tree as it was.
    pub(crate) fn remove(&mut self, data: i32) -> (removed: bool)
        requires
            old(self).wf(),
        ensures
            final(self).wf(),
            removed == old(self).contains(data),
            final(self).keys() == old(self).keys().remove(data),
            !final(self).contains(data),
            forall|k: i32| k != data ==> #[trigger] holds(final(self)@, k) == holds(old(self)@, k),
            final(self).shape() == if removed {
                old(self).shape().removed(data)
            } else {
                old(self).shape()
            },
            !removed ==> final(self)@ == old(self)@,
            removed ==> exists|a: int|
                0 <= a < old(self)@.len() && old(self)@[a].0 == data && #[trigger] key_seq(
                    old(self)@,
                ).remove(a) == key_seq(final(self)@),
            old(self).shape().no_double_gap() ==> final(self).shape().no_double_gap() || (removed
                && old(self).shape().remove_strands(data)),
            final(self).spec_rotations() == if removed {
                counted(old(self).spec_rotations(), old(self).shape().remove_turns(data))
            } else {
                old(self).spec_rotations()
            },
            removed ==> old(self).shape().remove_turns(data) <= 2,
            final(self).spec_accessed_nodes() == counted(
                old(self).spec_accessed_nodes(),
                old(self).shape().misses(data),
            ),
    {
        let ghost g = self.graph();
        proof {
            if self.root != NIL {
                assert(g.slot_ok(self.root));
            }
            old(self).lemma_has_key(data);
        }
        let node: usize = self.find_node(self.root, data);
        if node == NIL {
            proof {
                assert(!old(self).keys().contains(data));
                assert(old(self).keys().remove(data) =~= old(self).keys());
            }
            false
        } else {
            let ghost t1 = *self;
            let ghost q = g.span[node as int].at;
            proof {
                assert(g.slot_ok(node));
                assert(g.key_at(q) == data);
                if q > 0 {
                    assert(g.key_at(q - 1) < g.key_at(q));
                }
                if q + 1 < g.order.len() {
                    assert(g.key_at(q) < g.key_at(q + 1));
                }
                g.lemma_unlinked_shape(node);
                g.lemma_unlinked_levels(node);
                if g.shape_at(g.root).no_double_gap() {
                    g.lemma_strict_nodes();
                }
            }
            self.remove_node(node, true);
            self.count -= 1;
            proof {
                self.lemma_keys_removed(&t1, q);
                assert(!self.keys().contains(data));
                assert forall|k: i32| k != data implies #[trigger] holds(self@, k) == holds(
                    old(self)@,
                    k,
                ) by {
                    assert(self.keys().contains(k) == old(self).keys().contains(k));
                }
            }
            true
        }
    }

    /// Checks the node that a rotation has lifted: where both its gaps are
    /// 2, it is demoted if there is room, that is, if it is the root or both
    /// gaps of its parent are 1. Without room it keeps its rank, since the
    /// walk ends with the rotation.
    pub(crate) fn check_risen(&mut self, top: usize)
        requires
            old(self).wf_shape(),
            old(self).graph().live(top),
            old(self).graph().ranks_ok(),
        ensures
            final(self).wf_shape(),
            final(self).graph().ranks_ok(),
            final(self).rebalanced_from(old(self)),
            *final(self) == (RawTree { nodes: final(self).nodes, ..*old(self) }),
            final(self).graph() == old(self).graph().lowered_at(
                top,
                old(self).graph().room_above(top),
            ),
    {
        let ghost g = self.graph();
        proof {
            self.lemma_rebalanced_refl();
            assert(g.slot_ok(top));
            assert(g.rank_ok(top));
            if g.nodes[top as int].left != NIL {
                assert(g.slot_ok(g.nodes[top as int].left));
            }
            if g.nodes[top as int].right != NIL {
                assert(g.slot_ok(g.nodes[top as int].right));
            }
        }
        let left_rank: i32 = self.slot_rank(self.nodes[top].left);
        let right_rank: i32 = self.slot_rank(self.nodes[top].right);
        if self.nodes[top].rank - left_rank == 2 && self.nodes[top].rank - right_rank == 2 {
            let up: usize = self.nodes[top].parent;
            let mut room: bool = true;
            if up != NIL {
                proof {
                    assert(g.slot_ok(up));
                    assert(g.rank_ok(up));
                    if g.nodes[up as int].left != NIL {
                        assert(g.slot_ok(g.nodes[up as int].left));
                    }
                    if g.nodes[up as int].right != NIL {
                        assert(g.slot_ok(g.nodes[up as int].right));
                    }
                }
                let up_left_rank: i32 = self.slot_rank(self.nodes[up].left);
                let up_right_rank: i32 = self.slot_rank(self.nodes[up].right);
                room = self.nodes[up].rank - up_left_rank == 1 && self.nodes[up].rank
                    - up_right_rank == 1;
            }
            if room {
                self.demote(top);
                proof {
                    let h = self.graph();
                    assert forall|j: usize| h.live(j) implies #[trigger] h.rank_ok(j) by {
                        if j != top && j != up {
                            assert(g.rank_ok(j));
                        }
                    }
                }
            }
        }
    }

    /// Restores the rank rule after a node was removed from the child slot
    /// `node` of `parent`. Walks up while its steps are demotions: of a
    /// parent with gap 2 on both sides, of a parent at gap 3 to the slot and
    /// gap 2 to the sibling, and of such a parent together with a sibling
    /// that has gap 2 on both sides. The walk ends where the gap to the slot
    /// is in order, or with one single or double rotation, after which the
    /// lifted node is checked. Where the tree was in order but for a gap at
    /// `parent` that the removal has made grow, no node has gap 2 on both
    /// sides afterwards, unless the walk ends in a rotation that leaves the
    /// lifted node so. The ghost arguments say on which side of `parent` the
    /// slot lies and where the key `gone` of the removed node stood in the
    /// ascending sequence.
    #[verifier::rlimit(60)]
    pub(crate) fn balance_deleted(
        &mut self,
        node: usize,
        parent: usize,
        Ghost(on_left): Ghost<bool>,
        Ghost(gone): Ghost<i32>,
        Ghost(q): Ghost<int>,
    )
        requires
            old(self).wf_shape(),
            old(self).graph().sorted(),
            old(self).graph().delete_pending(node, parent),
            parent != NIL ==> node == (if on_left {
                old(self).nodes@[parent as int].left
            } else {
                old(self).nodes@[parent as int].right
            }) && old(self).graph().gap_at(
                gone,
                q,
                old(self).graph().slot_lo(parent, on_left),
                old(self).graph().slot_hi(parent, on_left),
            ),
        ensures
            final(self).wf_shape(),
            final(self).graph().ranks_ok(),
            final(self).rebalanced_from(old(self)),
            final(self).rotations <= old(self).rotations + 2,
            final(self).graph().shape_at(final(self).root) == old(self).graph().shape_at(
                old(self).root,
            ).resettled(gone, old(self).graph().walk_levels(parent), true),
            final(self).rotations == counted(
                old(self).rotations as nat,
                old(self).graph().shape_at(old(self).root).resettled_turns(
                    gone,
                    old(self).graph().walk_levels(parent),
                ),
            ),
            old(self).graph().shape_at(old(self).root).resettled_turns(
                gone,
                old(self).graph().walk_levels(parent),
            ) <= 2,
            old(self).graph().strict_except(parent) && (parent != NIL ==> old(
                self,
            ).graph().gap_grown_at(parent, on_left)) ==> final(self).graph().shape_at(
                final(self).root,
            ).no_double_gap() || old(self).graph().shape_at(old(self).root).resettled_strands(
                gone,
                old(self).graph().walk_levels(parent),
                true,
            ),
    {
        let ghost start = self.graph();
        let ghost total = start.walk_levels(parent);
        let ghost parent0 = parent;
        let ghost key0 = start.nodes[parent as int].data;
        let ghost a0 = start.span[parent as int].at;
        let ghost mut side: bool = on_left;
        let ghost mut levels: nat = 1;
        let mut node: usize = node;
        let mut parent: usize = parent;
        proof {
            self.lemma_rebalanced_refl();
            if parent != NIL {
                start.lemma_dwalk_start(parent, side, gone, q);
            }
            if start.strict_except(parent) && (parent != NIL ==> start.gap_grown_at(
                parent,
                on_left,
            )) {
                start.lemma_walk_strict(parent, on_left, gone, q);
            }
        }
        loop
            invariant_except_break
                self.graph().delete_pending(node, parent),
                self.rotations == old(self).rotations,
                parent != NIL ==> start.delete_walk(
                    self.graph(),
                    parent,
                    side,
                    gone,
                    q,
                    levels,
                    key0,
                    a0,
                ) && node == (if side {
                    self.nodes@[parent as int].left
                } else {
                    self.nodes@[parent as int].right
                }) && total == start.shape_at(start.root).path_len(key0),
                parent == NIL ==> self.graph().shape_at(self.root) == start.shape_at(
                    start.root,
                ).resettled(gone, total, true) && start.shape_at(start.root).resettled_turns(
                    gone,
                    total,
                ) == 0,
            invariant
                self.wf_shape(),
                self.rebalanced_from(old(self)),
                start == old(self).graph(),
                total == old(self).graph().walk_levels(parent0),
            ensures
                self.graph().ranks_ok(),
                self.rotations <= old(self).rotations + 2,
                self.graph().shape_at(self.root) == start.shape_at(start.root).resettled(
                    gone,
                    total,
                    true,
                ),
                self.rotations == counted(
                    old(self).rotations as nat,
                    start.shape_at(start.root).resettled_turns(gone, total),
                ),
                start.shape_at(start.root).resettled_turns(gone, total) <= 2,
            decreases
                if parent == NIL {
                    0
                } else {
                    1 + self.order@.len() - (self.span@[parent as int].hi
                        - self.span@[parent as int].lo)
                },
        {
            if parent == NIL {
                break ;
            }
            let ghost t0 = *self;
            let ghost g = self.graph();
            let ghost up = g.nodes[parent as int].parent;
            let ghost sib = g.sibling_of(node, parent);
            let ghost room = start.room_above(parent);
            proof {
                assert(g.slot_ok(parent));
                assert(start.slot_ok(parent));
                assert(start.within(parent, parent));
                if node != NIL {
                    assert(g.slot_ok(node));
                }
                if sib != NIL {
                    assert(g.slot_ok(sib));
                    assert(g.rank_ok(sib));
                }
                if up != NIL {
                    assert(g.slot_ok(up));
                    assert(g.rank_ok(up));
                }
                assert(sib == if side {
                    g.nodes[parent as int].right
                } else {
                    g.nodes[parent as int].left
                });
                start.lemma_room_kept(g, parent, parent);
            }
            let node_rank: i32 = self.slot_rank(node);
            let parent_rank: i32 = self.nodes[parent].rank;
            if parent_rank - node_rank == 1 {
                proof {
                    g.lemma_delete_stop(parent, side, room);
                    g.lemma_replaced_refl(parent);
                    start.lemma_dwalk_done(g, g, parent, parent, side, gone, q, levels, key0, a0, 0);
                }
                break ;
            }
            let sibling_rank: i32 = self.get_node_sibling_rank(node, parent);
            if parent_rank - node_rank == 2 && parent_rank - sibling_rank != 2 {
                proof {
                    g.lemma_delete_stop(parent, side, room);
                    g.lemma_replaced_refl(parent);
                    start.lemma_dwalk_done(g, g, parent, parent, side, gone, q, levels, key0, a0, 0);
                }
                break ;
            }
            if parent_rank - sibling_rank == 2 {
                proof {
                    g.lemma_delete_demoted(parent, side, room);
                }
                self.demote(parent);
                proof {
                    let h = self.graph();
                    self.lemma_rebalanced_trans(&t0, old(self));
                    assert(h.rank_ok(parent));
                    assert(h.delete_pending(parent, up));
                    start.lemma_dwalk_up(g, h, parent, side, gone, q, levels, key0, a0);
                    if up != NIL {
                        side = start.nodes[up as int].left == parent;
                        levels = (levels + 1) as nat;
                        assert(start.same_node(h, up));
                    }
                }
                node = parent;
                parent = self.nodes[node].parent;
                continue ;
            }
            let sibling_left_rank: i32 = self.get_node_sibling_left_rank(node, parent);
            let sibling_right_rank: i32 = self.get_node_sibling_right_rank(node, parent);
            if sibling_rank - sibling_left_rank == 2 && sibling_rank - sibling_right_rank == 2 {
                proof {
                    g.lemma_delete_demoted_both(parent, side, room);
                }
                self.demote(parent);
                let ghost t1 = *self;
                let ghost g1 = self.graph();
                let sibling: usize = self.get_node_sibling(node, parent);
                self.demote(sibling);
                proof {
                    let h = self.graph();
                    t1.lemma_rebalanced_trans(&t0, old(self));
                    self.lemma_rebalanced_trans(&t1, old(self));
                    assert(h.rank_ok(sibling));
                    assert(h.rank_ok(parent));
                    assert forall|j: usize| h.live(j) && j != up implies #[trigger] h.rank_ok(
                        j,
                    ) by {
                        if j != parent && j != sibling {
                            assert(g.rank_ok(j));
                            assert(g1.rank_ok(j));
                        }
                    }
                    assert(h.delete_pending(parent, up));
                    start.lemma_dwalk_up(g, h, parent, side, gone, q, levels, key0, a0);
                    if up != NIL {
                        side = start.nodes[up as int].left == parent;
                        levels = (levels + 1) as nat;
                        assert(start.same_node(h, up));
                    }
                }
                node = parent;
                parent = self.nodes[node].parent;
                continue ;
            }
            let top: usize;
            let ghost turns: nat;
            if self.nodes[parent].right == node {
                if sibling_rank - sibling_left_rank == 1 {
                    top = self.nodes[parent].left;
                    self.delete_rotate_right(node, parent);
                    proof {
                        turns = 1;
                        g.lemma_delete_rotated_right(parent, room);
                    }
                } else {
                    let s: usize = self.nodes[parent].left;
                    top = self.nodes[s].right;
                    self.delete_rotate_left_right(node, parent);
                    proof {
                        turns = 2;
                        g.lemma_delete_rotated_left_right(parent, room);
                    }
                }
            } else {
                if sibling_rank - sibling_right_rank == 1 {
                    top = self.nodes[parent].right;
                    self.delete_rotate_left(node, parent);
                    proof {
                        turns = 1;
                        g.lemma_delete_rotated_left(parent, room);
                    }
                } else {
                    let s: usize = self.nodes[parent].right;
                    top = self.nodes[s].left;
                    self.delete_rotate_right_left(node, parent);
                    proof {
                        turns = 2;
                        g.lemma_delete_rotated_right_left(parent, room);
                    }
                }
            }
            let ghost t1 = *self;
            let ghost high = self.graph();
            proof {
                t1.lemma_rebalanced_trans(&t0, old(self));
                assert(high.live(top));
                high.lemma_lowered(top, room);
            }
            self.check_risen(top);
            proof {
                self.lemma_rebalanced_trans(&t1, old(self));
                g.lemma_replaced_trans(high, self.graph(), parent, top, top);
                start.lemma_dwalk_done(
                    g,
                    self.graph(),
                    parent,
                    top,
                    side,
                    gone,
                    q,
                    levels,
                    key0,
                    a0,
                    turns,
                );
            }
            break ;
        }
    }
}

} // verus!
