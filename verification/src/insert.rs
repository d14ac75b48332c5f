//! Insertion, and the walk that restores the rank rule after it.

use vstd::prelude::*;
use crate::arena::Graph;
use crate::model::{counted, holds, key_seq};
use crate::node::NIL;
use crate::raw::RawTree;

verus! {

impl Graph {
    /// The state in which the walk after an insertion stands at `node`: the
    /// rank rule holds everywhere but at the parent of `node`, where the gap
    /// to `node` may have shrunk to 0. A node at gap 0 is the new leaf or has
    /// just been promoted, so its own gaps are 1 and 2.
    pub open spec fn insert_pending(self, node: usize) -> bool {
        let nd = self.nodes[node as int];
        let p = nd.parent;
        &&& self.live(node)
        &&& self.ranks_ok_except(p)
        &&& p != NIL ==> {
            let gap = self.nodes[p as int].rank - nd.rank;
            let sib = self.nodes[p as int].rank - self.rank_of(self.sibling_of(node, p));
            &&& 0 <= gap <= 1
            &&& gap == 1 ==> self.rank_ok(p)
            &&& gap == 0 ==> {
                &&& 1 <= sib <= 2
                &&& (nd.rank == 1 || (nd.rank - self.rank_of(nd.left)) + (nd.rank - self.rank_of(
                    nd.right,
                )) == 3)
            }
        }
    }
}

impl Graph {
    /// The descent for `data` may stand at `cur`: the keys next to the
    /// subtree of `cur` on either side enclose `data`, and the nodes that
    /// hold them are ancestors of `cur`.
    pub open spec fn window(self, cur: usize, data: i32) -> bool {
        let lo = self.span[cur as int].lo;
        let hi = self.span[cur as int].hi;
        &&& lo > 0 ==> self.key_at(lo - 1) < data && self.span[self.order[lo - 1] as int].hi >= hi
        &&& hi < self.order.len() ==> data < self.key_at(hi) && self.span[self.order[hi] as int].lo
            <= lo
    }
}

impl Graph {
    /// The graph after the single rotation that ends the walk after an
    /// insertion where `node` is the right child of `parent`.
    pub open spec fn insert_rotated_left(self, parent: usize) -> Graph {
        self.rotated_left(parent).bumped(parent, -1)
    }

    /// The single left rotation after an insertion is the step of
    /// `after_insert` at `parent`.
    pub proof fn lemma_insert_rotated_left(self, node: usize, parent: usize)
        requires
            self.shape_ok(),
            self.live(parent),
            self.live(node),
            self.nodes[parent as int].right == node,
            self.nodes[parent as int].rank == self.nodes[node as int].rank,
            self.nodes[parent as int].rank - self.rank_of(self.nodes[parent as int].left) == 2,
            self.nodes[node as int].rank - self.rank_of(self.nodes[node as int].right) == 1,
            self.nodes[node as int].rank - self.rank_of(self.nodes[node as int].left) == 2,
        ensures
            self.insert_rotated_left(parent).shape_ok(),
            self.replaced_below(self.insert_rotated_left(parent), parent, node),
            self.insert_rotated_left(parent).nodes[node as int].rank
                == self.nodes[parent as int].rank,
            self.insert_rotated_left(parent).shape_at(node) == self.shape_at(
                parent,
            ).after_insert(false),
            self.shape_at(parent).insert_turns_at(false) == 1,
    {
        let g1 = self.rotated_left(parent);
        let h = g1.bumped(parent, -1);
        assert(self.slot_ok(parent));
        assert(self.slot_ok(node));
        let sib = self.nodes[parent as int].left;
        let outer = self.nodes[node as int].right;
        let inner = self.nodes[node as int].left;
        if sib != NIL {
            assert(self.slot_ok(sib));
        }
        if outer != NIL {
            assert(self.slot_ok(outer));
        }
        if inner != NIL {
            assert(self.slot_ok(inner));
        }
        self.lemma_unfold(parent);
        self.lemma_unfold(node);
        if sib != NIL {
            self.lemma_unfold(sib);
        }
        if outer != NIL {
            self.lemma_unfold(outer);
        }
        if inner != NIL {
            self.lemma_unfold(inner);
        }
        self.lemma_rotated_left_shape(parent);
        self.lemma_rotated_left(parent);
        assert(g1.slot_ok(parent));
        assert(g1.slot_ok(node));
        g1.lemma_unfold(node);
        g1.lemma_bumped(parent, -1);
        g1.lemma_lift(h, parent, parent);
        self.lemma_replaced_trans(g1, h, parent, node, node);
    }

    /// The graph after the single rotation that ends the walk after an
    /// insertion where `node` is the left child of `parent`.
    pub open spec fn insert_rotated_right(self, parent: usize) -> Graph {
        self.rotated_right(parent).bumped(parent, -1)
    }

    /// The single right rotation after an insertion is the step of
    /// `after_insert` at `parent`.
    pub proof fn lemma_insert_rotated_right(self, node: usize, parent: usize)
        requires
            self.shape_ok(),
            self.live(parent),
            self.live(node),
            self.nodes[parent as int].left == node,
            self.nodes[parent as int].rank == self.nodes[node as int].rank,
            self.nodes[parent as int].rank - self.rank_of(self.nodes[parent as int].right) == 2,
            self.nodes[node as int].rank - self.rank_of(self.nodes[node as int].left) == 1,
            self.nodes[node as int].rank - self.rank_of(self.nodes[node as int].right) == 2,
        ensures
            self.insert_rotated_right(parent).shape_ok(),
            self.replaced_below(self.insert_rotated_right(parent), parent, node),
            self.insert_rotated_right(parent).nodes[node as int].rank
                == self.nodes[parent as int].rank,
            self.insert_rotated_right(parent).shape_at(node) == self.shape_at(
                parent,
            ).after_insert(true),
            self.shape_at(parent).insert_turns_at(true) == 1,
    {
        let g1 = self.rotated_right(parent);
        let h = g1.bumped(parent, -1);
        assert(self.slot_ok(parent));
        assert(self.slot_ok(node));
        let sib = self.nodes[parent as int].right;
        let outer = self.nodes[node as int].left;
        let inner = self.nodes[node as int].right;
        if sib != NIL {
            assert(self.slot_ok(sib));
        }
        if outer != NIL {
            assert(self.slot_ok(outer));
        }
        if inner != NIL {
            assert(self.slot_ok(inner));
        }
        self.lemma_unfold(parent);
        self.lemma_unfold(node);
        if sib != NIL {
            self.lemma_unfold(sib);
        }
        if outer != NIL {
            self.lemma_unfold(outer);
        }
        if inner != NIL {
            self.lemma_unfold(inner);
        }
        self.lemma_rotated_right_shape(parent);
        self.lemma_rotated_right(parent);
        assert(g1.slot_ok(parent));
        assert(g1.slot_ok(node));
        g1.lemma_unfold(node);
        g1.lemma_bumped(parent, -1);
        g1.lemma_lift(h, parent, parent);
        self.lemma_replaced_trans(g1, h, parent, node, node);
    }

    /// The graph after the double rotation that ends the walk after an
    /// insertion where `node` is the right child of `parent`.
    pub open spec fn insert_rotated_right_left(self, node: usize, parent: usize) -> Graph {
        let t = self.nodes[node as int].left;
        self.rotated_right(node).bumped(node, -1).bumped(t, 1).rotated_left(parent).bumped(
            parent,
            -1,
        )
    }

    /// The double rotation after an insertion is the step of `after_insert`
    /// at `parent`.
    #[verifier::rlimit(30)]
    pub proof fn lemma_insert_rotated_right_left(self, node: usize, parent: usize)
        requires
            self.shape_ok(),
            self.live(parent),
            self.live(node),
            self.nodes[parent as int].right == node,
            self.rank_ok(node),
            self.nodes[node as int].left != NIL ==> self.rank_ok(self.nodes[node as int].left),
            self.nodes[parent as int].rank == self.nodes[node as int].rank,
            self.nodes[parent as int].rank - self.rank_of(self.nodes[parent as int].left) == 2,
            self.nodes[node as int].rank - self.rank_of(self.nodes[node as int].left) == 1,
            self.nodes[node as int].rank - self.rank_of(self.nodes[node as int].right) == 2,
        ensures
            self.insert_rotated_right_left(node, parent).shape_ok(),
            self.replaced_below(
                self.insert_rotated_right_left(node, parent),
                parent,
                self.nodes[node as int].left,
            ),
            self.insert_rotated_right_left(node, parent).nodes[self.nodes[node as int].left as int].rank
                == self.nodes[parent as int].rank,
            self.insert_rotated_right_left(node, parent).shape_at(self.nodes[node as int].left)
                == self.shape_at(parent).after_insert(false),
            self.shape_at(parent).insert_turns_at(false) == 2,
    {
        let t = self.nodes[node as int].left;
        let g1 = self.rotated_right(node);
        let g2 = g1.bumped(node, -1);
        let g3 = g2.bumped(t, 1);
        let g4 = g3.rotated_left(parent);
        let h = g4.bumped(parent, -1);
        assert(self.slot_ok(parent));
        assert(self.slot_ok(node));
        let sib = self.nodes[parent as int].left;
        let outer = self.nodes[node as int].right;
        if outer != NIL {
            assert(self.slot_ok(outer));
        }
        assert(t != NIL);
        assert(self.slot_ok(t));
        if sib != NIL {
            assert(self.slot_ok(sib));
            self.lemma_unfold(sib);
        }
        if outer != NIL {
            assert(self.slot_ok(outer));
            self.lemma_unfold(outer);
        }
        self.lemma_unfold(parent);
        self.lemma_unfold(node);
        self.lemma_unfold(t);
        // the inner child rises over `node`
        self.lemma_rotated_right_shape(node);
        self.lemma_rotated_right(node);
        assert(g1.slot_ok(node));
        assert(g1.slot_ok(t));
        assert(g1.slot_ok(parent));
        g1.lemma_unfold(t);
        g1.lemma_unfold(node);
        g1.lemma_bumped(node, -1);
        g1.lemma_lift(g2, node, node);
        assert(g2.slot_ok(t));
        g2.lemma_bumped(t, 1);
        g1.lemma_replaced_trans(g2, g3, t, t, t);
        self.lemma_replaced_trans(g1, g3, node, t, t);
        assert(g3.shape_at(t) == self.shape_at(node).rotated_right().with_child(
            false,
            self.shape_at(node).rotated_right().child(false).demoted(),
        ).promoted());
        // seen from `parent`
        self.lemma_lift(g3, node, t);
        assert(g3.slot_ok(parent));
        assert(g3.slot_ok(t));
        // the risen node rises over `parent`
        g3.lemma_rotated_left_shape(parent);
        g3.lemma_rotated_left(parent);
        assert(g4.slot_ok(parent));
        assert(g4.slot_ok(t));
        g4.lemma_unfold(t);
        g4.lemma_bumped(parent, -1);
        g4.lemma_lift(h, parent, parent);
        g3.lemma_replaced_trans(g4, h, parent, t, t);
        self.lemma_replaced_trans(g3, h, parent, parent, t);
    }

    /// The graph after the double rotation that ends the walk after an
    /// insertion where `node` is the left child of `parent`.
    pub open spec fn insert_rotated_left_right(self, node: usize, parent: usize) -> Graph {
        let t = self.nodes[node as int].right;
        self.rotated_left(node).bumped(node, -1).bumped(t, 1).rotated_right(parent).bumped(
            parent,
            -1,
        )
    }

    /// The double rotation after an insertion is the step of `after_insert`
    /// at `parent`.
    #[verifier::rlimit(30)]
    pub proof fn lemma_insert_rotated_left_right(self, node: usize, parent: usize)
        requires
            self.shape_ok(),
            self.live(parent),
            self.live(node),
            self.nodes[parent as int].left == node,
            self.rank_ok(node),
            self.nodes[node as int].right != NIL ==> self.rank_ok(self.nodes[node as int].right),
            self.nodes[parent as int].rank == self.nodes[node as int].rank,
            self.nodes[parent as int].rank - self.rank_of(self.nodes[parent as int].right) == 2,
            self.nodes[node as int].rank - self.rank_of(self.nodes[node as int].right) == 1,
            self.nodes[node as int].rank - self.rank_of(self.nodes[node as int].left) == 2,
        ensures
            self.insert_rotated_left_right(node, parent).shape_ok(),
            self.replaced_below(
                self.insert_rotated_left_right(node, parent),
                parent,
                self.nodes[node as int].right,
            ),
            self.insert_rotated_left_right(node, parent).nodes[self.nodes[node as int].right as int].rank
                == self.nodes[parent as int].rank,
            self.insert_rotated_left_right(node, parent).shape_at(self.nodes[node as int].right)
                == self.shape_at(parent).after_insert(true),
            self.shape_at(parent).insert_turns_at(true) == 2,
    {
        let t = self.nodes[node as int].right;
        let g1 = self.rotated_left(node);
        let g2 = g1.bumped(node, -1);
        let g3 = g2.bumped(t, 1);
        let g4 = g3.rotated_right(parent);
        let h = g4.bumped(parent, -1);
        assert(self.slot_ok(parent));
        assert(self.slot_ok(node));
        let sib = self.nodes[parent as int].right;
        let outer = self.nodes[node as int].left;
        if outer != NIL {
            assert(self.slot_ok(outer));
        }
        assert(t != NIL);
        assert(self.slot_ok(t));
        if sib != NIL {
            assert(self.slot_ok(sib));
            self.lemma_unfold(sib);
        }
        if outer != NIL {
            assert(self.slot_ok(outer));
            self.lemma_unfold(outer);
        }
        self.lemma_unfold(parent);
        self.lemma_unfold(node);
        self.lemma_unfold(t);
        // the inner child rises over `node`
        self.lemma_rotated_left_shape(node);
        self.lemma_rotated_left(node);
        assert(g1.slot_ok(node));
        assert(g1.slot_ok(t));
        assert(g1.slot_ok(parent));
        g1.lemma_unfold(t);
        g1.lemma_unfold(node);
        g1.lemma_bumped(node, -1);
        g1.lemma_lift(g2, node, node);
        assert(g2.slot_ok(t));
        g2.lemma_bumped(t, 1);
        g1.lemma_replaced_trans(g2, g3, t, t, t);
        self.lemma_replaced_trans(g1, g3, node, t, t);
        assert(g3.shape_at(t) == self.shape_at(node).rotated_left().with_child(
            true,
            self.shape_at(node).rotated_left().child(true).demoted(),
        ).promoted());
        // seen from `parent`
        self.lemma_lift(g3, node, t);
        assert(g3.slot_ok(parent));
        assert(g3.slot_ok(t));
        // the risen node rises over `parent`
        g3.lemma_rotated_right_shape(parent);
        g3.lemma_rotated_right(parent);
        assert(g4.slot_ok(parent));
        assert(g4.slot_ok(t));
        g4.lemma_unfold(t);
        g4.lemma_bumped(parent, -1);
        g4.lemma_lift(h, parent, parent);
        g3.lemma_replaced_trans(g4, h, parent, t, t);
        self.lemma_replaced_trans(g3, h, parent, parent, t);
    }

    /// The walk after the insertion of `key` has reached `node`: `cur` is
    /// `self`, the graph in which the walk began, but below `node`, where
    /// the walk has settled the shape. Position `a` is that of the new leaf.
    pub open spec fn insert_walk(self, cur: Graph, node: usize, key: i32, a: int) -> bool {
        &&& self.shape_ok()
        &&& cur.shape_ok()
        &&& self.sorted()
        &&& self.live(node)
        &&& self.replaced_below(cur, node, node)
        &&& self.span[node as int].lo <= a < self.span[node as int].hi
        &&& self.key_at(a) == key
        &&& cur.shape_at(node) == self.shape_at(node).settled(key)
        &&& self.shape_at(node).settled_turns(key) == 0
        &&& forall|j: usize|
            self.live(j) && !self.within(j, node) && j != self.nodes[node as int].parent
                ==> #[trigger] self.rank_ok(j)
    }

    /// Above a subtree that the walk has settled and left at a gap other
    /// than 0, no step of the walk changes anything.
    pub proof fn lemma_settled_above(self, cur: Graph, c: usize, top: usize, key: i32, a: int)
        requires
            self.shape_ok(),
            cur.shape_ok(),
            self.sorted(),
            self.live(c),
            self.replaced_below(cur, c, top),
            self.span[c as int].lo <= a < self.span[c as int].hi,
            self.key_at(a) == key,
            cur.shape_at(top) == self.shape_at(c).settled(key),
            forall|j: usize|
                self.live(j) && !self.within(j, c) && j != self.nodes[c as int].parent
                    ==> #[trigger] self.rank_ok(j),
            self.nodes[c as int].parent != NIL ==> self.nodes[self.nodes[c as int].parent as int].rank
                - cur.shape_at(top).rank_of() != 0,
        ensures
            cur.shape_at(cur.root) == self.shape_at(self.root).settled(key),
            self.shape_at(self.root).settled_turns(key) == self.shape_at(c).settled_turns(key),
        decreases self.order.len() - (self.span[c as int].hi - self.span[c as int].lo),
    {
        let p = self.nodes[c as int].parent;
        assert(self.slot_ok(c));
        if p != NIL {
            let nd = self.nodes[p as int];
            let on_left = nd.left == c;
            assert(self.slot_ok(p));
            self.lemma_lift(cur, c, top);
            self.lemma_unfold(p);
            cur.lemma_unfold(p);
            let at_p = self.span[p as int].at;
            assert(self.key_at(at_p) == nd.data);
            if on_left {
                assert(self.key_at(a) < self.key_at(at_p));
            } else {
                assert(self.key_at(at_p) < self.key_at(a));
            }
            let stepped = self.shape_at(p).with_child(on_left, cur.shape_at(top));
            assert(stepped.after_insert(on_left) == stepped);
            assert(stepped.insert_turns_at(on_left) == 0);
            assert(cur.shape_at(p) == self.shape_at(p).settled(key));
            assert(self.shape_at(p).settled_turns(key) == self.shape_at(c).settled_turns(key));
            let up = nd.parent;
            if up != NIL {
                assert(self.slot_ok(up));
                assert(!self.within(up, c));
                assert(self.rank_ok(up));
            }
            assert forall|j: usize|
                self.live(j) && !self.within(j, p) && j != up implies #[trigger] self.rank_ok(j) by {
                assert(!self.within(j, c));
            }
            self.lemma_settled_above(cur, p, p, key, a);
        }
    }

    /// The walk starts at the new leaf.
    pub proof fn lemma_walk_start(self, node: usize, key: i32)
        requires
            self.shape_ok(),
            self.sorted(),
            self.live(node),
            self.nodes[node as int].data == key,
            self.ranks_ok_except(self.nodes[node as int].parent),
        ensures
            self.insert_walk(self, node, key, self.span[node as int].at),
    {
        assert(self.slot_ok(node));
        self.lemma_unfold(node);
        assert(self.within(node, node));
        assert forall|j: usize| self.live(j) && !self.within(j, node) implies #[trigger] self.same_outside(
            self,
            j,
            node,
            node,
        ) by {}
    }

    /// The walk promotes the parent of `node` and goes on from there.
    pub proof fn lemma_walk_promote(self, cur: Graph, node: usize, key: i32, a: int)
        requires
            self.insert_walk(cur, node, key, a),
            cur.nodes[node as int].parent != NIL,
            cur.nodes[cur.nodes[node as int].parent as int].rank == cur.nodes[node as int].rank,
            cur.nodes[cur.nodes[node as int].parent as int].rank - cur.rank_of(
                cur.sibling_of(node, cur.nodes[node as int].parent),
            ) == 1,
            cur.nodes[cur.nodes[node as int].parent as int].rank < i32::MAX,
        ensures
            self.insert_walk(
                cur.bumped(cur.nodes[node as int].parent, 1),
                cur.nodes[node as int].parent,
                key,
                a,
            ),
    {
        let p = cur.nodes[node as int].parent;
        let next = cur.bumped(p, 1);
        assert(self.slot_ok(node));
        assert(cur.slot_ok(node));
        assert(self.within(node, node));
        assert(self.nodes[node as int].parent == p);
        assert(self.slot_ok(p));
        assert(cur.slot_ok(p));
        let nd = self.nodes[p as int];
        let on_left = nd.left == node;
        self.lemma_lift(cur, node, node);
        cur.lemma_bumped(p, 1);
        self.lemma_replaced_trans(cur, next, p, p, p);
        self.lemma_unfold(p);
        cur.lemma_unfold(p);
        cur.lemma_unfold(node);
        let sib = cur.sibling_of(node, p);
        if sib != NIL {
            assert(cur.slot_ok(sib));
            cur.lemma_unfold(sib);
        }
        let at_p = self.span[p as int].at;
        assert(self.key_at(at_p) == nd.data);
        if on_left {
            assert(self.key_at(a) < self.key_at(at_p));
        } else {
            assert(self.key_at(at_p) < self.key_at(a));
        }
        assert(!self.within(p, node));
        assert(self.same_outside(cur, p, node, node));
        let stepped = self.shape_at(p).with_child(on_left, cur.shape_at(node));
        assert(cur.shape_at(p) == stepped);
        assert(stepped.after_insert(on_left) == stepped.promoted());
        assert(stepped.insert_turns_at(on_left) == 0);
        assert(self.shape_at(p).settled_turns(key) == 0);
        assert forall|j: usize|
            self.live(j) && !self.within(j, p) && j != nd.parent implies #[trigger] self.rank_ok(j) by {
            assert(!self.within(j, node));
        }
    }

    /// The walk ends where the gap above `node` is not 0, or at the root.
    pub proof fn lemma_walk_done(self, cur: Graph, node: usize, key: i32, a: int)
        requires
            self.insert_walk(cur, node, key, a),
            cur.nodes[node as int].parent != NIL ==> cur.nodes[cur.nodes[node as int].parent as int].rank
                != cur.nodes[node as int].rank,
        ensures
            cur.shape_at(cur.root) == self.shape_at(self.root).settled(key),
            self.shape_at(self.root).settled_turns(key) == 0,
    {
        let p = self.nodes[node as int].parent;
        assert(self.slot_ok(node));
        assert(cur.slot_ok(node));
        assert(self.within(node, node));
        cur.lemma_unfold(node);
        if p != NIL {
            assert(self.slot_ok(p));
            assert(!self.within(p, node));
            assert(self.same_outside(cur, p, node, node));
        }
        self.lemma_settled_above(cur, node, node, key, a);
    }

    /// The walk ends with a rotation at the parent of `node`, which leaves
    /// `top` in the place of the parent in `last`.
    pub proof fn lemma_walk_rotated(
        self,
        cur: Graph,
        last: Graph,
        node: usize,
        top: usize,
        key: i32,
        a: int,
        turns: nat,
    )
        requires
            self.insert_walk(cur, node, key, a),
            cur.nodes[node as int].parent != NIL,
            last.shape_ok(),
            cur.shape_at(cur.nodes[node as int].parent).insert_turns_at(
                cur.nodes[cur.nodes[node as int].parent as int].left == node,
            ) == turns,
            cur.replaced_below(last, cur.nodes[node as int].parent, top),
            last.shape_at(top) == cur.shape_at(cur.nodes[node as int].parent).after_insert(
                cur.nodes[cur.nodes[node as int].parent as int].left == node,
            ),
            last.nodes[top as int].rank == cur.nodes[cur.nodes[node as int].parent as int].rank,
        ensures
            last.shape_at(last.root) == self.shape_at(self.root).settled(key),
            self.shape_at(self.root).settled_turns(key) == turns,
    {
        let p = cur.nodes[node as int].parent;
        assert(self.slot_ok(node));
        assert(cur.slot_ok(node));
        assert(self.within(node, node));
        assert(self.nodes[node as int].parent == p);
        assert(self.slot_ok(p));
        assert(cur.slot_ok(p));
        let nd = self.nodes[p as int];
        let on_left = nd.left == node;
        self.lemma_lift(cur, node, node);
        self.lemma_replaced_trans(cur, last, p, p, top);
        self.lemma_unfold(p);
        cur.lemma_unfold(p);
        let at_p = self.span[p as int].at;
        assert(self.key_at(at_p) == nd.data);
        if on_left {
            assert(self.key_at(a) < self.key_at(at_p));
        } else {
            assert(self.key_at(at_p) < self.key_at(a));
        }
        assert(!self.within(p, node));
        assert(self.same_outside(cur, p, node, node));
        assert(last.live(top));
        last.lemma_unfold(top);
        let up = nd.parent;
        if up != NIL {
            assert(self.slot_ok(up));
            assert(!self.within(up, node));
            assert(self.rank_ok(up));
        }
        assert forall|j: usize|
            self.live(j) && !self.within(j, p) && j != up implies #[trigger] self.rank_ok(j) by {
            assert(!self.within(j, node));
        }
        self.lemma_settled_above(last, p, top, key, a);
    }
}

impl RawTree {
    /// The single rotation that ends the walk after an insertion: `node` is
    /// the right child of `parent` at gap 0, the sibling gap is 2, and the
    /// right gap of `node` is 1. Rotates left at `parent` and demotes it.
    pub(crate) fn insert_rotate_left(&mut self, node: usize, parent: usize)
        requires
            old(self).wf_shape(),
            old(self).graph().live(parent),
            old(self).graph().live(node),
            old(self).nodes@[parent as int].right == node,
            old(self).graph().ranks_ok_except(parent),
            old(self).nodes@[parent as int].rank == old(self).nodes@[node as int].rank,
            old(self).nodes@[parent as int].rank - old(self).graph().rank_of(
                old(self).nodes@[parent as int].left,
            ) == 2,
            old(self).nodes@[node as int].rank - old(self).graph().rank_of(
                old(self).nodes@[node as int].right,
            ) == 1,
            old(self).nodes@[node as int].rank - old(self).graph().rank_of(
                old(self).nodes@[node as int].left,
            ) == 2,
        ensures
            final(self).wf_shape(),
            final(self).graph().ranks_ok(),
            final(self).rebalanced_from(old(self)),
            final(self).graph() == old(self).graph().insert_rotated_left(parent),
            final(self).rotations == counted(old(self).rotations as nat, 1),
            final(self).rotations <= old(self).rotations + 1,
    {
        let ghost t0 = *self;
        let ghost g = self.graph();
        let ghost up = g.nodes[parent as int].parent;
        let ghost inner = g.nodes[node as int].left;
        let ghost sib = g.nodes[parent as int].left;
        proof {
            assert(g.slot_ok(parent));
            assert(g.slot_ok(node));
            assert(g.rank_ok(node));
            if up != NIL {
                assert(g.slot_ok(up));
                assert(g.rank_ok(up));
            }
            if inner != NIL {
                assert(g.slot_ok(inner));
            }
            if sib != NIL {
                assert(g.slot_ok(sib));
            }
        }
        self.increase_rotations();
        let ghost t1 = *self;
        self.rotate_left(parent);
        let ghost t2 = *self;
        let ghost g2 = self.graph();
        self.demote(parent);
        proof {
            let h = self.graph();
            t2.lemma_rebalanced_trans(&t1, &t0);
            self.lemma_rebalanced_trans(&t2, &t0);
            assert forall|j: usize| h.live(j) implies #[trigger] h.rank_ok(j) by {
                if j == parent {
                } else if j == node {
                } else if j == up {
                } else {
                    assert(g.rank_ok(j));
                    assert(g2.rank_ok(j));
                }
            }
        }
    }

    /// The single rotation that ends the walk after an insertion: `node` is
    /// the left child of `parent` at gap 0, the sibling gap is 2, and the
    /// left gap of `node` is 1. Rotates right at `parent` and demotes it.
    pub(crate) fn insert_rotate_right(&mut self, node: usize, parent: usize)
        requires
            old(self).wf_shape(),
            old(self).graph().live(parent),
            old(self).graph().live(node),
            old(self).nodes@[parent as int].left == node,
            old(self).graph().ranks_ok_except(parent),
            old(self).nodes@[parent as int].rank == old(self).nodes@[node as int].rank,
            old(self).nodes@[parent as int].rank - old(self).graph().rank_of(
                old(self).nodes@[parent as int].right,
            ) == 2,
            old(self).nodes@[node as int].rank - old(self).graph().rank_of(
                old(self).nodes@[node as int].left,
            ) == 1,
            old(self).nodes@[node as int].rank - old(self).graph().rank_of(
                old(self).nodes@[node as int].right,
            ) == 2,
        ensures
            final(self).wf_shape(),
            final(self).graph().ranks_ok(),
            final(self).rebalanced_from(old(self)),
            final(self).graph() == old(self).graph().insert_rotated_right(parent),
            final(self).rotations == counted(old(self).rotations as nat, 1),
            final(self).rotations <= old(self).rotations + 1,
    {
        let ghost t0 = *self;
        let ghost g = self.graph();
        let ghost up = g.nodes[parent as int].parent;
        let ghost inner = g.nodes[node as int].right;
        let ghost sib = g.nodes[parent as int].right;
        proof {
            assert(g.slot_ok(parent));
            assert(g.slot_ok(node));
            assert(g.rank_ok(node));
            if up != NIL {
                assert(g.slot_ok(up));
                assert(g.rank_ok(up));
            }
            if inner != NIL {
                assert(g.slot_ok(inner));
            }
            if sib != NIL {
                assert(g.slot_ok(sib));
            }
        }
        self.increase_rotations();
        let ghost t1 = *self;
        self.rotate_right(parent);
        let ghost t2 = *self;
        let ghost g2 = self.graph();
        self.demote(parent);
        proof {
            let h = self.graph();
            t2.lemma_rebalanced_trans(&t1, &t0);
            self.lemma_rebalanced_trans(&t2, &t0);
            assert forall|j: usize| h.live(j) implies #[trigger] h.rank_ok(j) by {
                if j == parent {
                } else if j == node {
                } else if j == up {
                } else {
                    assert(g.rank_ok(j));
                    assert(g2.rank_ok(j));
                }
            }
        }
    }

    /// The double rotation that ends the walk after an insertion: `node` is
    /// the right child of `parent` at gap 0, the sibling gap is 2, and the
    /// left gap of `node` is 1. The left child of `node` rises over both:
    /// rotates right at `node`, then left at `parent`.
    #[verifier::rlimit(30)]
    pub(crate) fn insert_rotate_right_left(&mut self, node: usize, parent: usize)
        requires
            old(self).wf_shape(),
            old(self).graph().live(parent),
            old(self).graph().live(node),
            old(self).nodes@[parent as int].right == node,
            old(self).graph().ranks_ok_except(parent),
            old(self).nodes@[parent as int].rank == old(self).nodes@[node as int].rank,
            old(self).nodes@[parent as int].rank - old(self).graph().rank_of(
                old(self).nodes@[parent as int].left,
            ) == 2,
            old(self).nodes@[node as int].rank - old(self).graph().rank_of(
                old(self).nodes@[node as int].left,
            ) == 1,
            old(self).nodes@[node as int].rank - old(self).graph().rank_of(
                old(self).nodes@[node as int].right,
            ) == 2,
        ensures
            final(self).wf_shape(),
            final(self).graph().ranks_ok(),
            final(self).rebalanced_from(old(self)),
            final(self).graph() == old(self).graph().insert_rotated_right_left(node, parent),
            final(self).rotations == counted(old(self).rotations as nat, 2),
            final(self).rotations <= old(self).rotations + 2,
    {
        let ghost t0 = *self;
        let ghost g = self.graph();
        let ghost up = g.nodes[parent as int].parent;
        let ghost sib = g.nodes[parent as int].left;
        proof {
            assert(g.slot_ok(parent));
            assert(g.slot_ok(node));
            assert(g.rank_ok(node));
            if up != NIL {
                assert(g.slot_ok(up));
                assert(g.rank_ok(up));
            }
            if sib != NIL {
                assert(g.slot_ok(sib));
            }
        }
        let t: usize = self.nodes[node].left;
        let ghost t_near = g.nodes[t as int].right;
        let ghost t_far = g.nodes[t as int].left;
        proof {
            assert(g.slot_ok(t));
            assert(g.rank_ok(t));
            if t_near != NIL {
                assert(g.slot_ok(t_near));
            }
            if t_far != NIL {
                assert(g.slot_ok(t_far));
            }
        }
        self.increase_rotations();
        let ghost t1 = *self;
        self.rotate_right(node);
        let ghost t2 = *self;
        let ghost g2 = self.graph();
        proof {
            assert(g2.slot_ok(node));
            assert(g2.slot_ok(t));
            assert(g2.slot_ok(parent));
        }
        self.demote(node);
        let ghost t3 = *self;
        let ghost g3 = self.graph();
        self.promote(t);
        let ghost t4 = *self;
        let ghost g4 = self.graph();
        self.increase_rotations();
        let ghost t5 = *self;
        self.rotate_left(parent);
        let ghost t6 = *self;
        let ghost g6 = self.graph();
        proof {
            assert(g6.slot_ok(parent));
        }
        self.demote(parent);
        proof {
            let h = self.graph();
            t2.lemma_rebalanced_trans(&t1, &t0);
            t3.lemma_rebalanced_trans(&t2, &t0);
            t4.lemma_rebalanced_trans(&t3, &t0);
            t5.lemma_rebalanced_trans(&t4, &t0);
            t6.lemma_rebalanced_trans(&t5, &t0);
            self.lemma_rebalanced_trans(&t6, &t0);
            assert forall|j: usize| h.live(j) implies #[trigger] h.rank_ok(j) by {
                if j == parent {
                } else if j == node {
                } else if j == t {
                } else if j == up {
                } else {
                    assert(g.rank_ok(j));
                    assert(g2.rank_ok(j));
                    assert(g3.rank_ok(j));
                    assert(g4.rank_ok(j));
                    assert(g6.rank_ok(j));
                }
            }
        }
    }

    /// The double rotation that ends the walk after an insertion: `node` is
    /// the left child of `parent` at gap 0, the sibling gap is 2, and the
    /// right gap of `node` is 1. The right child of `node` rises over both:
    /// rotates left at `node`, then right at `parent`.
    #[verifier::rlimit(30)]
    pub(crate) fn insert_rotate_left_right(&mut self, node: usize, parent: usize)
        requires
            old(self).wf_shape(),
            old(self).graph().live(parent),
            old(self).graph().live(node),
            old(self).nodes@[parent as int].left == node,
            old(self).graph().ranks_ok_except(parent),
            old(self).nodes@[parent as int].rank == old(self).nodes@[node as int].rank,
            old(self).nodes@[parent as int].rank - old(self).graph().rank_of(
                old(self).nodes@[parent as int].right,
            ) == 2,
            old(self).nodes@[node as int].rank - old(self).graph().rank_of(
                old(self).nodes@[node as int].right,
            ) == 1,
            old(self).nodes@[node as int].rank - old(self).graph().rank_of(
                old(self).nodes@[node as int].left,
            ) == 2,
        ensures
            final(self).wf_shape(),
            final(self).graph().ranks_ok(),
            final(self).rebalanced_from(old(self)),
            final(self).graph() == old(self).graph().insert_rotated_left_right(node, parent),
            final(self).rotations == counted(old(self).rotations as nat, 2),
            final(self).rotations <= old(self).rotations + 2,
    {
        let ghost t0 = *self;
        let ghost g = self.graph();
        let ghost up = g.nodes[parent as int].parent;
        let ghost sib = g.nodes[parent as int].right;
        proof {
            assert(g.slot_ok(parent));
            assert(g.slot_ok(node));
            assert(g.rank_ok(node));
            if up != NIL {
                assert(g.slot_ok(up));
                assert(g.rank_ok(up));
            }
            if sib != NIL {
                assert(g.slot_ok(sib));
            }
        }
        let t: usize = self.nodes[node].right;
        let ghost t_near = g.nodes[t as int].left;
        let ghost t_far = g.nodes[t as int].right;
        proof {
            assert(g.slot_ok(t));
            assert(g.rank_ok(t));
            if t_near != NIL {
                assert(g.slot_ok(t_near));
            }
            if t_far != NIL {
                assert(g.slot_ok(t_far));
            }
        }
        self.increase_rotations();
        let ghost t1 = *self;
        self.rotate_left(node);
        let ghost t2 = *self;
        let ghost g2 = self.graph();
        proof {
            assert(g2.slot_ok(node));
            assert(g2.slot_ok(t));
            assert(g2.slot_ok(parent));
        }
        self.demote(node);
        let ghost t3 = *self;
        let ghost g3 = self.graph();
        self.promote(t);
        let ghost t4 = *self;
        let ghost g4 = self.graph();
        self.increase_rotations();
        let ghost t5 = *self;
        self.rotate_right(parent);
        let ghost t6 = *self;
        let ghost g6 = self.graph();
        proof {
            assert(g6.slot_ok(parent));
        }
        self.demote(parent);
        proof {
            let h = self.graph();
            t2.lemma_rebalanced_trans(&t1, &t0);
            t3.lemma_rebalanced_trans(&t2, &t0);
            t4.lemma_rebalanced_trans(&t3, &t0);
            t5.lemma_rebalanced_trans(&t4, &t0);
            t6.lemma_rebalanced_trans(&t5, &t0);
            self.lemma_rebalanced_trans(&t6, &t0);
            assert forall|j: usize| h.live(j) implies #[trigger] h.rank_ok(j) by {
                if j == parent {
                } else if j == node {
                } else if j == t {
                } else if j == up {
                } else {
                    assert(g.rank_ok(j));
                    assert(g2.rank_ok(j));
                    assert(g3.rank_ok(j));
                    assert(g4.rank_ok(j));
                    assert(g6.rank_ok(j));
                }
            }
        }
    }

    /// Descends from `node` by key comparison. Where `data` is met, nothing
    /// changes and the result is `false`. Otherwise a new leaf is attached at
    /// the first empty slot on the way and the rank rule is restored from
    /// there. Each step down counts as one node visit.
    #[verifier::rlimit(30)]
    pub(crate) fn insert_node(&mut self, node: usize, data: i32) -> (inserted: bool)
        requires
            old(self).wf_shape(),
            old(self).graph().sorted(),
            old(self).graph().ranks_ok(),
            old(self).graph().live(node),
            old(self).graph().window(node, data),
        ensures
            final(self).wf_shape(),
            final(self).graph().sorted(),
            final(self).graph().ranks_ok(),
            final(self).count == old(self).count,
            old(self).rotations <= final(self).rotations <= old(self).rotations + 2,
            final(self).accessed_nodes == counted(
                old(self).accessed_nodes as nat,
                (old(self).graph().shape_at(node).path_len(data) - 1) as nat,
            ),
            inserted == !old(self).graph().has_key(data),
            !inserted ==> final(self).same_tree(old(self)),
            inserted ==> exists|a: int| #[trigger]
                final(self).graph().keys_inserted(old(self).graph(), a, data),
            inserted ==> final(self).shape() == old(self).shape().inserted(data),
            final(self).rotations == if inserted {
                counted(old(self).rotations as nat, old(self).shape().insert_turns(data))
            } else {
                old(self).rotations as nat
            },
            inserted ==> old(self).shape().insert_turns(data) <= 2,
    {
        let ghost g = self.graph();
        let mut cur: usize = node;
        proof {
            g.lemma_descent(node, data);
        }
        loop
            invariant
                self.same_tree(old(self)),
                g.shape_at(cur).path_len(data) >= 1,
                counted(
                    self.accessed_nodes as nat,
                    (g.shape_at(cur).path_len(data) - 1) as nat,
                ) == counted(
                    old(self).accessed_nodes as nat,
                    (g.shape_at(node).path_len(data) - 1) as nat,
                ),
                g == self.graph(),
                self.wf_shape(),
                g.sorted(),
                g.ranks_ok(),
                g.live(cur),
                g.window(cur, data),
            decreases g.span[cur as int].hi - g.span[cur as int].lo,
        {
            let ghost at = g.span[cur as int].at;
            proof {
                assert(g.slot_ok(cur));
                assert(g.key_at(at) == g.nodes[cur as int].data);
                g.lemma_descent(cur, data);
            }
            if self.nodes[cur].data == data {
                return false;
            }
            let on_left: bool = data < self.nodes[cur].data;
            let next: usize = if on_left {
                self.nodes[cur].left
            } else {
                self.nodes[cur].right
            };
            if next == NIL {
                let ghost a = g.graft_at(cur, on_left);
                proof {
                    assert(g.graft_site(cur, on_left));
                    assert(g.key_fits(a, data));
                    assert(!g.has_key(data)) by {
                        assert forall|p: int| 0 <= p < g.order.len() implies g.key_at(p) != data by {
                            if p < a - 1 {
                                assert(g.key_at(p) < g.key_at(a - 1));
                            } else if p > a {
                                assert(g.key_at(a) < g.key_at(p));
                            }
                        }
                    }
                }
                let idx: usize = self.attach(cur, data, on_left);
                let ghost t1 = *self;
                proof {
                    let g1 = self.graph();
                    g.lemma_grafted(cur, on_left, idx, data);
                    g.lemma_grafted_shape(cur, on_left, idx, data);
                    assert(g.rank_ok(cur));
                    let sib = g1.sibling_of(idx, cur);
                    if sib != NIL {
                        assert(g.slot_ok(sib));
                    }
                    assert(g1.ranks_ok_except(cur)) by {
                        assert forall|j: usize| g1.live(j) && j != cur implies #[trigger] g1.rank_ok(
                            j,
                        ) by {
                            if j != idx {
                                assert(g.rank_ok(j));
                            }
                        }
                    }
                    assert(g1.insert_pending(idx));
                }
                self.balance_inserted(idx);
                proof {
                    self.lemma_rebalanced_keys(&t1);
                    let g1 = t1.graph();
                    let g2 = self.graph();
                    assert(g == old(self).graph());
                    assert(g2.keys_inserted(g, a, data)) by {
                        assert forall|p: int| 0 <= p < g2.order.len() implies g2.key_at(p)
                            == g1.key_at(p) by {
                            assert(self@[p].0 == t1@[p].0);
                        }
                    }
                }
                return true;
            }
            self.increase_nodes();
            proof {
                assert(g.slot_ok(next));
                g.lemma_descent(next, data);
            }
            cur = next;
        }
    }

    /// Puts `data` into the tree unless it is there already, and reports
    /// whether it was put in. The keys stay in search order and every node
    /// obeys the rank rule afterwards; a key that was present leaves the tree
    /// as it was.
    #[verifier::rlimit(30)]
    pub(crate) fn insert(&mut self, data: i32) -> (inserted: bool)
        requires
            old(self).wf(),
        ensures
            final(self).wf(),
            inserted == !old(self).contains(data),
            final(self).keys() == old(self).keys().insert(data),
            final(self).contains(data),
            forall|k: i32| k != data ==> #[trigger] holds(final(self)@, k) == holds(old(self)@, k),
            final(self).shape() == if inserted {
                old(self).shape().inserted(data)
            } else {
                old(self).shape()
            },
            !inserted ==> final(self)@ == old(self)@,
            inserted ==> exists|a: int|
                0 <= a <= old(self)@.len() && #[trigger] key_seq(old(self)@).insert(a, data)
                    == key_seq(final(self)@),
            final(self).spec_rotations() == if inserted {
                counted(old(self).spec_rotations(), old(self).shape().insert_turns(data))
            } else {
                old(self).spec_rotations()
            },
            inserted ==> old(self).shape().insert_turns(data) <= 2,
            final(self).spec_accessed_nodes() == counted(
                old(self).spec_accessed_nodes(),
                if old(self).shape() is Nil {
                    1
                } else {
                    old(self).shape().path_len(data)
                },
            ),
    {
        let ghost g = self.graph();
        proof {
            if self.root != NIL {
                g.lemma_descent(self.root, data);
            }
        }
        self.increase_nodes();
        if self.root == NIL {
            let idx: usize = self.attach(NIL, data, true);
            proof {
                g.lemma_grafted(NIL, true, idx, data);
                g.lemma_grafted_shape(NIL, true, idx, data);
                assert(g.shape_at(NIL) == crate::shape::Shape::Nil);
                assert(crate::shape::Shape::Nil.inserted(data) == crate::shape::Shape::Nil.grown(
                    data,
                ));
                let g1 = self.graph();
                assert(!g.has_key(data));
                assert forall|j: usize| g1.live(j) implies #[trigger] g1.rank_ok(j) by {}
            }
        } else {
            proof {
                assert(g.slot_ok(self.root));
            }
            if !self.insert_node(self.root, data) {
                proof {
                    old(self).lemma_has_key(data);
                    assert(old(self).keys().contains(data));
                    assert(old(self).keys().insert(data) =~= old(self).keys());
                }
                return false;
            }
        }
        self.count += 1;
        proof {
            old(self).lemma_has_key(data);
            let a = choose|a: int| #[trigger] self.graph().keys_inserted(g, a, data);
            self.lemma_keys_inserted(old(self), a, data);
            assert(self.keys().contains(data));
            assert forall|k: i32| k != data implies #[trigger] holds(self@, k) == holds(
                old(self)@,
                k,
            ) by {
                assert(self.keys().contains(k) == old(self).keys().contains(k));
            }
        }
        true
    }

    /// Restores the rank rule after `node` was attached as a new leaf: walks
    /// up while the gap above the current node is 0, promoting the parent
    /// where the sibling gap is 1, and ending with one single or double
    /// rotation where the sibling gap is 2.
    #[verifier::rlimit(30)]
    pub(crate) fn balance_inserted(&mut self, node: usize)
        requires
            old(self).wf_shape(),
            old(self).graph().sorted(),
            old(self).graph().insert_pending(node),
        ensures
            final(self).wf_shape(),
            final(self).graph().ranks_ok(),
            final(self).rebalanced_from(old(self)),
            final(self).rotations <= old(self).rotations + 2,
            final(self).graph().shape_at(final(self).root) == old(self).graph().shape_at(
                old(self).root,
            ).settled(old(self).nodes@[node as int].data),
            final(self).rotations == counted(
                old(self).rotations as nat,
                old(self).graph().shape_at(old(self).root).settled_turns(
                    old(self).nodes@[node as int].data,
                ),
            ),
            old(self).graph().shape_at(old(self).root).settled_turns(
                old(self).nodes@[node as int].data,
            ) <= 2,
    {
        let ghost start = self.graph();
        let ghost key = self.nodes@[node as int].data;
        let ghost a = self.span@[node as int].at;
        let mut node: usize = node;
        proof {
            self.lemma_rebalanced_refl();
            start.lemma_walk_start(node, key);
        }
        loop
            invariant_except_break
                self.graph().insert_pending(node),
                self.rotations == old(self).rotations,
                start.insert_walk(self.graph(), node, key, a),
            invariant
                self.wf_shape(),
                self.rebalanced_from(old(self)),
                start == old(self).graph(),
            ensures
                self.graph().ranks_ok(),
                self.rotations <= old(self).rotations + 2,
                self.graph().shape_at(self.root) == start.shape_at(start.root).settled(key),
                self.rotations == counted(
                    old(self).rotations as nat,
                    start.shape_at(start.root).settled_turns(key),
                ),
                start.shape_at(start.root).settled_turns(key) <= 2,
            decreases
                self.order@.len() - (self.span@[node as int].hi - self.span@[node as int].lo),
        {
            let ghost t0 = *self;
            let ghost g = self.graph();
            proof {
                assert(g.slot_ok(node));
            }
            let parent: usize = self.nodes[node].parent;
            if parent == NIL {
                proof {
                    start.lemma_walk_done(g, node, key, a);
                }
                break ;
            }
            proof {
                assert(g.slot_ok(parent));
            }
            if self.nodes[parent].rank - self.nodes[node].rank == 1 {
                proof {
                    start.lemma_walk_done(g, node, key, a);
                }
                break ;
            }
            if self.nodes[parent].rank - self.get_node_sibling_rank(node, parent) == 1 {
                proof {
                    assert(g.subtree_ranks_ok(node)) by {
                        assert forall|j: usize|
                            g.live(j) && g.span[node as int].lo <= g.span[j as int].at
                                < g.span[node as int].hi implies #[trigger] g.rank_ok(j) by {
                            assert(g.slot_ok(j));
                        }
                    }
                    g.lemma_rank_bounded(node);
                    let up = g.nodes[parent as int].parent;
                    if up != NIL {
                        assert(g.slot_ok(up));
                        assert(g.rank_ok(up));
                    }
                    start.lemma_walk_promote(g, node, key, a);
                }
                self.promote(parent);
                proof {
                    let h = self.graph();
                    self.lemma_rebalanced_trans(&t0, old(self));
                    assert(h.slot_ok(parent));
                    assert(h.rank_ok(node));
                    assert(h.rank_ok(parent));
                    assert(h.insert_pending(parent));
                }
                node = parent;
                continue ;
            }
            let node_rank: i32 = self.nodes[node].rank;
            let node_left_rank: i32 = self.slot_rank(self.nodes[node].left);
            let node_right_rank: i32 = self.slot_rank(self.nodes[node].right);
            proof {
                assert(g.rank_ok(node));
                let sib = g.sibling_of(node, parent);
                if sib != NIL {
                    assert(g.slot_ok(sib));
                }
                assert(node_rank != 1);
            }
            if self.nodes[parent].right == node {
                if node_rank - node_right_rank == 1 {
                    self.insert_rotate_left(node, parent);
                    proof {
                        g.lemma_insert_rotated_left(node, parent);
                        start.lemma_walk_rotated(g, self.graph(), node, node, key, a, 1);
                    }
                } else {
                    let ghost t = g.nodes[node as int].left;
                    proof {
                        assert(g.slot_ok(t));
                        assert(g.rank_ok(t));
                    }
                    self.insert_rotate_right_left(node, parent);
                    proof {
                        g.lemma_insert_rotated_right_left(node, parent);
                        start.lemma_walk_rotated(g, self.graph(), node, t, key, a, 2);
                    }
                }
            } else {
                if node_rank - node_left_rank == 1 {
                    self.insert_rotate_right(node, parent);
                    proof {
                        g.lemma_insert_rotated_right(node, parent);
                        start.lemma_walk_rotated(g, self.graph(), node, node, key, a, 1);
                    }
                } else {
                    let ghost t = g.nodes[node as int].right;
                    proof {
                        assert(g.slot_ok(t));
                        assert(g.rank_ok(t));
                    }
                    self.insert_rotate_left_right(node, parent);
                    proof {
                        g.lemma_insert_rotated_left_right(node, parent);
                        start.lemma_walk_rotated(g, self.graph(), node, t, key, a, 2);
                    }
                }
            }
            proof {
                self.lemma_rebalanced_trans(&t0, old(self));
            }
            break ;
        }
    }
}

} // verus!
