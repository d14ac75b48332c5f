//! The rank rule without gap 2 on both sides, on the nodes of the arena.

use vstd::prelude::*;
use crate::arena::Graph;
use crate::node::NIL;

verus! {

impl Graph {
    /// Node `i` obeys the rank rule and does not have gap 2 on both sides.
    pub open spec fn strict_ok(self, i: usize) -> bool {
        self.rank_ok(i) && !self.double_gap_at(i)
    }

    /// Every node but `p` obeys the rank rule and does not have gap 2 on
    /// both sides.
    pub open spec fn strict_except(self, p: usize) -> bool {
        forall|i: usize| self.live(i) && i != p ==> #[trigger] self.strict_ok(i)
    }

    /// The gaps of `parent` are what a removal from its named slot leaves of
    /// gaps that were in order: 2 and 1, 2 and 2, or 3 and 1.
    pub open spec fn gap_grown_at(self, parent: usize, on_left: bool) -> bool {
        let nd = self.nodes[parent as int];
        let gap = nd.rank - self.rank_of(if on_left { nd.left } else { nd.right });
        let other = nd.rank - self.rank_of(if on_left { nd.right } else { nd.left });
        (gap == 2 && other == 1) || (gap == 2 && other == 2) || (gap == 3 && other == 1)
    }

    /// Where every node below a slot is in order, the shape below it is.
    pub proof fn lemma_shape_strict(self, c: usize)
        requires
            self.shape_ok(),
            c != NIL ==> self.live(c),
            forall|j: usize| self.live(j) && self.within(j, c) ==> #[trigger] self.strict_ok(j),
        ensures
            self.shape_at(c).strict(),
        decreases self.width(c),
    {
        if c != NIL {
            let nd = self.nodes[c as int];
            assert(self.slot_ok(c));
            assert(self.within(c, c));
            assert(self.strict_ok(c));
            self.lemma_unfold(c);
            if nd.left != NIL {
                assert(self.slot_ok(nd.left));
                self.lemma_unfold(nd.left);
            }
            if nd.right != NIL {
                assert(self.slot_ok(nd.right));
                self.lemma_unfold(nd.right);
            }
            assert forall|j: usize| self.live(j) && self.within(j, nd.left) implies #[trigger] self.strict_ok(
                j,
            ) by {
                assert(self.within(j, c));
            }
            assert forall|j: usize| self.live(j) && self.within(j, nd.right) implies #[trigger] self.strict_ok(
                j,
            ) by {
                assert(self.within(j, c));
            }
            self.lemma_shape_strict(nd.left);
            self.lemma_shape_strict(nd.right);
            let l = self.shape_at(nd.left);
            let r = self.shape_at(nd.right);
            assert(l.rank_of() == self.rank_of(nd.left));
            assert(r.rank_of() == self.rank_of(nd.right));
            assert(self.shape_at(c).obeys_rank_rule());
            assert(self.shape_at(c).no_double_gap());
        } else {
            assert(self.shape_at(c) == crate::shape::Shape::Nil);
        }
    }

    /// Where the shape below `c` has no node with gap 2 on both sides, no
    /// node below `c` has.
    pub proof fn lemma_no_double_below(self, c: usize, j: usize)
        requires
            self.shape_ok(),
            self.live(c),
            self.live(j),
            self.within(j, c),
            self.shape_at(c).no_double_gap(),
        ensures
            !self.double_gap_at(j),
        decreases self.span[c as int].hi - self.span[c as int].lo,
    {
        let nd = self.nodes[c as int];
        assert(self.slot_ok(c));
        assert(self.slot_ok(j));
        self.lemma_unfold(c);
        if nd.left != NIL {
            assert(self.slot_ok(nd.left));
            self.lemma_unfold(nd.left);
        }
        if nd.right != NIL {
            assert(self.slot_ok(nd.right));
            self.lemma_unfold(nd.right);
        }
        assert(self.shape_at(nd.left).no_double_gap());
        assert(self.shape_at(nd.right).no_double_gap());
        if j != c {
            if self.span[j as int].at < self.span[c as int].at {
                self.lemma_no_double_below(nd.left, j);
            } else {
                self.lemma_no_double_below(nd.right, j);
            }
        }
    }

    /// Where the shape of the tree obeys the rank rule with no gap 2 on both
    /// sides, every node does.
    pub proof fn lemma_strict_nodes(self)
        requires
            self.shape_ok(),
            self.ranks_ok(),
            self.shape_at(self.root).no_double_gap(),
        ensures
            self.strict_except(NIL),
    {
        assert forall|i: usize| self.live(i) && i != NIL implies #[trigger] self.strict_ok(i) by {
            assert(self.slot_ok(i));
            assert(self.slot_ok(self.root));
            self.lemma_no_double_below(self.root, i);
        }
    }

    /// Below a node above `parent`, a graph that is in order but at
    /// `parent`, where the gap to the named slot has grown, has the shape of
    /// a tree that a removal has left pending.
    pub proof fn lemma_pending_below(
        self,
        c: usize,
        parent: usize,
        on_left: bool,
        gone: i32,
        q: int,
    )
        requires
            self.shape_ok(),
            self.sorted(),
            self.live(parent),
            self.live(c),
            self.within(parent, c),
            self.span[c as int].lo <= self.span[parent as int].lo,
            self.span[parent as int].hi <= self.span[c as int].hi,
            self.strict_except(parent),
            self.gap_grown_at(parent, on_left),
            self.gap_at(gone, q, self.slot_lo(parent, on_left), self.slot_hi(parent, on_left)),
        ensures
            self.shape_at(c).pending(
                gone,
                self.shape_at(c).path_len(self.nodes[parent as int].data),
            ),
            self.shape_at(c).path_len(self.nodes[parent as int].data) >= 1,
        decreases self.span[c as int].hi - self.span[c as int].lo,
    {
        let nd = self.nodes[c as int];
        let key0 = self.nodes[parent as int].data;
        let at_p = self.span[parent as int].at;
        let at_c = self.span[c as int].at;
        assert(self.slot_ok(c));
        assert(self.slot_ok(parent));
        assert(self.key_at(at_c) == nd.data);
        assert(self.key_at(at_p) == key0);
        self.lemma_unfold(c);
        self.lemma_descent(c, key0);
        if nd.left != NIL {
            assert(self.slot_ok(nd.left));
            self.lemma_unfold(nd.left);
        }
        if nd.right != NIL {
            assert(self.slot_ok(nd.right));
            self.lemma_unfold(nd.right);
        }
        if c == parent {
            if on_left {
                if q < at_c {
                    assert(self.key_at(q) < self.key_at(at_c));
                }
                assert(gone < nd.data);
            } else {
                if at_c < q - 1 {
                    assert(self.key_at(at_c) < self.key_at(q - 1));
                }
                assert(nd.data <= gone);
            }
            assert forall|j: usize| self.live(j) && self.within(j, nd.left) implies #[trigger] self.strict_ok(
                j,
            ) by {}
            assert forall|j: usize| self.live(j) && self.within(j, nd.right) implies #[trigger] self.strict_ok(
                j,
            ) by {}
            self.lemma_shape_strict(nd.left);
            self.lemma_shape_strict(nd.right);
            let whole = self.shape_at(c);
            assert(whole.gap_grown(on_left));
            assert(whole.path_len(key0) == 1);
            assert(whole.child(on_left).pending(gone, 0));
            assert(whole.child(!on_left).strict());
            assert((gone < nd.data) == on_left);
            assert(whole.pending(gone, 1));
        } else {
            let toward_left = at_p < at_c;
            let d = if toward_left { nd.left } else { nd.right };
            let o = if toward_left { nd.right } else { nd.left };
            assert(self.slot_ok(d));
            self.lemma_span_within(d, parent, d);
            if toward_left {
                if q < at_c {
                    assert(self.key_at(q) < self.key_at(at_c));
                }
                assert(gone < nd.data);
                assert(self.key_at(at_p) < self.key_at(at_c));
            } else {
                if at_c < q - 1 {
                    assert(self.key_at(at_c) < self.key_at(q - 1));
                }
                assert(nd.data <= gone);
                assert(self.key_at(at_c) < self.key_at(at_p));
            }
            assert forall|j: usize| self.live(j) && self.within(j, o) implies #[trigger] self.strict_ok(
                j,
            ) by {}
            self.lemma_shape_strict(o);
            self.lemma_pending_below(d, parent, on_left, gone, q);
            assert(self.strict_ok(c));
            let whole = self.shape_at(c);
            let below = self.shape_at(d).path_len(key0);
            assert(whole.path_len(key0) == 1 + below);
            assert((gone < nd.data) == toward_left);
            assert(whole.child(toward_left) == self.shape_at(d));
            assert(whole.child(!toward_left) == self.shape_at(o));
            assert(whole.child(toward_left).pending(gone, below));
            assert(whole.pending(gone, (1 + below) as nat));
        }
    }

    /// The walk from the named slot of `parent`, in a graph that is in order
    /// but at `parent`, where the gap to the slot has grown, leaves no node
    /// with gap 2 on both sides, unless it ends in a rotation that leaves
    /// one. With no parent, a graph that is in order stays as it is.
    pub proof fn lemma_walk_strict(self, parent: usize, on_left: bool, gone: i32, q: int)
        requires
            self.shape_ok(),
            self.sorted(),
            self.strict_except(parent),
            parent != NIL ==> self.live(parent) && self.gap_grown_at(parent, on_left)
                && self.gap_at(
                gone,
                q,
                self.slot_lo(parent, on_left),
                self.slot_hi(parent, on_left),
            ),
        ensures
            ({
                let whole = self.shape_at(self.root);
                let levels = self.walk_levels(parent);
                !whole.resettled_strands(gone, levels, true) ==> whole.resettled(
                    gone,
                    levels,
                    true,
                ).no_double_gap()
            }),
    {
        let whole = self.shape_at(self.root);
        if parent == NIL {
            assert forall|j: usize| self.live(j) && self.within(j, self.root) implies #[trigger] self.strict_ok(
                j,
            ) by {}
            self.lemma_shape_strict(self.root);
        } else {
            assert(self.slot_ok(parent));
            assert(self.slot_ok(self.root));
            self.lemma_pending_below(self.root, parent, on_left, gone, q);
            whole.lemma_resettled_strict(gone, self.walk_levels(parent), true);
        }
    }

    /// Taking out a node with at most one child from a graph that is in
    /// order leaves the shape of a tree that a removal has left pending.
    pub proof fn lemma_spliced_pending(self, x: usize)
        requires
            self.shape_ok(),
            self.splice_site(x),
            self.sorted_but(self.span[x as int].at),
            self.fits(x),
            self.strict_except(NIL),
        ensures
            self.spliced(x).shape_at(self.spliced(x).root).pending(
                self.nodes[x as int].data,
                self.spliced(x).walk_levels(self.nodes[x as int].parent),
            ),
    {
        let u = self.spliced(x);
        let p = self.nodes[x as int].parent;
        let r = self.only_child(x);
        let q = self.span[x as int].at;
        let gone = self.nodes[x as int].data;
        self.lemma_spliced(x);
        self.lemma_spliced_nodes(x);
        assert(self.slot_ok(x));
        assert(self.strict_ok(x));
        if r != NIL {
            assert(self.slot_ok(r));
            assert(self.strict_ok(r));
        }
        assert forall|j: usize| u.live(j) && j != p implies #[trigger] u.strict_ok(j) by {
            assert(self.strict_ok(j));
            assert(self.slot_ok(j));
            assert(u.rank_ok(j));
            let nd = self.nodes[j as int];
            if nd.left != NIL {
                assert(self.slot_ok(nd.left));
            }
            if nd.right != NIL {
                assert(self.slot_ok(nd.right));
            }
        }
        if p == NIL {
            assert forall|j: usize| u.live(j) && u.within(j, r) implies #[trigger] u.strict_ok(
                j,
            ) by {}
            u.lemma_shape_strict(r);
        } else {
            let on_left = self.nodes[p as int].left == x;
            assert(self.slot_ok(p));
            assert(self.strict_ok(p));
            let sib = self.sibling_of(x, p);
            if sib != NIL {
                assert(self.slot_ok(sib));
            }
            assert(u.keys_removed(self, q));
            if q > 0 {
                assert(u.key_at(q - 1) == self.key_at(q - 1));
            }
            if q < u.order.len() {
                assert(u.key_at(q) == self.key_at(q + 1));
            }
            assert(u.span[p as int] == self.span[p as int].shifted_down(q));
            assert(u.gap_at(gone, q, u.slot_lo(p, on_left), u.slot_hi(p, on_left)));
            assert(u.gap_grown_at(p, on_left));
            assert(u.slot_ok(p));
            assert(u.slot_ok(u.root));
            u.lemma_pending_below(u.root, p, on_left, gone, q);
        }
    }

    /// Taking out a node with at most one child from a graph that is in
    /// order, and walking up from its slot, leaves no node with gap 2 on
    /// both sides, unless the walk ends in a rotation that leaves one.
    pub proof fn lemma_spliced_strict(self, x: usize)
        requires
            self.shape_ok(),
            self.splice_site(x),
            self.sorted_but(self.span[x as int].at),
            self.fits(x),
            self.strict_except(NIL),
        ensures
            ({
                let after = self.spliced(x);
                let whole = after.shape_at(after.root);
                let levels = after.walk_levels(self.nodes[x as int].parent);
                !whole.resettled_strands(self.nodes[x as int].data, levels, true)
                    ==> whole.resettled(self.nodes[x as int].data, levels, true).no_double_gap()
            }),
    {
        let after = self.spliced(x);
        let whole = after.shape_at(after.root);
        let levels = after.walk_levels(self.nodes[x as int].parent);
        self.lemma_spliced_pending(x);
        if levels >= 1 {
            whole.lemma_resettled_strict(self.nodes[x as int].data, levels, true);
        }
    }
}

} // verus!
