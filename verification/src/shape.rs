//! A binary tree of `(key, rank)` nodes as a mathematical value, with the
//! rank rule and the bounds that follow from it.

use vstd::prelude::*;
use vstd::arithmetic::power2::{lemma_pow2_strictly_increases, lemma_pow2_unfold, lemma2_to64, pow2};
use crate::model::ascending;

verus! {

/// A binary tree of `(key, rank)` nodes as a mathematical value: what a tree
/// looks like apart from how its nodes are stored.
pub enum Shape {
    /// An empty child slot, or the empty tree.
    Nil,
    /// A node with its two subtrees.
    Fork { left: Box<Shape>, key: i32, rank: i32, right: Box<Shape> },
}

/// The least number of nodes in a tree whose root has rank `r` and whose
/// nodes all obey the rank rule: it doubles, plus one, every two ranks.
pub open spec fn min_nodes(r: int) -> nat
    decreases r,
{
    if r <= 0 {
        0
    } else if r == 1 {
        1
    } else {
        2 * min_nodes(r - 2) + 1
    }
}

/// `min_nodes` never falls from one rank to the next.
pub proof fn lemma_min_nodes_step(r: int)
    ensures
        min_nodes(r) <= min_nodes(r + 1),
    decreases r,
{
    if r >= 2 {
        lemma_min_nodes_step(r - 2);
    }
}

/// `min_nodes` is monotone.
pub proof fn lemma_min_nodes_mono(a: int, b: int)
    requires
        a <= b,
    ensures
        min_nodes(a) <= min_nodes(b),
    decreases b - a,
{
    if a < b {
        lemma_min_nodes_mono(a, b - 1);
        lemma_min_nodes_step(b - 1);
    }
}

/// `min_nodes(r)` is `2^ceil(r / 2) - 1`.
pub proof fn lemma_min_nodes_pow2(r: nat)
    ensures
        min_nodes(r as int) + 1 == pow2((r + 1) / 2),
    decreases r,
{
    lemma2_to64();
    if r >= 2 {
        lemma_min_nodes_pow2((r - 2) as nat);
        lemma_pow2_unfold((r + 1) / 2);
    }
}

/// A tree of at most `usize::MAX` nodes has a root of rank below 130.
pub proof fn lemma_rank_small(r: int, size: int)
    requires
        min_nodes(r) <= size <= usize::MAX,
    ensures
        r < 130,
{
    if r >= 130 {
        lemma_min_nodes_mono(130, r);
        lemma_min_nodes_pow2(130);
        lemma_pow2_unfold(65);
        lemma2_to64();
    }
}

/// The node that holds `key` at rank `rank` above the two subtrees.
pub open spec fn fork(left: Shape, key: i32, rank: int, right: Shape) -> Shape {
    Shape::Fork { left: Box::new(left), key, rank: rank as i32, right: Box::new(right) }
}

impl Shape {
    /// The left subtree; `Nil` below an empty slot.
    pub open spec fn left(self) -> Shape {
        match self {
            Shape::Nil => Shape::Nil,
            Shape::Fork { left, .. } => *left,
        }
    }

    /// The right subtree; `Nil` below an empty slot.
    pub open spec fn right(self) -> Shape {
        match self {
            Shape::Nil => Shape::Nil,
            Shape::Fork { right, .. } => *right,
        }
    }

    /// The subtree on the named side.
    pub open spec fn child(self, on_left: bool) -> Shape {
        if on_left {
            self.left()
        } else {
            self.right()
        }
    }

    /// The key at the root; 0 for `Nil`.
    pub open spec fn key(self) -> i32 {
        match self {
            Shape::Nil => 0,
            Shape::Fork { key, .. } => key,
        }
    }

    /// The same tree with the rank of its root set to `rank`.
    pub open spec fn with_rank(self, rank: int) -> Shape {
        match self {
            Shape::Nil => Shape::Nil,
            Shape::Fork { left, key, right, .. } => fork(*left, key, rank, *right),
        }
    }

    /// The same tree with the named subtree replaced.
    pub open spec fn with_child(self, on_left: bool, sub: Shape) -> Shape {
        match self {
            Shape::Nil => Shape::Nil,
            Shape::Fork { left, key, rank, right } => if on_left {
                fork(sub, key, rank as int, *right)
            } else {
                fork(*left, key, rank as int, sub)
            },
        }
    }

    /// The tree after its root was promoted: its rank is one higher.
    pub open spec fn promoted(self) -> Shape {
        self.with_rank(self.rank_of() + 1)
    }

    /// The tree after its root was demoted: its rank is one lower.
    pub open spec fn demoted(self) -> Shape {
        self.with_rank(self.rank_of() - 1)
    }

    /// The tree after a left rotation at its root: the right child takes the
    /// place of the root, the root becomes its left child, and the former
    /// left subtree of the right child becomes the right subtree of the
    /// former root. Ranks stay with their nodes.
    pub open spec fn rotated_left(self) -> Shape {
        let y = self.right();
        fork(
            fork(self.left(), self.key(), self.rank_of(), y.left()),
            y.key(),
            y.rank_of(),
            y.right(),
        )
    }

    /// The tree after a right rotation at its root: the mirror image of
    /// `rotated_left`.
    pub open spec fn rotated_right(self) -> Shape {
        let y = self.left();
        fork(
            y.left(),
            y.key(),
            y.rank_of(),
            fork(y.right(), self.key(), self.rank_of(), self.right()),
        )
    }

    /// The rank of a child slot: the rank of its node, or 0 where it is
    /// empty.
    pub open spec fn rank_of(self) -> int {
        match self {
            Shape::Nil => 0,
            Shape::Fork { rank, .. } => rank as int,
        }
    }

    /// The `(key, rank)` pairs that an in-order walk yields.
    pub open spec fn entries(self) -> Seq<(i32, i32)>
        decreases self,
    {
        match self {
            Shape::Nil => Seq::empty(),
            Shape::Fork { left, key, rank, right } => left.entries().push((key, rank))
                + right.entries(),
        }
    }

    /// The number of nodes.
    pub open spec fn size(self) -> nat
        decreases self,
    {
        match self {
            Shape::Nil => 0,
            Shape::Fork { left, right, .. } => left.size() + 1 + right.size(),
        }
    }

    /// The number of nodes on the longest way down from the root.
    pub open spec fn height(self) -> nat
        decreases self,
    {
        match self {
            Shape::Nil => 0,
            Shape::Fork { left, right, .. } => if left.height() >= right.height() {
                left.height() + 1
            } else {
                right.height() + 1
            },
        }
    }

    /// Search order: at every node, the keys of the left subtree are below
    /// the key of the node, and those of the right subtree above it.
    pub open spec fn is_search_tree(self) -> bool
        decreases self,
    {
        match self {
            Shape::Nil => true,
            Shape::Fork { left, key, right, .. } => {
                &&& forall|p: int| 0 <= p < left.entries().len() ==> (#[trigger] left.entries()[p]).0 < key
                &&& forall|p: int|
                    0 <= p < right.entries().len() ==> key < (#[trigger] right.entries()[p]).0
                &&& left.is_search_tree()
                &&& right.is_search_tree()
            },
        }
    }

    /// The rank rule: at every node, the rank is 1 or 2 above the rank of
    /// either child slot, and a node without children has rank 1.
    ///
    /// This is the part of the rule that holds of every tree at all times.
    /// The rule in full also forbids gap 2 on both sides of a node with
    /// children; `no_double_gap` states that part. Insertions keep it, and
    /// so do removals but for those that `remove_strands` names, whose walk
    /// ends in a rotation below a node that leaves no room to demote the
    /// lifted node.
    pub open spec fn obeys_rank_rule(self) -> bool
        decreases self,
    {
        match self {
            Shape::Nil => true,
            Shape::Fork { left, rank, right, .. } => {
                &&& 1 <= rank - left.rank_of() <= 2
                &&& 1 <= rank - right.rank_of() <= 2
                &&& (*left is Nil && *right is Nil ==> rank == 1)
                &&& left.obeys_rank_rule()
                &&& right.obeys_rank_rule()
            },
        }
    }

    /// The subtree whose root holds `key`, found by descending in search
    /// order; `Nil` where no node on the way holds it.
    pub open spec fn subtree(self, key: i32) -> Shape
        decreases self,
    {
        match self {
            Shape::Nil => Shape::Nil,
            Shape::Fork { left, key: here, right, .. } => if key == here {
                self
            } else if key < here {
                left.subtree(key)
            } else {
                right.subtree(key)
            },
        }
    }

    /// The number of nodes that a descent for `key` looks at: those on the
    /// way from the root to the node that holds `key`, or to the empty slot
    /// where the descent ends.
    pub open spec fn path_len(self, key: i32) -> nat
        decreases self,
    {
        match self {
            Shape::Nil => 0,
            Shape::Fork { left, key: here, right, .. } => if key == here {
                1
            } else if key < here {
                1 + left.path_len(key)
            } else {
                1 + right.path_len(key)
            },
        }
    }

    /// The number of nodes that a descent for `key` leaves behind: those on
    /// its way that do not hold `key`.
    pub open spec fn misses(self, key: i32) -> nat
        decreases self,
    {
        match self {
            Shape::Nil => 0,
            Shape::Fork { left, key: here, right, .. } => if key == here {
                0
            } else if key < here {
                1 + left.misses(key)
            } else {
                1 + right.misses(key)
            },
        }
    }

    /// The key at the root, if there is a root.
    pub open spec fn root_key(self) -> Option<i32> {
        match self {
            Shape::Nil => None,
            Shape::Fork { key, .. } => Some(key),
        }
    }

    /// `link` lists the node that holds the key of `entry`: its key and rank,
    /// as in `entry`, and the keys of its two children.
    pub open spec fn has_link(
        self,
        entry: (i32, i32),
        link: (i32, i32, Option<i32>, Option<i32>),
    ) -> bool {
        &&& link.0 == entry.0
        &&& link.1 == entry.1
        &&& self.subtree(entry.0) matches Shape::Fork { left, key, rank, right }
        &&& key == entry.0
        &&& rank == entry.1
        &&& left.root_key() == link.2
        &&& right.root_key() == link.3
    }

    /// The in-order walk visits every node once.
    pub proof fn lemma_size(self)
        ensures
            self.entries().len() == self.size(),
        decreases self,
    {
        match self {
            Shape::Nil => {},
            Shape::Fork { left, right, .. } => {
                left.lemma_size();
                right.lemma_size();
            },
        }
    }

    /// A tree whose in-order walk ascends is in search order at every node.
    pub proof fn lemma_search_tree(self)
        requires
            ascending(self.entries()),
        ensures
            self.is_search_tree(),
        decreases self,
    {
        match self {
            Shape::Nil => {},
            Shape::Fork { left, key, rank, right } => {
                let l = left.entries();
                let r = right.entries();
                let all = self.entries();
                let m = l.len() as int;
                assert(all[m] == (key, rank));
                assert forall|p: int| 0 <= p < l.len() implies (#[trigger] l[p]).0 < key by {
                    assert(all[p] == l[p]);
                    assert(all[p].0 < all[m].0);
                }
                assert forall|p: int| 0 <= p < r.len() implies key < (#[trigger] r[p]).0 by {
                    assert(all[m + 1 + p] == r[p]);
                    assert(all[m].0 < all[m + 1 + p].0);
                }
                assert(ascending(l)) by {
                    assert forall|i: int, j: int| 0 <= i < j < l.len() implies l[i].0 < l[j].0 by {
                        assert(all[i] == l[i]);
                        assert(all[j] == l[j]);
                    }
                }
                assert(ascending(r)) by {
                    assert forall|i: int, j: int| 0 <= i < j < r.len() implies r[i].0 < r[j].0 by {
                        assert(all[m + 1 + i] == r[i]);
                        assert(all[m + 1 + j] == r[j]);
                    }
                }
                left.lemma_search_tree();
                right.lemma_search_tree();
            },
        }
    }

    /// Under the rank rule no way down is longer than the rank of the root,
    /// and a root of rank `r` has at least `min_nodes(r)` nodes below and
    /// including it.
    pub proof fn lemma_rank_bounds(self)
        requires
            self.obeys_rank_rule(),
        ensures
            self.height() <= self.rank_of(),
            min_nodes(self.rank_of()) <= self.size(),
        decreases self,
    {
        match self {
            Shape::Nil => {},
            Shape::Fork { left, rank, right, .. } => {
                left.lemma_rank_bounds();
                right.lemma_rank_bounds();
                lemma_min_nodes_mono(rank - 2, left.rank_of());
                lemma_min_nodes_mono(rank - 2, right.rank_of());
            },
        }
    }

    /// The depth bound: a tree of `n` nodes that obeys the rank rule is no
    /// higher than `2 * log2(n + 1)`, that is, `2^ceil(height / 2) <= n + 1`.
    pub proof fn lemma_height_bound(self)
        requires
            self.obeys_rank_rule(),
        ensures
            pow2((self.height() + 1) / 2) <= self.size() + 1,
    {
        self.lemma_rank_bounds();
        let h = self.height();
        let r = self.rank_of() as nat;
        lemma_min_nodes_pow2(r);
        if (h + 1) / 2 < (r + 1) / 2 {
            lemma_pow2_strictly_increases((h + 1) / 2, (r + 1) / 2);
        }
    }
}

} // verus!
