//! The weak-AVL tree and its operations.

use vstd::prelude::*;
use vstd::arithmetic::power2::pow2;
use crate::laws::{step, Op};
use crate::model::{
    ascending, counted, greatest_below, holds, key_seq, key_set, least_above,
};
use crate::raw::RawTree;
use crate::shape::{lemma_rank_small, Shape};

verus! {

/// A weak-AVL tree of `i32` keys: a binary search tree whose nodes carry
/// ranks, kept balanced by promotions, demotions and rotations.
///
/// Its view is the sequence of `(key, rank)` pairs by ascending key. Every
/// tree is well formed at all times: the keys are in search order, the links
/// between parents and children are consistent, and each node obeys the rank
/// rule: both its gaps are 1 or 2, and both are 1 where it has no children.
/// No node has gap 2 on both sides either, but after a removal whose walk
/// ends in a rotation that leaves no room to demote the lifted node.
pub struct Tree {
    raw: RawTree,
}

impl View for Tree {
    type V = Seq<(i32, i32)>;

    closed spec fn view(&self) -> Seq<(i32, i32)> {
        self.raw@
    }
}

impl Tree {
    /// The invariant that every tree satisfies.
    #[verifier::type_invariant]
    pub closed spec fn wf(&self) -> bool {
        self.raw.wf()
    }

    /// `key` is one of the stored keys.
    pub open spec fn contains(&self, key: i32) -> bool {
        holds(self@, key)
    }

    /// The set of the stored keys.
    pub open spec fn keys(&self) -> Set<i32> {
        key_set(self@)
    }

    /// The tree as a mathematical value: its nodes with their keys, their
    /// ranks and their children.
    pub closed spec fn shape(&self) -> Shape {
        self.raw.shape()
    }

    /// The rotations counted since the last reset.
    pub closed spec fn spec_rotations(&self) -> nat {
        self.raw.rotations as nat
    }

    /// The node visits counted since the last reset.
    pub closed spec fn spec_accessed_nodes(&self) -> nat {
        self.raw.accessed_nodes as nat
    }

    /// An empty tree with both counters at zero.
    pub fn new() -> (tree: Self)
        ensures
            tree.wf(),
            tree@ == Seq::<(i32, i32)>::empty(),
            tree.shape() is Nil,
            tree.spec_rotations() == 0,
            tree.spec_accessed_nodes() == 0,
    {
        Tree { raw: RawTree::new() }
    }

    /// Sets the rotation counter back to zero.
    pub fn reset_rotations(&mut self)
        ensures
            final(self).wf(),
            final(self).spec_rotations() == 0,
            final(self).spec_accessed_nodes() == old(self).spec_accessed_nodes(),
            final(self)@ == old(self)@,
            final(self).shape() == old(self).shape(),
    {
        proof {
            use_type_invariant(&*self);
        }
        let mut raw = RawTree::new();
        core::mem::swap(&mut raw, &mut self.raw);
        raw.reset_rotations();
        self.raw = raw;
    }

    /// Sets the counter of node visits back to zero.
    pub fn reset_accessed_nodes(&mut self)
        ensures
            final(self).wf(),
            final(self).spec_accessed_nodes() == 0,
            final(self).spec_rotations() == old(self).spec_rotations(),
            final(self)@ == old(self)@,
            final(self).shape() == old(self).shape(),
    {
        proof {
            use_type_invariant(&*self);
        }
        let mut raw = RawTree::new();
        core::mem::swap(&mut raw, &mut self.raw);
        raw.reset_accessed_nodes();
        self.raw = raw;
    }

    /// The rotations counted since the last reset.
    pub fn rotations(&self) -> (n: usize)
        ensures
            n == self.spec_rotations(),
    {
        self.raw.rotations()
    }

    /// The node visits counted since the last reset.
    pub fn accessed_nodes(&self) -> (n: usize)
        ensures
            n == self.spec_accessed_nodes(),
    {
        self.raw.accessed_nodes()
    }

    /// Puts `data` into the tree unless it is there already, and reports
    /// whether it was put in. A key that was present leaves the tree as it
    /// was. At most two rotations restore the rank rule. An insertion makes
    /// no node with gap 2 on both sides: a tree that has none before has
    /// none after.
    pub fn insert(&mut self, data: i32) -> (inserted: bool)
        ensures
            final(self).wf(),
            inserted == !old(self).contains(data),
            final(self).keys() == old(self).keys().insert(data),
            final(self).contains(data),
            forall|k: i32| k != data ==> #[trigger] holds(final(self)@, k) == holds(old(self)@, k),
            step(*old(self), Op::Insert(data), *final(self)),
            final(self).shape() == if inserted {
                old(self).shape().inserted(data)
            } else {
                old(self).shape()
            },
            old(self).shape().no_double_gap() ==> final(self).shape().no_double_gap(),
            !inserted ==> final(self)@ == old(self)@,
            inserted ==> exists|a: int|
                0 <= a <= old(self)@.len() && #[trigger] key_seq(old(self)@).insert(a, data)
                    == key_seq(final(self)@),
            final(self).spec_rotations() == if inserted {
                counted(old(self).spec_rotations(), old(self).shape().insert_turns(data))
            } else {
                old(self).spec_rotations()
            },
            inserted ==> old(self).shape().insert_turns(data) <= 2,
            final(self).spec_accessed_nodes() == counted(
                old(self).spec_accessed_nodes(),
                if old(self).shape() is Nil {
                    1
                } else {
                    old(self).shape().path_len(data)
                },
            ),
    {
        proof {
            use_type_invariant(&*self);
            self.lemma_invariants();
            if self.shape().no_double_gap() {
                self.shape().lemma_inserted_step(data);
            }
        }
        let mut raw = RawTree::new();
        core::mem::swap(&mut raw, &mut self.raw);
        let inserted = raw.insert(data);
        self.raw = raw;
        inserted
    }

    /// Takes `data` out of the tree if it is there, and reports whether it
    /// was. An absent key leaves the tree as it was. At most two rotations
    /// restore the rank rule. A tree without a node with gap 2 on both sides
    /// has none afterwards either, unless the walk ends in a rotation below
    /// a node that leaves no room to demote the lifted node
    /// (`Shape::remove_strands`).
    pub fn remove(&mut self, data: i32) -> (removed: bool)
        ensures
            final(self).wf(),
            removed == old(self).contains(data),
            final(self).keys() == old(self).keys().remove(data),
            !final(self).contains(data),
            forall|k: i32| k != data ==> #[trigger] holds(final(self)@, k) == holds(old(self)@, k),
            step(*old(self), Op::Remove(data), *final(self)),
            final(self).shape() == if removed {
                old(self).shape().removed(data)
            } else {
                old(self).shape()
            },
            !removed ==> final(self)@ == old(self)@,
            removed ==> exists|a: int|
                0 <= a < old(self)@.len() && old(self)@[a].0 == data && #[trigger] key_seq(
                    old(self)@,
                ).remove(a) == key_seq(final(self)@),
            old(self).shape().no_double_gap() ==> final(self).shape().no_double_gap() || (removed
                && old(self).shape().remove_strands(data)),
            final(self).spec_rotations() == if removed {
                counted(old(self).spec_rotations(), old(self).shape().remove_turns(data))
            } else {
                old(self).spec_rotations()
            },
            removed ==> old(self).shape().remove_turns(data) <= 2,
            final(self).spec_accessed_nodes() == counted(
                old(self).spec_accessed_nodes(),
                old(self).shape().misses(data),
            ),
    {
        proof {
            use_type_invariant(&*self);
        }
        let mut raw = RawTree::new();
        core::mem::swap(&mut raw, &mut self.raw);
        let removed = raw.remove(data);
        self.raw = raw;
        removed
    }

    /// Whether `data` is one of the stored keys. The tree stays as it is;
    /// only the node visits are counted.
    pub fn find(&mut self, data: i32) -> (found: bool)
        ensures
            final(self).wf(),
            found == old(self).contains(data),
            final(self)@ == old(self)@,
            final(self).shape() == old(self).shape(),
            final(self).spec_rotations() == old(self).spec_rotations(),
            final(self).spec_accessed_nodes() == counted(
                old(self).spec_accessed_nodes(),
                old(self).shape().misses(data),
            ),
    {
        proof {
            use_type_invariant(&*self);
        }
        let mut raw = RawTree::new();
        core::mem::swap(&mut raw, &mut self.raw);
        let found = raw.find(data);
        self.raw = raw;
        found
    }

    /// The least stored key above `data`, where `data` is stored and is not
    /// the greatest key; `None` otherwise. The tree stays as it is; only the
    /// node visits are counted.
    pub fn successor(&mut self, data: i32) -> (next: Option<i32>)
        ensures
            final(self).wf(),
            final(self)@ == old(self)@,
            final(self).shape() == old(self).shape(),
            final(self).spec_rotations() == old(self).spec_rotations(),
            final(self).spec_accessed_nodes() == counted(
                old(self).spec_accessed_nodes(),
                old(self).shape().misses(data),
            ),
            match next {
                Some(key) => old(self).contains(data) && least_above(old(self)@, data, key),
                None => !old(self).contains(data) || forall|k: i32|
                    holds(old(self)@, k) ==> k <= data,
            },
    {
        proof {
            use_type_invariant(&*self);
        }
        let mut raw = RawTree::new();
        core::mem::swap(&mut raw, &mut self.raw);
        let next = raw.successor(data);
        self.raw = raw;
        next
    }

    /// The greatest stored key below `data`, where `data` is stored and is
    /// not the least key; `None` otherwise. The tree stays as it is; only
    /// the node visits are counted.
    pub fn predecessor(&mut self, data: i32) -> (prev: Option<i32>)
        ensures
            final(self).wf(),
            final(self)@ == old(self)@,
            final(self).shape() == old(self).shape(),
            final(self).spec_rotations() == old(self).spec_rotations(),
            final(self).spec_accessed_nodes() == counted(
                old(self).spec_accessed_nodes(),
                old(self).shape().misses(data),
            ),
            match prev {
                Some(key) => old(self).contains(data) && greatest_below(old(self)@, data, key),
                None => !old(self).contains(data) || forall|k: i32|
                    holds(old(self)@, k) ==> data <= k,
            },
    {
        proof {
            use_type_invariant(&*self);
        }
        let mut raw = RawTree::new();
        core::mem::swap(&mut raw, &mut self.raw);
        let prev = raw.predecessor(data);
        self.raw = raw;
        prev
    }

    /// The `(key, rank)` pairs of the tree by ascending key.
    pub fn inorder(&self) -> (v: Vec<(i32, i32)>)
        ensures
            self.wf(),
            v@ == self@,
            v@ == self.shape().entries(),
            ascending(v@),
    {
        proof {
            use_type_invariant(self);
            self.raw.lemma_ascending();
            self.raw.lemma_shape();
        }
        self.raw.inorder()
    }

    /// The number of stored keys.
    pub fn node_count(&self) -> (n: usize)
        ensures
            self.wf(),
            n == self@.len(),
            n == self.keys().len(),
            n == self.shape().size(),
    {
        proof {
            use_type_invariant(self);
            self.raw.lemma_ascending();
            self.raw.lemma_shape();
            self.shape().lemma_size();
        }
        self.raw.node_count()
    }

    /// The key and the rank of each node by ascending key, with the key of
    /// its left child and the key of its right child: the tree as a list of
    /// its links.
    pub fn links(&self) -> (v: Vec<(i32, i32, Option<i32>, Option<i32>)>)
        ensures
            self.wf(),
            v@.len() == self@.len(),
            forall|p: int|
                0 <= p < v@.len() ==> self.shape().has_link(self@[p], #[trigger] v@[p]),
    {
        proof {
            use_type_invariant(self);
        }
        self.raw.links()
    }

    /// Empties the tree. The counters stay as they are.
    pub fn clear(&mut self)
        ensures
            final(self).wf(),
            final(self)@ == Seq::<(i32, i32)>::empty(),
            final(self).shape() is Nil,
            final(self).spec_rotations() == old(self).spec_rotations(),
            final(self).spec_accessed_nodes() == old(self).spec_accessed_nodes(),
    {
        proof {
            use_type_invariant(&*self);
        }
        let mut raw = RawTree::new();
        core::mem::swap(&mut raw, &mut self.raw);
        raw.clear();
        self.raw = raw;
    }

    /// In every well-formed tree the keys of the view ascend strictly, so
    /// that no key is held twice and the view is as long as the key set is
    /// large.
    pub proof fn lemma_ascending(&self)
        requires
            self.wf(),
        ensures
            ascending(self@),
            self.keys().finite(),
            self.keys().len() == self@.len(),
    {
        self.raw.lemma_ascending();
    }

    /// Every well-formed tree is a search tree that obeys the rank rule at
    /// each node: the in-order walk of its shape is its view, whose keys
    /// ascend; at each node the keys to the left are smaller and those to
    /// the right greater; each rank is 1 or 2 above the ranks of both child
    /// slots, and each node without children has rank 1. The tree has no
    /// root exactly when it holds no key.
    ///
    /// This is what holds of every tree at all times. That no node has gap
    /// 2 on both sides holds besides, from the empty tree on, until a
    /// removal ends in a rotation that leaves the lifted node with such
    /// gaps (`Shape::remove_strands`): after the keys 14, 19, 4, 3, 6, 12, 8
    /// were inserted and 14 was removed, the node that holds 12 has rank 3
    /// over two children of rank 1, below a root that leaves no room to
    /// demote it. `insert`, `remove` and `laws::lemma_history_strict` state
    /// this part.
    pub proof fn lemma_invariants(&self)
        requires
            self.wf(),
        ensures
            self.shape().entries() == self@,
            self.shape().size() == self@.len(),
            ascending(self@),
            self.shape().is_search_tree(),
            self.shape().obeys_rank_rule(),
            self.shape() is Nil <==> self@.len() == 0,
            self@.len() <= usize::MAX,
            self.shape().rank_of() < 130,
    {
        self.raw.lemma_shape();
        self.raw.lemma_ascending();
        self.shape().lemma_search_tree();
        self.shape().lemma_size();
        self.shape().lemma_rank_bounds();
        lemma_rank_small(self.shape().rank_of(), self@.len() as int);
    }

    /// The depth bound: a well-formed tree of `n` keys is no higher than
    /// `2 * log2(n + 1)`, that is, `2^ceil(height / 2) <= n + 1`.
    pub proof fn lemma_depth_bound(&self)
        requires
            self.wf(),
        ensures
            pow2((self.shape().height() + 1) / 2) <= self@.len() + 1,
    {
        self.lemma_invariants();
        self.shape().lemma_height_bound();
    }
}

} // verus!
