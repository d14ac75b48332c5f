//! Insertion and removal on shapes: what the operations of the tree do, as
//! functions from shape to shape.

use vstd::prelude::*;
use crate::shape::{fork, Shape};

verus! {

impl Shape {
    /// The tree with a new leaf of rank 1 that holds `key` hung into the
    /// empty slot where a descent for `key` ends. A tree that holds `key`
    /// stays as it is.
    pub open spec fn grown(self, key: i32) -> Shape
        decreases self,
    {
        match self {
            Shape::Nil => fork(Shape::Nil, key, 1, Shape::Nil),
            Shape::Fork { left, key: here, rank, right } => if key == here {
                self
            } else if key < here {
                fork(left.grown(key), here, rank as int, *right)
            } else {
                fork(*left, here, rank as int, right.grown(key))
            },
        }
    }

    /// One step of the walk after an insertion, at the parent of the node
    /// that the walk has reached on the named side. Where the gap to that
    /// node is not 0, nothing is done. Where the gap to its sibling is 1,
    /// the parent is promoted. Otherwise one rotation, or two, lift the node
    /// or its inner child over the parent: a single rotation where the outer
    /// gap of the node is 1, a double rotation where its inner gap is 1.
    pub open spec fn after_insert(self, on_left: bool) -> Shape {
        let node = self.child(on_left);
        let sibling = self.child(!on_left);
        if self.rank_of() - node.rank_of() != 0 {
            self
        } else if self.rank_of() - sibling.rank_of() == 1 {
            self.promoted()
        } else if on_left {
            if node.rank_of() - node.left().rank_of() == 1 {
                let top = self.rotated_right();
                top.with_child(false, top.right().demoted())
            } else {
                let risen = node.rotated_left();
                let lifted = risen.with_child(true, risen.left().demoted()).promoted();
                let top = self.with_child(true, lifted).rotated_right();
                top.with_child(false, top.right().demoted())
            }
        } else {
            if node.rank_of() - node.right().rank_of() == 1 {
                let top = self.rotated_left();
                top.with_child(true, top.left().demoted())
            } else {
                let risen = node.rotated_right();
                let lifted = risen.with_child(false, risen.right().demoted()).promoted();
                let top = self.with_child(false, lifted).rotated_left();
                top.with_child(true, top.left().demoted())
            }
        }
    }

    /// The number of rotations that the step of `after_insert` makes.
    pub open spec fn insert_turns_at(self, on_left: bool) -> nat {
        let node = self.child(on_left);
        let sibling = self.child(!on_left);
        if self.rank_of() - node.rank_of() != 0 {
            0
        } else if self.rank_of() - sibling.rank_of() == 1 {
            0
        } else if node.rank_of() - node.child(on_left).rank_of() == 1 {
            1
        } else {
            2
        }
    }

    /// The number of rotations that the walk after the insertion of `key`
    /// makes.
    pub open spec fn settled_turns(self, key: i32) -> nat
        decreases self,
    {
        match self {
            Shape::Nil => 0,
            Shape::Fork { left, key: here, rank, right } => if key == here {
                0
            } else if key < here {
                left.settled_turns(key) + fork(
                    left.settled(key),
                    here,
                    rank as int,
                    *right,
                ).insert_turns_at(true)
            } else {
                right.settled_turns(key) + fork(
                    *left,
                    here,
                    rank as int,
                    right.settled(key),
                ).insert_turns_at(false)
            },
        }
    }

    /// The number of rotations that the insertion of `key` makes.
    pub open spec fn insert_turns(self, key: i32) -> nat {
        self.grown(key).settled_turns(key)
    }

    /// The tree after the walk that follows the insertion of `key`: from the
    /// leaf that holds `key`, each node on the way up to the root takes its
    /// step of `after_insert`.
    pub open spec fn settled(self, key: i32) -> Shape
        decreases self,
    {
        match self {
            Shape::Nil => Shape::Nil,
            Shape::Fork { left, key: here, rank, right } => if key == here {
                self
            } else if key < here {
                fork(left.settled(key), here, rank as int, *right).after_insert(true)
            } else {
                fork(*left, here, rank as int, right.settled(key)).after_insert(false)
            },
        }
    }

    /// The tree after `key`, which it does not hold, was inserted: a new
    /// leaf is hung into the tree, and the walk from the leaf to the root
    /// restores the rank rule.
    pub open spec fn inserted(self, key: i32) -> Shape {
        self.grown(key).settled(key)
    }

    /// The least key of the tree; 0 for `Nil`.
    pub open spec fn min_key(self) -> i32
        decreases self,
    {
        match self {
            Shape::Nil => 0,
            Shape::Fork { left, key, .. } => if *left is Nil {
                key
            } else {
                left.min_key()
            },
        }
    }

    /// The tree with the node that holds `key` taken out, ranks left as they
    /// are. A node with at most one child gives its place to that child. A
    /// node with two children takes over the least key of its right
    /// subtree, and the node that held that key is taken out in its stead.
    pub open spec fn pruned(self, key: i32) -> Shape
        decreases self,
    {
        match self {
            Shape::Nil => Shape::Nil,
            Shape::Fork { left, key: here, rank, right } => if key < here {
                fork(left.pruned(key), here, rank as int, *right)
            } else if key > here {
                fork(*left, here, rank as int, right.pruned(key))
            } else if *left is Nil {
                *right
            } else if *right is Nil {
                *left
            } else {
                fork(*left, right.min_key(), rank as int, right.pruned(right.min_key()))
            },
        }
    }

    /// The key of the node that leaves the tree when `key` is removed: `key`
    /// itself, or the least key of the right subtree where the node that
    /// holds `key` has two children.
    pub open spec fn leaving(self, key: i32) -> i32 {
        let sub = self.subtree(key);
        if sub.left() is Fork && sub.right() is Fork {
            sub.right().min_key()
        } else {
            key
        }
    }

    /// The root has gap 2 on both sides.
    pub open spec fn double_gap(self) -> bool {
        self is Fork && self.rank_of() - self.left().rank_of() == 2 && self.rank_of()
            - self.right().rank_of() == 2
    }

    /// The tree after the check of the former parent that follows a single
    /// rotation: its root is demoted where both its gaps are 2.
    pub open spec fn checked(self) -> Shape {
        if self.double_gap() {
            self.demoted()
        } else {
            self
        }
    }

    /// The tree after the check of the node that a rotation has lifted: its
    /// root is demoted where both its gaps are 2 and there is room for it,
    /// that is, where the tree is the whole tree or both gaps of the node
    /// above are 1. Without room the root keeps gap 2 on both sides, since
    /// the walk ends with the rotation.
    pub open spec fn lowered_if(self, room: bool) -> Shape {
        if room && self.double_gap() {
            self.demoted()
        } else {
            self
        }
    }

    /// One step of the walk after a removal, at the parent of the slot that
    /// the walk has reached on the named side. Where the gap to the slot is
    /// 1, nothing is done. Where it is 2, the parent is demoted if its other
    /// gap is 2 as well. Where it is 3, the parent is demoted if the gap to
    /// the sibling is 2, and together with the sibling if both gaps of the
    /// sibling are 2. Otherwise one rotation, or two, lift the sibling or
    /// its inner child over the parent: a single rotation where the outer
    /// gap of the sibling is 1, a double rotation otherwise. After the
    /// rotation the lifted node is checked for gap 2 on both sides; `room`
    /// says whether it may be demoted.
    pub open spec fn after_delete(self, on_left: bool, room: bool) -> Shape {
        let node = self.child(on_left);
        let sibling = self.child(!on_left);
        let gap = self.rank_of() - node.rank_of();
        if gap <= 1 {
            self
        } else if gap == 2 {
            if self.rank_of() - sibling.rank_of() == 2 {
                self.demoted()
            } else {
                self
            }
        } else if self.rank_of() - sibling.rank_of() == 2 {
            self.demoted()
        } else if sibling.rank_of() - sibling.left().rank_of() == 2 && sibling.rank_of()
            - sibling.right().rank_of() == 2 {
            self.with_child(!on_left, sibling.demoted()).demoted()
        } else if on_left {
            if sibling.rank_of() - sibling.right().rank_of() == 1 {
                let top = self.rotated_left();
                let top = top.with_child(true, top.left().demoted()).promoted();
                let top = top.with_child(true, top.left().checked());
                top.lowered_if(room)
            } else {
                let risen = sibling.rotated_right();
                let lifted = risen.with_child(false, risen.right().demoted()).promoted();
                let top = self.with_child(false, lifted).rotated_left();
                let top = top.with_child(true, top.left().demoted()).promoted();
                let top = top.with_child(true, top.left().demoted());
                top.lowered_if(room)
            }
        } else {
            if sibling.rank_of() - sibling.left().rank_of() == 1 {
                let top = self.rotated_right();
                let top = top.with_child(false, top.right().demoted()).promoted();
                let top = top.with_child(false, top.right().checked());
                top.lowered_if(room)
            } else {
                let risen = sibling.rotated_left();
                let lifted = risen.with_child(true, risen.left().demoted()).promoted();
                let top = self.with_child(true, lifted).rotated_right();
                let top = top.with_child(false, top.right().demoted()).promoted();
                let top = top.with_child(false, top.right().demoted());
                top.lowered_if(room)
            }
        }
    }

    /// The walk after a removal goes on above the parent of the slot on the
    /// named side: its step there is a demotion.
    pub open spec fn delete_goes_on(self, on_left: bool) -> bool {
        let node = self.child(on_left);
        let sibling = self.child(!on_left);
        let gap = self.rank_of() - node.rank_of();
        if gap <= 1 {
            false
        } else if gap == 2 {
            self.rank_of() - sibling.rank_of() == 2
        } else {
            self.rank_of() - sibling.rank_of() == 2 || (sibling.rank_of()
                - sibling.left().rank_of() == 2 && sibling.rank_of() - sibling.right().rank_of()
                == 2)
        }
    }

    /// The number of rotations that the step of `after_delete` makes.
    pub open spec fn delete_turns_at(self, on_left: bool) -> nat {
        let node = self.child(on_left);
        let sibling = self.child(!on_left);
        if self.rank_of() - node.rank_of() <= 2 {
            0
        } else if self.rank_of() - sibling.rank_of() == 2 {
            0
        } else if sibling.rank_of() - sibling.left().rank_of() == 2 && sibling.rank_of()
            - sibling.right().rank_of() == 2 {
            0
        } else if sibling.rank_of() - sibling.child(!on_left).rank_of() == 1 {
            1
        } else {
            2
        }
    }

    /// The step of `after_delete` ends in a rotation that leaves the lifted
    /// node with gap 2 on both sides, for want of room to demote it: a
    /// double rotation, or a single rotation at a sibling whose inner gap is
    /// 2, below a node that does not have gap 1 on both sides.
    pub open spec fn delete_strands_at(self, on_left: bool, room: bool) -> bool {
        let sibling = self.child(!on_left);
        &&& !room
        &&& self.delete_turns_at(on_left) > 0
        &&& (self.delete_turns_at(on_left) == 2 || sibling.rank_of() - sibling.child(
            on_left,
        ).rank_of() == 2)
    }

    /// Both gaps of the root are 1: a subtree on either side may sink by one
    /// rank and leave the root within the rank rule, with no gap 2 on both
    /// sides.
    pub open spec fn gives_room(self) -> bool {
        self.rank_of() - self.left().rank_of() == 1 && self.rank_of() - self.right().rank_of() == 1
    }

    /// The walk after a removal, which starts at the slot `levels` levels
    /// below the root of this tree, goes on above the root.
    pub open spec fn walk_reaches(self, gone: i32, levels: nat) -> bool
        decreases self,
    {
        if levels == 0 {
            true
        } else {
            match self {
                Shape::Nil => false,
                Shape::Fork { left, key: here, rank, right } => if gone < here {
                    left.walk_reaches(gone, (levels - 1) as nat) && fork(
                        left.resettled(gone, (levels - 1) as nat, self.gives_room()),
                        here,
                        rank as int,
                        *right,
                    ).delete_goes_on(true)
                } else {
                    right.walk_reaches(gone, (levels - 1) as nat) && fork(
                        *left,
                        here,
                        rank as int,
                        right.resettled(gone, (levels - 1) as nat, self.gives_room()),
                    ).delete_goes_on(false)
                },
            }
        }
    }

    /// The tree after the walk that follows the removal of the node that
    /// held `gone`. The walk starts at the slot that the node has left,
    /// `levels` levels below the root of this tree, on the way that a
    /// descent for `gone` takes (to the left where `gone` is below the key
    /// of a node, to the right otherwise). While the walk goes on, each node
    /// on the way up takes its step of `after_delete`; once it has ended,
    /// the nodes above stay as they are. `room` says whether the root of
    /// this tree may sink by one rank.
    pub open spec fn resettled(self, gone: i32, levels: nat, room: bool) -> Shape
        decreases self,
    {
        if levels == 0 {
            self
        } else {
            match self {
                Shape::Nil => Shape::Nil,
                Shape::Fork { left, key: here, rank, right } => if gone < here {
                    let stepped = fork(
                        left.resettled(gone, (levels - 1) as nat, self.gives_room()),
                        here,
                        rank as int,
                        *right,
                    );
                    if left.walk_reaches(gone, (levels - 1) as nat) {
                        stepped.after_delete(true, room)
                    } else {
                        stepped
                    }
                } else {
                    let stepped = fork(
                        *left,
                        here,
                        rank as int,
                        right.resettled(gone, (levels - 1) as nat, self.gives_room()),
                    );
                    if right.walk_reaches(gone, (levels - 1) as nat) {
                        stepped.after_delete(false, room)
                    } else {
                        stepped
                    }
                },
            }
        }
    }

    /// The number of rotations that the walk of `resettled` makes.
    pub open spec fn resettled_turns(self, gone: i32, levels: nat) -> nat
        decreases self,
    {
        if levels == 0 {
            0
        } else {
            match self {
                Shape::Nil => 0,
                Shape::Fork { left, key: here, rank, right } => if gone < here {
                    left.resettled_turns(gone, (levels - 1) as nat) + if left.walk_reaches(
                        gone,
                        (levels - 1) as nat,
                    ) {
                        fork(
                            left.resettled(gone, (levels - 1) as nat, self.gives_room()),
                            here,
                            rank as int,
                            *right,
                        ).delete_turns_at(true)
                    } else {
                        0
                    }
                } else {
                    right.resettled_turns(gone, (levels - 1) as nat) + if right.walk_reaches(
                        gone,
                        (levels - 1) as nat,
                    ) {
                        fork(
                            *left,
                            here,
                            rank as int,
                            right.resettled(gone, (levels - 1) as nat, self.gives_room()),
                        ).delete_turns_at(false)
                    } else {
                        0
                    }
                },
            }
        }
    }

    /// The walk of `resettled` ends in a rotation that leaves the lifted
    /// node with gap 2 on both sides.
    pub open spec fn resettled_strands(self, gone: i32, levels: nat, room: bool) -> bool
        decreases self,
    {
        if levels == 0 {
            false
        } else {
            match self {
                Shape::Nil => false,
                Shape::Fork { left, key: here, rank, right } => if gone < here {
                    left.resettled_strands(gone, (levels - 1) as nat, self.gives_room()) || (
                    left.walk_reaches(gone, (levels - 1) as nat) && fork(
                        left.resettled(gone, (levels - 1) as nat, self.gives_room()),
                        here,
                        rank as int,
                        *right,
                    ).delete_strands_at(true, room))
                } else {
                    right.resettled_strands(gone, (levels - 1) as nat, self.gives_room()) || (
                    right.walk_reaches(gone, (levels - 1) as nat) && fork(
                        *left,
                        here,
                        rank as int,
                        right.resettled(gone, (levels - 1) as nat, self.gives_room()),
                    ).delete_strands_at(false, room))
                },
            }
        }
    }

    /// The removal of `key` ends in a rotation that leaves the lifted node
    /// with gap 2 on both sides: the walk that follows a removal ends at its
    /// first rotation, and the node above the lifted node leaves no room to
    /// demote it.
    pub open spec fn remove_strands(self, key: i32) -> bool {
        self.pruned(key).resettled_strands(self.leaving(key), self.levels_above(key), true)
    }

    /// The number of nodes above the node that leaves the tree when `key` is
    /// removed: the levels between the root and the slot at which the walk
    /// starts.
    pub open spec fn levels_above(self, key: i32) -> nat {
        (self.path_len(self.leaving(key)) - 1) as nat
    }

    /// The number of rotations that the removal of `key` makes.
    pub open spec fn remove_turns(self, key: i32) -> nat {
        self.pruned(key).resettled_turns(self.leaving(key), self.levels_above(key))
    }

    /// The tree after `key`, which it holds, was removed: the node that
    /// leaves is taken out, and the walk from its slot towards the root
    /// restores the rank rule.
    pub open spec fn removed(self, key: i32) -> Shape {
        self.pruned(key).resettled(self.leaving(key), self.levels_above(key), true)
    }

    /// No node of the tree has gap 2 on both sides.
    pub open spec fn no_double_gap(self) -> bool
        decreases self,
    {
        match self {
            Shape::Nil => true,
            Shape::Fork { left, rank, right, .. } => {
                &&& !(rank - left.rank_of() == 2 && rank - right.rank_of() == 2)
                &&& left.no_double_gap()
                &&& right.no_double_gap()
            },
        }
    }

    /// The tree obeys the rank rule, and none of its nodes has gap 2 on both
    /// sides.
    pub open spec fn strict(self) -> bool {
        self.obeys_rank_rule() && self.no_double_gap()
    }

    /// The gaps of the root to its two subtrees are what a removal below the
    /// named side leaves of gaps that were in order: 2 and 1, 2 and 2, or 3
    /// and 1.
    pub open spec fn gap_grown(self, on_left: bool) -> bool {
        let gap = self.rank_of() - self.child(on_left).rank_of();
        let other = self.rank_of() - self.child(!on_left).rank_of();
        (gap == 2 && other == 1) || (gap == 2 && other == 2) || (gap == 3 && other == 1)
    }

    /// The tree is as a removal leaves it before the walk: all is in order
    /// but at the parent of the slot, `levels` levels down the way of a
    /// descent for `gone`, where the gap to the slot has grown by 1.
    pub open spec fn pending(self, gone: i32, levels: nat) -> bool
        decreases self,
    {
        if levels == 0 {
            self.strict()
        } else {
            match self {
                Shape::Nil => false,
                Shape::Fork { left, key: here, rank, right } => {
                    let on_left = gone < here;
                    &&& self.child(on_left).pending(gone, (levels - 1) as nat)
                    &&& self.child(!on_left).strict()
                    &&& if levels == 1 {
                        self.gap_grown(on_left)
                    } else {
                        &&& 1 <= rank - left.rank_of() <= 2
                        &&& 1 <= rank - right.rank_of() <= 2
                        &&& !(rank - left.rank_of() == 2 && rank - right.rank_of() == 2)
                    }
                },
            }
        }
    }

    /// Under the rank rule every node has a rank of at least 1.
    pub proof fn lemma_rank_floor(self)
        requires
            self.obeys_rank_rule(),
        ensures
            self.rank_of() >= 0,
            self is Fork ==> self.rank_of() >= 1,
        decreases self,
    {
        match self {
            Shape::Nil => {},
            Shape::Fork { left, .. } => {
                left.lemma_rank_floor();
            },
        }
    }

    /// The rotations of `after_insert` on the left side keep the rank rule,
    /// make no node with gap 2 on both sides, and leave the rank at the root
    /// as it was.
    pub proof fn lemma_after_insert_rotated_left(self)
        requires
            self is Fork,
            self.left().obeys_rank_rule(),
            self.left().no_double_gap(),
            self.right().obeys_rank_rule(),
            self.right().no_double_gap(),
            self.rank_of() - self.left().rank_of() == 0,
            self.rank_of() - self.right().rank_of() == 2,
            (self.left().rank_of() - self.left().left().rank_of()) + (self.left().rank_of()
                - self.left().right().rank_of()) == 3,
        ensures
            self.after_insert(true).obeys_rank_rule(),
            self.after_insert(true).no_double_gap(),
            self.after_insert(true) is Fork,
            self.after_insert(true).rank_of() == self.rank_of(),
    {
        self.right().lemma_rank_floor();
        self.left().lemma_rank_floor();
        match self {
            Shape::Nil => {},
            Shape::Fork { left: moved, key: h, rank: r, right: other } => {
                match *moved {
                    Shape::Nil => {},
                    Shape::Fork { left: a, key: mk, rank: mr, right: b } => {
                        a.lemma_rank_floor();
                        b.lemma_rank_floor();
                        if mr - a.rank_of() == 1 {
                            let down = fork(*b, h, r - 1, *other);
                            assert(down.obeys_rank_rule());
                            assert(down.no_double_gap());
                            assert(self.after_insert(true) == fork(*a, mk, mr as int, fork(*b, h, r - 1, *other)));
                        } else {
                            assert(b.obeys_rank_rule());
                            assert(b.no_double_gap());
                            match *b {
                                Shape::Nil => {},
                                Shape::Fork { left: c, key: bk, rank: br, right: d } => {
                                    assert(c.obeys_rank_rule() && d.obeys_rank_rule());
                                    assert(c.no_double_gap() && d.no_double_gap());
                                    c.lemma_rank_floor();
                                    d.lemma_rank_floor();
                                    let near = fork(*a, mk, mr - 1, *c);
                                    let far = fork(*d, h, r - 1, *other);
                                    assert(near.obeys_rank_rule());
                                    assert(near.no_double_gap());
                                    assert(far.obeys_rank_rule());
                                    assert(far.no_double_gap());
                                    assert(self.after_insert(true) == fork(fork(*a, mk, mr - 1, *c), bk, br + 1, fork(*d, h, r - 1, *other)));
                                },
                            }
                        }
                    },
                }
            },
        }
    }

    /// The rotations of `after_insert` on the right side keep the rank rule,
    /// make no node with gap 2 on both sides, and leave the rank at the root
    /// as it was.
    pub proof fn lemma_after_insert_rotated_right(self)
        requires
            self is Fork,
            self.right().obeys_rank_rule(),
            self.right().no_double_gap(),
            self.left().obeys_rank_rule(),
            self.left().no_double_gap(),
            self.rank_of() - self.right().rank_of() == 0,
            self.rank_of() - self.left().rank_of() == 2,
            (self.right().rank_of() - self.right().left().rank_of()) + (self.right().rank_of()
                - self.right().right().rank_of()) == 3,
        ensures
            self.after_insert(false).obeys_rank_rule(),
            self.after_insert(false).no_double_gap(),
            self.after_insert(false) is Fork,
            self.after_insert(false).rank_of() == self.rank_of(),
    {
        self.left().lemma_rank_floor();
        self.right().lemma_rank_floor();
        match self {
            Shape::Nil => {},
            Shape::Fork { right: moved, key: h, rank: r, left: other } => {
                match *moved {
                    Shape::Nil => {},
                    Shape::Fork { right: a, key: mk, rank: mr, left: b } => {
                        a.lemma_rank_floor();
                        b.lemma_rank_floor();
                        if mr - a.rank_of() == 1 {
                            let down = fork(*other, h, r - 1, *b);
                            assert(down.obeys_rank_rule());
                            assert(down.no_double_gap());
                            assert(self.after_insert(false) == fork(fork(*other, h, r - 1, *b), mk, mr as int, *a));
                        } else {
                            assert(b.obeys_rank_rule());
                            assert(b.no_double_gap());
                            match *b {
                                Shape::Nil => {},
                                Shape::Fork { right: c, key: bk, rank: br, left: d } => {
                                    assert(c.obeys_rank_rule() && d.obeys_rank_rule());
                                    assert(c.no_double_gap() && d.no_double_gap());
                                    c.lemma_rank_floor();
                                    d.lemma_rank_floor();
                                    let near = fork(*c, mk, mr - 1, *a);
                                    let far = fork(*other, h, r - 1, *d);
                                    assert(near.obeys_rank_rule());
                                    assert(near.no_double_gap());
                                    assert(far.obeys_rank_rule());
                                    assert(far.no_double_gap());
                                    assert(self.after_insert(false) == fork(fork(*other, h, r - 1, *d), bk, br + 1, fork(*c, mk, mr - 1, *a)));
                                },
                            }
                        }
                    },
                }
            },
        }
    }

    /// An insertion into a tree that obeys the rank rule and has no node
    /// with gap 2 on both sides leaves such a tree. Its root keeps its rank
    /// or rises by one rank, and where it rises, one of its gaps is 1 and
    /// the other is 2, or the tree was empty.
    pub proof fn lemma_inserted_step(self, key: i32)
        requires
            self.obeys_rank_rule(),
            self.no_double_gap(),
            self.rank_of() < i32::MAX,
        ensures
            self.inserted(key).obeys_rank_rule(),
            self.inserted(key).no_double_gap(),
            self.inserted(key) is Fork,
            self.inserted(key).rank_of() == self.rank_of() || self.inserted(key).rank_of()
                == self.rank_of() + 1,
            self.inserted(key).rank_of() == self.rank_of() + 1 ==> self is Nil || (self.inserted(
                key,
            ).rank_of() - self.inserted(key).left().rank_of()) + (self.inserted(key).rank_of()
                - self.inserted(key).right().rank_of()) == 3,
        decreases self,
    {
        match self {
            Shape::Nil => {
                assert(self.grown(key) == fork(Shape::Nil, key, 1, Shape::Nil));
                assert(self.inserted(key) == fork(Shape::Nil, key, 1, Shape::Nil));
            },
            Shape::Fork { left, key: here, rank, right } => {
                left.lemma_rank_floor();
                right.lemma_rank_floor();
                if key == here {
                    assert(self.grown(key) == self);
                    assert(self.inserted(key) == self);
                } else if key < here {
                    left.lemma_inserted_step(key);
                    let moved = left.inserted(key);
                    let p = fork(moved, here, rank as int, *right);
                    assert(self.grown(key) == fork(left.grown(key), here, rank as int, *right));
                    assert(self.inserted(key) == p.after_insert(true));
                    assert(p.left() == moved);
                    assert(p.right() == *right);
                    moved.lemma_rank_floor();
                    if p.rank_of() - moved.rank_of() != 0 {
                        assert(p.after_insert(true) == p);
                    } else if p.rank_of() - right.rank_of() == 1 {
                        assert(p.after_insert(true) == p.promoted());
                    } else {
                        p.lemma_after_insert_rotated_left();
                    }
                } else {
                    right.lemma_inserted_step(key);
                    let moved = right.inserted(key);
                    let p = fork(*left, here, rank as int, moved);
                    assert(self.grown(key) == fork(*left, here, rank as int, right.grown(key)));
                    assert(self.inserted(key) == p.after_insert(false));
                    assert(p.right() == moved);
                    assert(p.left() == *left);
                    moved.lemma_rank_floor();
                    if p.rank_of() - moved.rank_of() != 0 {
                        assert(p.after_insert(false) == p);
                    } else if p.rank_of() - left.rank_of() == 1 {
                        assert(p.after_insert(false) == p.promoted());
                    } else {
                        p.lemma_after_insert_rotated_right();
                    }
                }
            },
        }
    }
    /// The step of `after_delete` at the parent of a slot on the right side
    /// whose gap has grown: unless it ends in a rotation that leaves the
    /// lifted node with gap 2 on both sides, the tree below is in order
    /// after it. The root keeps its rank or sinks by one rank; it sinks
    /// where the walk goes on, and otherwise only where there is room.
    pub proof fn lemma_after_delete_step_right(self, room: bool)
        requires
            self is Fork,
            self.left().strict(),
            self.right().strict(),
            self.gap_grown(false),
        ensures
            !self.delete_strands_at(false, room) ==> self.after_delete(false, room).strict(),
            self.after_delete(false, room) is Fork,
            self.after_delete(false, room).rank_of() == self.rank_of() || self.after_delete(
                false,
                room,
            ).rank_of() == self.rank_of() - 1,
            self.delete_goes_on(false) ==> self.after_delete(false, room).rank_of() == self.rank_of()
                - 1,
            !self.delete_goes_on(false) && self.after_delete(false, room).rank_of()
                == self.rank_of() - 1 ==> room,
    {
        self.left().lemma_rank_floor();
        self.right().lemma_rank_floor();
        match self {
            Shape::Nil => {},
            Shape::Fork { left: sib, key: h, rank: r, right: node } => {
                let gap = r - node.rank_of();
                let other = r - sib.rank_of();
                if gap == 2 && other == 1 {
                    assert(self.after_delete(false, room) == self);
                } else if gap == 2 {
                    assert(self.after_delete(false, room) == self.demoted());
                    assert(self.demoted().obeys_rank_rule());
                    assert(self.demoted().no_double_gap());
                } else {
                    match *sib {
                        Shape::Nil => {},
                        Shape::Fork { left: outer, key: sk, rank: sr, right: inner } => {
                            outer.lemma_rank_floor();
                            inner.lemma_rank_floor();
                            assert(outer.strict() && inner.strict());
                            if sr - outer.rank_of() == 1 {
                                if sr - inner.rank_of() == 1 {
                                    let down = fork(*inner, h, r - 1, *node);
                                    assert(down.obeys_rank_rule());
                                    assert(down.no_double_gap());
                                    assert(self.after_delete(false, room) == fork(*outer, sk, r as int, fork(*inner, h, r - 1, *node)));
                                } else {
                                    let down = fork(*inner, h, r - 2, *node);
                                    assert(down.obeys_rank_rule());
                                    assert(down.no_double_gap());
                                    if room {
                                        assert(self.after_delete(false, room) == fork(*outer, sk, r - 1, fork(*inner, h, r - 2, *node)));
                                    } else {
                                        assert(self.after_delete(false, room) == fork(*outer, sk, r as int, fork(*inner, h, r - 2, *node)));
                                    }
                                }
                            } else {
                                match *inner {
                                    Shape::Nil => {},
                                    Shape::Fork { left: c, key: bk, rank: br, right: d } => {
                                        assert(c.strict() && d.strict());
                                        c.lemma_rank_floor();
                                        d.lemma_rank_floor();
                                        let near = fork(*outer, sk, r - 2, *c);
                                        let far = fork(*d, h, r - 2, *node);
                                        assert(near.obeys_rank_rule());
                                        assert(near.no_double_gap());
                                        assert(far.obeys_rank_rule());
                                        assert(far.no_double_gap());
                                        if room {
                                            assert(self.after_delete(false, room) == fork(fork(*outer, sk, r - 2, *c), bk, r - 1, fork(*d, h, r - 2, *node)));
                                        } else {
                                            assert(self.after_delete(false, room) == fork(fork(*outer, sk, r - 2, *c), bk, r as int, fork(*d, h, r - 2, *node)));
                                        }
                                    },
                                }
                            }
                        },
                    }
                }
            },
        }
    }

    /// The step of `after_delete` at the parent of a slot on the left side
    /// whose gap has grown: unless it ends in a rotation that leaves the
    /// lifted node with gap 2 on both sides, the tree below is in order
    /// after it. The root keeps its rank or sinks by one rank; it sinks
    /// where the walk goes on, and otherwise only where there is room.
    pub proof fn lemma_after_delete_step_left(self, room: bool)
        requires
            self is Fork,
            self.left().strict(),
            self.right().strict(),
            self.gap_grown(true),
        ensures
            !self.delete_strands_at(true, room) ==> self.after_delete(true, room).strict(),
            self.after_delete(true, room) is Fork,
            self.after_delete(true, room).rank_of() == self.rank_of() || self.after_delete(
                true,
                room,
            ).rank_of() == self.rank_of() - 1,
            self.delete_goes_on(true) ==> self.after_delete(true, room).rank_of() == self.rank_of()
                - 1,
            !self.delete_goes_on(true) && self.after_delete(true, room).rank_of()
                == self.rank_of() - 1 ==> room,
    {
        self.left().lemma_rank_floor();
        self.right().lemma_rank_floor();
        match self {
            Shape::Nil => {},
            Shape::Fork { right: sib, key: h, rank: r, left: node } => {
                let gap = r - node.rank_of();
                let other = r - sib.rank_of();
                if gap == 2 && other == 1 {
                    assert(self.after_delete(true, room) == self);
                } else if gap == 2 {
                    assert(self.after_delete(true, room) == self.demoted());
                    assert(self.demoted().obeys_rank_rule());
                    assert(self.demoted().no_double_gap());
                } else {
                    match *sib {
                        Shape::Nil => {},
                        Shape::Fork { right: outer, key: sk, rank: sr, left: inner } => {
                            outer.lemma_rank_floor();
                            inner.lemma_rank_floor();
                            assert(outer.strict() && inner.strict());
                            if sr - outer.rank_of() == 1 {
                                if sr - inner.rank_of() == 1 {
                                    let down = fork(*node, h, r - 1, *inner);
                                    assert(down.obeys_rank_rule());
                                    assert(down.no_double_gap());
                                    assert(self.after_delete(true, room) == fork(fork(*node, h, r - 1, *inner), sk, r as int, *outer));
                                } else {
                                    let down = fork(*node, h, r - 2, *inner);
                                    assert(down.obeys_rank_rule());
                                    assert(down.no_double_gap());
                                    if room {
                                        assert(self.after_delete(true, room) == fork(fork(*node, h, r - 2, *inner), sk, r - 1, *outer));
                                    } else {
                                        assert(self.after_delete(true, room) == fork(fork(*node, h, r - 2, *inner), sk, r as int, *outer));
                                    }
                                }
                            } else {
                                match *inner {
                                    Shape::Nil => {},
                                    Shape::Fork { right: c, key: bk, rank: br, left: d } => {
                                        assert(c.strict() && d.strict());
                                        c.lemma_rank_floor();
                                        d.lemma_rank_floor();
                                        let near = fork(*c, sk, r - 2, *outer);
                                        let far = fork(*node, h, r - 2, *d);
                                        assert(near.obeys_rank_rule());
                                        assert(near.no_double_gap());
                                        assert(far.obeys_rank_rule());
                                        assert(far.no_double_gap());
                                        if room {
                                            assert(self.after_delete(true, room) == fork(fork(*node, h, r - 2, *d), bk, r - 1, fork(*c, sk, r - 2, *outer)));
                                        } else {
                                            assert(self.after_delete(true, room) == fork(fork(*node, h, r - 2, *d), bk, r as int, fork(*c, sk, r - 2, *outer)));
                                        }
                                    },
                                }
                            }
                        },
                    }
                }
            },
        }
    }

    /// The ranks of a tree that a removal has left pending are not negative
    /// at the root.
    pub proof fn lemma_rank_floor_pending(self, gone: i32, levels: nat)
        requires
            self.pending(gone, levels),
        ensures
            self.rank_of() >= 0,
            self is Fork ==> self.rank_of() >= 1,
        decreases self,
    {
        if levels == 0 {
            self.lemma_rank_floor();
        } else {
            match self {
                Shape::Nil => {},
                Shape::Fork { left, key: here, right, .. } => {
                    if gone < here {
                        assert(self.child(true) == *left && self.child(false) == *right);
                        left.lemma_rank_floor_pending(gone, (levels - 1) as nat);
                        right.lemma_rank_floor();
                    } else {
                        assert(self.child(false) == *right && self.child(true) == *left);
                        right.lemma_rank_floor_pending(gone, (levels - 1) as nat);
                        left.lemma_rank_floor();
                    }
                },
            }
        }
    }

    /// The walk after a removal restores the rank rule with no gap 2 on
    /// both sides, unless it ends in a rotation that leaves the lifted node
    /// with such gaps. Where it does restore it, the root keeps its rank or
    /// sinks by one rank; it sinks where the walk goes on above it, and
    /// otherwise only where there is room.
    #[verifier::rlimit(60)]
    pub proof fn lemma_resettled_strict(self, gone: i32, levels: nat, room: bool)
        requires
            self.pending(gone, levels),
            levels >= 1,
        ensures
            !self.resettled_strands(gone, levels, room) ==> {
                &&& self.resettled(gone, levels, room).strict()
                &&& self.resettled(gone, levels, room) is Fork
                &&& (self.resettled(gone, levels, room).rank_of() == self.rank_of()
                    || self.resettled(gone, levels, room).rank_of() == self.rank_of() - 1)
                &&& (self.walk_reaches(gone, levels) ==> self.resettled(
                    gone,
                    levels,
                    room,
                ).rank_of() == self.rank_of() - 1)
                &&& (!self.walk_reaches(gone, levels) && self.resettled(
                    gone,
                    levels,
                    room,
                ).rank_of() == self.rank_of() - 1 ==> room)
            },
        decreases self,
    {
        match self {
            Shape::Nil => {},
            Shape::Fork { left, key: here, rank, right } => {
                if gone < here {
                    let below = (levels - 1) as nat;
                    let moved = left.resettled(gone, below, self.gives_room());
                    let stepped = fork(moved, here, rank as int, *right);
                    assert(self.child(true) == *left && self.child(!true) == *right);
                    assert(left.pending(gone, below));
                    assert(right.strict());
                    left.lemma_rank_floor_pending(gone, below);
                    right.lemma_rank_floor();
                    assert(stepped.left() == moved && stepped.right() == *right);
                    assert(stepped.rank_of() == self.rank_of());
                    if below == 0 {
                        assert(moved == *left);
                        assert(stepped == self);
                        assert(left.strict());
                        stepped.lemma_after_delete_step_left(room);
                    } else {
                        left.lemma_resettled_strict(gone, below, self.gives_room());
                        if !left.resettled_strands(gone, below, self.gives_room()) {
                            if left.walk_reaches(gone, below) {
                                assert(stepped.gap_grown(true));
                                stepped.lemma_after_delete_step_left(room);
                            } else {
                                assert(stepped.obeys_rank_rule());
                                assert(stepped.no_double_gap());
                            }
                        }
                    }
                } else {
                    let below = (levels - 1) as nat;
                    let moved = right.resettled(gone, below, self.gives_room());
                    let stepped = fork(*left, here, rank as int, moved);
                    assert(self.child(false) == *right && self.child(!false) == *left);
                    assert(right.pending(gone, below));
                    assert(left.strict());
                    right.lemma_rank_floor_pending(gone, below);
                    left.lemma_rank_floor();
                    assert(stepped.right() == moved && stepped.left() == *left);
                    assert(stepped.rank_of() == self.rank_of());
                    if below == 0 {
                        assert(moved == *right);
                        assert(stepped == self);
                        assert(right.strict());
                        stepped.lemma_after_delete_step_right(room);
                    } else {
                        right.lemma_resettled_strict(gone, below, self.gives_room());
                        if !right.resettled_strands(gone, below, self.gives_room()) {
                            if right.walk_reaches(gone, below) {
                                assert(stepped.gap_grown(false));
                                stepped.lemma_after_delete_step_right(room);
                            } else {
                                assert(stepped.obeys_rank_rule());
                                assert(stepped.no_double_gap());
                            }
                        }
                    }
                }
            },
        }
    }
}

} // verus!
