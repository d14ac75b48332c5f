//! What holds of every history of insertions and removals.

use vstd::prelude::*;
use crate::model::ascending;
use crate::shape::Shape;
use crate::tree::Tree;

verus! {

/// One change to a tree.
pub enum Op {
    Insert(i32),
    Remove(i32),
}

/// What one change does to the set of stored keys.
pub open spec fn effect(keys: Set<i32>, op: Op) -> Set<i32> {
    match op {
        Op::Insert(key) => keys.insert(key),
        Op::Remove(key) => keys.remove(key),
    }
}

/// What a sequence of changes does to the set of stored keys.
pub open spec fn effects(keys: Set<i32>, ops: Seq<Op>) -> Set<i32>
    decreases ops.len(),
{
    if ops.len() == 0 {
        keys
    } else {
        effect(effects(keys, ops.drop_last()), ops.last())
    }
}

/// What one change does to the shape of a tree: a key that is not there is
/// inserted, a key that is there is removed, and any other change leaves the
/// tree as it is.
pub open spec fn reshaped(shape: Shape, op: Op, held: bool) -> Shape {
    match op {
        Op::Insert(key) => if held {
            shape
        } else {
            shape.inserted(key)
        },
        Op::Remove(key) => if held {
            shape.removed(key)
        } else {
            shape
        },
    }
}

/// The key that a change names.
pub open spec fn key_of(op: Op) -> i32 {
    match op {
        Op::Insert(key) => key,
        Op::Remove(key) => key,
    }
}

/// `after` is the tree that `op` leaves of `before`: what `insert` and
/// `remove` promise of the tree they are called on.
pub open spec fn step(before: Tree, op: Op, after: Tree) -> bool {
    &&& before.wf()
    &&& after.wf()
    &&& after.keys() == effect(before.keys(), op)
    &&& after.shape() == reshaped(before.shape(), op, before.contains(key_of(op)))
    &&& before.shape().no_double_gap() && !strands(before, op) ==> after.shape().no_double_gap()
}

/// The change is a removal whose walk ends in a rotation that leaves the
/// lifted node with gap 2 on both sides: the one kind of change after which
/// a node may have such gaps.
pub open spec fn strands(before: Tree, op: Op) -> bool {
    match op {
        Op::Insert(_) => false,
        Op::Remove(key) => before.contains(key) && before.shape().remove_strands(key),
    }
}

/// `trees` are the states that a tree goes through while `ops` are applied
/// to it one after the other.
pub open spec fn history(trees: Seq<Tree>, ops: Seq<Op>) -> bool {
    &&& trees.len() == ops.len() + 1
    &&& trees[0].wf()
    &&& forall|i: int| 0 <= i < ops.len() ==> #[trigger] step(trees[i], ops[i], trees[i + 1])
}

/// The insertions of `keys`, one after the other.
pub open spec fn inserts(keys: Seq<i32>) -> Seq<Op> {
    Seq::new(keys.len(), |i: int| Op::Insert(keys[i]))
}

/// The removals of `keys`, one after the other.
pub open spec fn removes(keys: Seq<i32>) -> Seq<Op> {
    Seq::new(keys.len(), |i: int| Op::Remove(keys[i]))
}

/// The last change in `ops` that names `key` is an insertion.
pub open spec fn last_is_insert(ops: Seq<Op>, key: i32) -> bool {
    exists|i: int|
        0 <= i < ops.len() && #[trigger] ops[i] == Op::Insert(key) && forall|j: int|
            i < j < ops.len() ==> #[trigger] ops[j] != Op::Remove(key)
}

/// Changes applied one after the other add up.
pub proof fn lemma_effects_concat(keys: Set<i32>, first: Seq<Op>, second: Seq<Op>)
    ensures
        effects(keys, first + second) == effects(effects(keys, first), second),
    decreases second.len(),
{
    if second.len() == 0 {
        assert(first + second =~= first);
    } else {
        assert((first + second).drop_last() =~= first + second.drop_last());
        lemma_effects_concat(keys, first, second.drop_last());
    }
}

/// Insertions add the keys they name.
pub proof fn lemma_effects_inserts(keys: Set<i32>, added: Seq<i32>)
    ensures
        effects(keys, inserts(added)) == keys.union(added.to_set()),
    decreases added.len(),
{
    if added.len() == 0 {
        assert(keys.union(added.to_set()) =~= keys);
    } else {
        assert(inserts(added).drop_last() =~= inserts(added.drop_last()));
        lemma_effects_inserts(keys, added.drop_last());
        assert(keys.union(added.drop_last().to_set()).insert(added.last()) =~= keys.union(
            added.to_set(),
        )) by {
            assert forall|k: i32| added.to_set().contains(k) <==> (added.drop_last().to_set().contains(
                k,
            ) || k == added.last()) by {
                if added.contains(k) {
                    let i = choose|i: int| 0 <= i < added.len() && added[i] == k;
                    if i < added.len() - 1 {
                        assert(added.drop_last()[i] == k);
                    }
                }
                if added.drop_last().contains(k) {
                    let i = choose|i: int| 0 <= i < added.drop_last().len() && added.drop_last()[i] == k;
                    assert(added[i] == k);
                }
                if k == added.last() {
                    assert(added[added.len() - 1] == k);
                }
            }
        }
    }
}

/// Removals take out the keys they name.
pub proof fn lemma_effects_removes(keys: Set<i32>, taken: Seq<i32>)
    ensures
        effects(keys, removes(taken)) == keys.difference(taken.to_set()),
    decreases taken.len(),
{
    if taken.len() == 0 {
        assert(keys.difference(taken.to_set()) =~= keys);
    } else {
        assert(removes(taken).drop_last() =~= removes(taken.drop_last()));
        lemma_effects_removes(keys, taken.drop_last());
        assert(keys.difference(taken.drop_last().to_set()).remove(taken.last()) =~= keys.difference(
            taken.to_set(),
        )) by {
            assert forall|k: i32| taken.to_set().contains(k) <==> (taken.drop_last().to_set().contains(
                k,
            ) || k == taken.last()) by {
                if taken.contains(k) {
                    let i = choose|i: int| 0 <= i < taken.len() && taken[i] == k;
                    if i < taken.len() - 1 {
                        assert(taken.drop_last()[i] == k);
                    }
                }
                if taken.drop_last().contains(k) {
                    let i = choose|i: int| 0 <= i < taken.drop_last().len() && taken.drop_last()[i] == k;
                    assert(taken[i] == k);
                }
                if k == taken.last() {
                    assert(taken[taken.len() - 1] == k);
                }
            }
        }
    }
}

/// After a sequence of changes a key is in the set exactly if it was there
/// before and no change names it, or the last change that names it is an
/// insertion.
pub proof fn lemma_effects_member(keys: Set<i32>, ops: Seq<Op>, key: i32)
    ensures
        effects(keys, ops).contains(key) <==> last_is_insert(ops, key) || (keys.contains(key)
            && forall|j: int| 0 <= j < ops.len() ==> #[trigger] ops[j] != Op::Remove(key)
            && ops[j] != Op::Insert(key)),
    decreases ops.len(),
{
    if ops.len() > 0 {
        let init = ops.drop_last();
        let n = ops.len() - 1;
        lemma_effects_member(keys, init, key);
        assert forall|j: int| 0 <= j < init.len() implies init[j] == ops[j] by {}
        if last_is_insert(init, key) {
            let i = choose|i: int|
                0 <= i < init.len() && #[trigger] init[i] == Op::Insert(key) && forall|j: int|
                    i < j < init.len() ==> #[trigger] init[j] != Op::Remove(key);
            assert(ops[i] == Op::Insert(key));
            if ops[n] != Op::Remove(key) {
                assert forall|j: int| i < j < ops.len() implies #[trigger] ops[j] != Op::Remove(
                    key,
                ) by {
                    if j < n {
                        assert(init[j] != Op::Remove(key));
                    }
                }
                assert(last_is_insert(ops, key));
            }
        }
        if last_is_insert(ops, key) {
            let i = choose|i: int|
                0 <= i < ops.len() && #[trigger] ops[i] == Op::Insert(key) && forall|j: int|
                    i < j < ops.len() ==> #[trigger] ops[j] != Op::Remove(key);
            if i < n {
                assert(init[i] == Op::Insert(key));
                assert forall|j: int| i < j < init.len() implies #[trigger] init[j] != Op::Remove(
                    key,
                ) by {
                    assert(ops[j] != Op::Remove(key));
                }
                assert(last_is_insert(init, key));
                assert(ops[n] != Op::Remove(key));
            }
        }
        if ops[n] == Op::Insert(key) {
            assert(last_is_insert(ops, key));
        }
        if ops[n] == Op::Remove(key) {
            assert(!last_is_insert(ops, key)) by {
                if last_is_insert(ops, key) {
                    let i = choose|i: int|
                        0 <= i < ops.len() && #[trigger] ops[i] == Op::Insert(key) && forall|j: int|
                            i < j < ops.len() ==> #[trigger] ops[j] != Op::Remove(key);
                    assert(ops[n] != Op::Remove(key));
                }
            }
        }
        let untouched_init = forall|j: int|
            0 <= j < init.len() ==> #[trigger] init[j] != Op::Remove(key) && init[j] != Op::Insert(
                key,
            );
        let untouched = forall|j: int|
            0 <= j < ops.len() ==> #[trigger] ops[j] != Op::Remove(key) && ops[j] != Op::Insert(key);
        if untouched {
            assert forall|j: int| 0 <= j < init.len() implies #[trigger] init[j] != Op::Remove(key)
                && init[j] != Op::Insert(key) by {
                assert(ops[j] != Op::Remove(key) && ops[j] != Op::Insert(key));
            }
            assert(ops[n] != Op::Remove(key) && ops[n] != Op::Insert(key));
        }
        if untouched_init && ops[n] != Op::Remove(key) && ops[n] != Op::Insert(key) {
            assert forall|j: int| 0 <= j < ops.len() implies #[trigger] ops[j] != Op::Remove(key)
                && ops[j] != Op::Insert(key) by {
                if j < n {
                    assert(init[j] != Op::Remove(key) && init[j] != Op::Insert(key));
                }
            }
        }
    }
}

/// Invariant preservation: in every state that a tree goes through, the
/// keys of the in-order walk ascend strictly and every node obeys the rank
/// rule.
pub proof fn lemma_history_invariants(trees: Seq<Tree>, ops: Seq<Op>)
    requires
        history(trees, ops),
    ensures
        forall|i: int|
            0 <= i < trees.len() ==> {
                &&& (#[trigger] trees[i]).wf()
                &&& trees[i].shape().entries() == trees[i]@
                &&& ascending(trees[i]@)
                &&& trees[i].shape().is_search_tree()
                &&& trees[i].shape().obeys_rank_rule()
            },
{
    lemma_history(trees, ops);
    assert forall|i: int| 0 <= i < trees.len() implies {
        &&& (#[trigger] trees[i]).wf()
        &&& trees[i].shape().entries() == trees[i]@
        &&& ascending(trees[i]@)
        &&& trees[i].shape().is_search_tree()
        &&& trees[i].shape().obeys_rank_rule()
    } by {
        trees[i].lemma_invariants();
    }
}

/// Invariant preservation in full: in a history that starts without a node
/// with gap 2 on both sides and in which no removal ends in a rotation that
/// leaves one, no state of the tree has such a node. Insertions never leave
/// one.
pub proof fn lemma_history_strict(trees: Seq<Tree>, ops: Seq<Op>)
    requires
        history(trees, ops),
        trees[0].shape().no_double_gap(),
        forall|i: int| 0 <= i < ops.len() ==> !#[trigger] strands(trees[i], ops[i]),
    ensures
        forall|i: int|
            0 <= i < trees.len() ==> {
                &&& (#[trigger] trees[i]).shape().obeys_rank_rule()
                &&& trees[i].shape().no_double_gap()
            },
    decreases ops.len(),
{
    if ops.len() > 0 {
        let n = ops.len() - 1;
        let before = trees.drop_last();
        assert forall|i: int| 0 <= i < n implies #[trigger] step(
            before[i],
            ops.drop_last()[i],
            before[i + 1],
        ) by {
            assert(step(trees[i], ops[i], trees[i + 1]));
        }
        assert forall|i: int| 0 <= i < n implies !#[trigger] strands(
            before[i],
            ops.drop_last()[i],
        ) by {
            assert(!strands(trees[i], ops[i]));
        }
        lemma_history_strict(before, ops.drop_last());
        assert(step(trees[n], ops[n], trees[n + 1]));
        assert(!strands(trees[n], ops[n]));
        assert(before[n] == trees[n]);
        trees[n + 1].lemma_invariants();
        assert forall|i: int| 0 <= i < trees.len() implies {
            &&& (#[trigger] trees[i]).shape().obeys_rank_rule()
            &&& trees[i].shape().no_double_gap()
        } by {
            if i < trees.len() - 1 {
                assert(before[i].shape().no_double_gap());
            }
        }
    } else {
        trees[0].lemma_invariants();
    }
}

/// Every state that a tree goes through is well formed, and the keys of the
/// last state are what the changes make of the keys of the first.
pub proof fn lemma_history(trees: Seq<Tree>, ops: Seq<Op>)
    requires
        history(trees, ops),
    ensures
        forall|i: int| 0 <= i < trees.len() ==> (#[trigger] trees[i]).wf(),
        trees.last().keys() == effects(trees[0].keys(), ops),
    decreases ops.len(),
{
    if ops.len() > 0 {
        let n = ops.len() - 1;
        let before = trees.drop_last();
        assert forall|i: int| 0 <= i < n implies #[trigger] step(
            before[i],
            ops.drop_last()[i],
            before[i + 1],
        ) by {
            assert(step(trees[i], ops[i], trees[i + 1]));
        }
        lemma_history(before, ops.drop_last());
        assert(step(trees[n], ops[n], trees[n + 1]));
        assert(before.last() == trees[n]);
        assert forall|i: int| 0 <= i < trees.len() implies (#[trigger] trees[i]).wf() by {
            if i < trees.len() - 1 {
                assert(before[i].wf());
            }
        }
    }
}

/// Round trip: a tree that was empty, had keys inserted and then had each
/// of them removed, in whatever order, is empty again.
pub proof fn lemma_round_trip(trees: Seq<Tree>, keys: Seq<i32>, order: Seq<i32>)
    requires
        history(trees, inserts(keys) + removes(order)),
        trees[0]@.len() == 0,
        forall|i: int| 0 <= i < keys.len() ==> order.contains(#[trigger] keys[i]),
    ensures
        trees.last()@.len() == 0,
        trees.last().shape() is Nil,
{
    let first = trees[0];
    let last = trees.last();
    lemma_history(trees, inserts(keys) + removes(order));
    first.lemma_ascending();
    assert(first.keys() =~= Set::<i32>::empty());
    lemma_effects_concat(first.keys(), inserts(keys), removes(order));
    lemma_effects_inserts(first.keys(), keys);
    lemma_effects_removes(effects(first.keys(), inserts(keys)), order);
    assert(last.keys() =~= Set::<i32>::empty()) by {
        assert forall|k: i32| !last.keys().contains(k) by {
            if keys.to_set().contains(k) {
                let i = choose|i: int| 0 <= i < keys.len() && keys[i] == k;
                assert(order.contains(keys[i]));
            }
        }
    }
    last.lemma_ascending();
    last.lemma_invariants();
}

/// Duplicate rejection: once a key was inserted, the tree holds it, so
/// that a second insertion of it is refused and leaves the keys and their
/// number as they are.
pub proof fn lemma_duplicate_insert(first: Tree, second: Tree, third: Tree, key: i32)
    requires
        step(first, Op::Insert(key), second),
        step(second, Op::Insert(key), third),
    ensures
        second.contains(key),
        third.keys() == second.keys(),
        third@.len() == second@.len(),
{
    assert(second.keys().contains(key));
    assert(third.keys() =~= second.keys());
    second.lemma_ascending();
    third.lemma_ascending();
}

/// Search correctness: after any changes to a tree that was empty, a key is
/// found exactly if the last change that names it is an insertion.
pub proof fn lemma_search(trees: Seq<Tree>, ops: Seq<Op>, key: i32)
    requires
        history(trees, ops),
        trees[0]@.len() == 0,
    ensures
        trees.last().contains(key) <==> last_is_insert(ops, key),
{
    lemma_history(trees, ops);
    trees[0].lemma_ascending();
    assert(trees[0].keys() =~= Set::<i32>::empty());
    lemma_effects_member(trees[0].keys(), ops, key);
    assert(trees.last().keys().contains(key) == trees.last().contains(key));
}

} // verus!
