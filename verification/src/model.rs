//! The vocabulary of the contracts: what a sequence of `(key, rank)` pairs
//! holds.

use vstd::prelude::*;

verus! {

/// `key` is the key of one of the entries.
pub open spec fn holds(entries: Seq<(i32, i32)>, key: i32) -> bool {
    exists|p: int| 0 <= p < entries.len() && (#[trigger] entries[p]).0 == key
}

/// The set of the keys of the entries.
pub open spec fn key_set(entries: Seq<(i32, i32)>) -> Set<i32> {
    Set::new(|key: i32| holds(entries, key))
}

/// The keys of the entries, in their order.
pub open spec fn key_seq(entries: Seq<(i32, i32)>) -> Seq<i32> {
    Seq::new(entries.len(), |p: int| entries[p].0)
}

/// The keys of the entries ascend strictly.
pub open spec fn ascending(entries: Seq<(i32, i32)>) -> bool {
    forall|i: int, j: int| 0 <= i < j < entries.len() ==> entries[i].0 < entries[j].0
}

/// `next` is the least key of the entries above `key`.
pub open spec fn least_above(entries: Seq<(i32, i32)>, key: i32, next: i32) -> bool {
    &&& holds(entries, next)
    &&& key < next
    &&& forall|k: i32| holds(entries, k) && key < k ==> next <= k
}

/// `prev` is the greatest key of the entries below `key`.
pub open spec fn greatest_below(entries: Seq<(i32, i32)>, key: i32, prev: i32) -> bool {
    &&& holds(entries, prev)
    &&& prev < key
    &&& forall|k: i32| holds(entries, k) && k < key ==> k <= prev
}

/// The value of a counter that stood at `before` and has counted `by` more:
/// it stops at `usize::MAX`.
pub open spec fn counted(before: nat, by: nat) -> nat {
    if before + by > usize::MAX {
        usize::MAX as nat
    } else {
        before + by
    }
}

/// Entries with ascending keys hold no key twice: there are as many keys as
/// entries.
pub proof fn lemma_ascending_keys(entries: Seq<(i32, i32)>)
    requires
        ascending(entries),
    ensures
        key_set(entries).finite(),
        key_set(entries).len() == entries.len(),
{
    let ks = Seq::new(entries.len(), |p: int| entries[p].0);
    assert(ks.to_set() =~= key_set(entries)) by {
        assert forall|key: i32| ks.to_set().contains(key) == key_set(entries).contains(key) by {
            if ks.contains(key) {
                let p = choose|p: int| 0 <= p < ks.len() && ks[p] == key;
                assert(entries[p].0 == key);
            }
            if holds(entries, key) {
                let p = choose|p: int| 0 <= p < entries.len() && (#[trigger] entries[p]).0 == key;
                assert(ks[p] == key);
            }
        }
    }
    assert(ks.no_duplicates()) by {
        assert forall|i: int, j: int|
            0 <= i < ks.len() && 0 <= j < ks.len() && i != j implies ks[i] != ks[j] by {
            if i < j {
                assert(entries[i].0 < entries[j].0);
            } else {
                assert(entries[j].0 < entries[i].0);
            }
        }
    }
    ks.unique_seq_to_set();
    vstd::seq_lib::seq_to_set_is_finite(ks);
}

} // verus!
