//! What holds of every keyed diff.

use super::model::{
    all_free, appended, count_empty, drain, dropped, free_positions, identity_slots, is_new,
    item_key, items_valid, key_map, last_free, lemma_appended_valid, lemma_free_positions,
    lemma_key_map, matched, max_len, pad, reconcile, simulated, slot, spec_diff_children, start,
    step, ChildDiff, Key, Walk,
};
use vstd::prelude::*;

verus! {

/// A list is all free exactly when none of its positions has a key.
pub proof fn lemma_all_free(keys: Seq<Key>)
    ensures
        free_positions(keys).len() <= keys.len(),
        all_free(keys) <==> forall|i: int| 0 <= i < keys.len() ==> (#[trigger] keys[i]) is None,
    decreases keys.len(),
{
    if keys.len() != 0 {
        let rest = keys.drop_last();
        lemma_all_free(rest);
        if all_free(keys) {
            assert(all_free(rest));
            assert forall|i: int| 0 <= i < keys.len() implies (#[trigger] keys[i]) is None by {
                if i < rest.len() {
                    assert(rest[i] is None);
                }
            }
        }
        if forall|i: int| 0 <= i < keys.len() ==> (#[trigger] keys[i]) is None {
            assert forall|i: int| 0 <= i < rest.len() implies (#[trigger] rest[i]) is None by {
                assert(keys[i] is None);
            }
            assert(keys[keys.len() - 1] is None);
        }
    }
}

/// Key preservation: where a key stands in both lists, the slot of its old
/// position holds the new item of that key, so the child is updated in
/// place, whatever stands around it.
pub proof fn lemma_key_preserved(prev: Seq<Key>, next: Seq<Key>, i: int, j: int)
    requires
        0 <= i < prev.len(),
        0 <= j < next.len(),
        prev[i] is Some,
        prev[i] == next[j],
    ensures
        ({
            let d = spec_diff_children(prev, next);
            &&& i < d.slots.len()
            &&& d.slots[i] is Some
            &&& 0 <= d.slots[i]->0 < next.len()
            &&& next[d.slots[i]->0] == prev[i]
        }),
{
    lemma_all_free(prev);
    lemma_all_free(next);
    lemma_key_map(next);
    assert(!all_free(prev));
    assert(!all_free(next));
    let sim = simulated(prev, next);
    assert(sim[i] == slot(prev, next, i));
    assert(key_map(next).contains_key(next[j]->0));
}

/// With the same list on both sides nothing is appended.
proof fn lemma_same_list_appends_nothing(next: Seq<Key>, upto: int)
    requires
        upto <= next.len(),
    ensures
        appended(next, next, upto).len() == 0,
    decreases upto,
{
    if upto > 0 {
        lemma_same_list_appends_nothing(next, upto - 1);
        lemma_key_map(next);
        let j = upto - 1;
        assert(next[j] is Some ==> key_map(next).contains_key(next[j]->0));
    }
}

/// With the same list on both sides every slot holds an item of the key
/// that stands at its position.
proof fn lemma_same_list_slots(next: Seq<Key>)
    ensures
        simulated(next, next).len() == next.len(),
        forall|i: int|
            0 <= i < next.len() ==> (#[trigger] simulated(next, next)[i]) is Some && 0
                <= simulated(next, next)[i]->0 < next.len() && next[simulated(next, next)[i]->0]
                == next[i],
{
    lemma_same_list_appends_nothing(next, next.len() as int);
    lemma_key_map(next);
    lemma_free_positions(next);
    let sim = simulated(next, next);
    assert forall|i: int| 0 <= i < next.len() implies (#[trigger] sim[i]) is Some && 0 <= sim[i]->0
        < next.len() && next[sim[i]->0] == next[i] by {
        assert(sim[i] == slot(next, next, i));
        if next[i] is Some {
            assert(key_map(next).contains_key(next[i]->0));
        }
    }
}

/// A walk over slots that already stand in the order of the new list
/// passes them one by one and records nothing.
proof fn lemma_walk_in_order(next: Seq<Key>, sim: Seq<Option<int>>, k: int)
    requires
        0 <= k <= next.len(),
        sim.len() == next.len(),
        forall|i: int|
            0 <= i < next.len() ==> (#[trigger] sim[i]) is Some && 0 <= sim[i]->0 < next.len()
                && next[sim[i]->0] == next[i],
    ensures
        reconcile(
            next,
            Walk { sim, at: k, k, removes: Seq::empty(), inserts: Seq::empty() },
        ) == (Walk {
            sim,
            at: next.len() as int,
            k: next.len() as int,
            removes: Seq::empty(),
            inserts: Seq::empty(),
        }),
    decreases next.len() - k,
{
    if k < next.len() {
        let w = Walk { sim, at: k, k, removes: Seq::empty(), inserts: Seq::empty() };
        assert(sim[k] is Some);
        assert(item_key(next, sim[k]) == next[k]);
        assert(step(next, w) == Walk { at: k + 1, k: k + 1, ..w });
        lemma_walk_in_order(next, sim, k + 1);
    }
}

/// Idempotence: the diff of a list with itself moves nothing and fills
/// every slot.
pub proof fn lemma_same_list_moves_nothing(next: Seq<Key>)
    ensures
        spec_diff_children(next, next).removes.len() == 0,
        spec_diff_children(next, next).inserts.len() == 0,
        spec_diff_children(next, next).slots.len() == next.len(),
        forall|i: int|
            0 <= i < next.len() ==> (#[trigger] spec_diff_children(next, next).slots[i]) is Some
                && next[spec_diff_children(next, next).slots[i]->0] == next[i],
{
    if !all_free(next) {
        let sim = simulated(next, next);
        lemma_same_list_slots(next);
        lemma_walk_in_order(next, sim, 0);
        let w = reconcile(next, start(sim));
        assert(drain(next, w) == w);
    }
}

} // verus!
