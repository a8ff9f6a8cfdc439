//! Replaying the moves of a diff, and why the replay ends in the order
//! of the new list.

use super::model::{
    all_free, appended, count_empty, drain, dropped, filled, identity_slots, item_key,
    items_valid, key_map, lemma_appended_valid, matched, max_len, pad, reconcile, simulated,
    spec_diff_children, start, step, ChildDiff, Key, Walk,
};
use super::shape::{
    distinct_keys, lemma_simulated_shape, no_item_twice, stands, unkeyed_rising,
};
use vstd::prelude::*;

verus! {

/// A list of slots after some removes, and the keyed items taken out of
/// it, each under its key.
pub struct Applied {
    pub list: Seq<Option<int>>,
    pub stash: Map<Seq<char>, int>,
}

/// Takes the slots out one after the other, each at its position in the
/// list as it stands then; an item taken out with a key is kept under it.
pub open spec fn apply_removes(list: Seq<Option<int>>, removes: Seq<(int, Key)>) -> Applied
    decreases removes.len(),
{
    if removes.len() == 0 {
        Applied { list, stash: Map::empty() }
    } else {
        let prior = apply_removes(list, removes.drop_last());
        let at = removes.last().0;
        let key = removes.last().1;
        let item = prior.list[at];
        Applied {
            list: prior.list.remove(at),
            stash: if key is Some && item is Some {
                prior.stash.insert(key->0, item->0)
            } else {
                prior.stash
            },
        }
    }
}

/// Puts the kept items back in one after the other, each at its final
/// position.
pub open spec fn apply_inserts(
    list: Seq<Option<int>>,
    stash: Map<Seq<char>, int>,
    inserts: Seq<(Key, int)>,
) -> Seq<Option<int>>
    decreases inserts.len(),
{
    if inserts.len() == 0 {
        list
    } else {
        let prior = apply_inserts(list, stash, inserts.drop_last());
        let key = inserts.last().0;
        let to = inserts.last().1;
        let item = if key is Some && stash.contains_key(key->0) {
            Some(stash[key->0])
        } else {
            None
        };
        prior.insert(to, item)
    }
}

/// The slots of a diff after its moves: first the removes, then the inserts.
pub open spec fn replay(d: ChildDiff) -> Seq<Option<int>> {
    let applied = apply_removes(d.slots, d.removes);
    apply_inserts(applied.list, applied.stash, d.inserts)
}

/// Whether item `j` stands in a slot that the walk has passed.
pub open spec fn passed(w: Walk, j: int) -> bool {
    exists|p: int| 0 <= p < w.at && #[trigger] w.sim[p] == Some(j)
}

/// Whether an insert of position `j` is recorded.
pub open spec fn inserted(w: Walk, j: int) -> bool {
    exists|c: int| 0 <= c < w.inserts.len() && (#[trigger] w.inserts[c]).1 == j
}

/// Whether item `j` is kept in the stash under its key.
pub open spec fn stashed(next: Seq<Key>, stash: Map<Seq<char>, int>, j: int) -> bool {
    next[j] is Some && stash.contains_key(next[j]->0) && stash[next[j]->0] == j
}

/// What holds of the walk at every step. `base` is the list that the walk
/// started on, `tail` the empty slots behind it.
pub open spec fn walk_inv(
    next: Seq<Key>,
    base: Seq<Option<int>>,
    tail: Seq<Option<int>>,
    w: Walk,
) -> bool {
    let n = next.len() as int;
    let applied = apply_removes(base + tail, w.removes);
    &&& 0 <= w.k <= n
    &&& 0 <= w.at <= w.sim.len()
    &&& applied.list == w.sim + tail
    &&& items_valid(w.sim, n)
    &&& no_item_twice(w.sim)
    &&& unkeyed_rising(next, w.sim, w.at)
    &&& forall|key: Seq<char>| #[trigger]
        applied.stash.contains_key(key) ==> 0 <= applied.stash[key] < n && next[applied.stash[key]]
            == Some(key)
    &&& forall|p: int| 0 <= p < w.at ==> (#[trigger] w.sim[p]) is Some && w.sim[p]->0 < w.k
    &&& forall|p: int, q: int|
        0 <= p < q < w.at ==> (#[trigger] w.sim[p])->0 < (#[trigger] w.sim[q])->0
    &&& forall|c: int|
        0 <= c < w.inserts.len() ==> 0 <= (#[trigger] w.inserts[c]).1 < w.k && w.inserts[c].0
            == next[w.inserts[c].1] && w.inserts[c].0 is Some && !passed(w, w.inserts[c].1)
    &&& forall|c: int, d: int|
        0 <= c < d < w.inserts.len() ==> (#[trigger] w.inserts[c]).1 < (#[trigger] w.inserts[d]).1
    &&& forall|j: int| 0 <= j < w.k ==> #[trigger] passed(w, j) || inserted(w, j)
    &&& forall|j: int|
        0 <= j < n && !(#[trigger] passed(w, j)) ==> stands(w.sim, w.at, j) || stashed(
            next,
            applied.stash,
            j,
        )
    &&& forall|p: int|
        w.at <= p < w.sim.len() && (#[trigger] w.sim[p]) is Some && next[w.sim[p]->0] is None
            ==> w.sim[p]->0 >= w.k
}

/// The walk starts in a state where the invariant holds.
proof fn lemma_walk_starts(next: Seq<Key>, base: Seq<Option<int>>, tail: Seq<Option<int>>)
    requires
        items_valid(base, next.len() as int),
        no_item_twice(base),
        unkeyed_rising(next, base, 0),
        forall|j: int| 0 <= j < next.len() ==> stands(base, 0, j),
    ensures
        walk_inv(next, base, tail, start(base)),
{
    let w = start(base);
    assert forall|j: int| 0 <= j < next.len() && !(#[trigger] passed(w, j)) implies stands(
        w.sim,
        w.at,
        j,
    ) by {
        assert(stands(base, 0, j));
    }
}

/// Taking the slot at the walk's position out keeps the invariant, given
/// that an item taken out has a key.
proof fn lemma_drop(
    next: Seq<Key>,
    base: Seq<Option<int>>,
    tail: Seq<Option<int>>,
    w: Walk,
)
    requires
        distinct_keys(next),
        walk_inv(next, base, tail, w),
        0 <= w.at < w.sim.len(),
        w.sim[w.at] is Some ==> next[w.sim[w.at]->0] is Some,
    ensures
        walk_inv(next, base, tail, dropped(w, item_key(next, w.sim[w.at]))),
{
    let n = next.len() as int;
    let key = item_key(next, w.sim[w.at]);
    let v = dropped(w, key);
    let before = apply_removes(base + tail, w.removes);
    let after = apply_removes(base + tail, v.removes);
    assert(v.removes.drop_last() =~= w.removes);
    assert(before.list[w.at] == w.sim[w.at]);
    assert(after.list =~= v.sim + tail);
    assert forall|p: int| 0 <= p < v.sim.len() implies #[trigger] v.sim[p] == w.sim[if p < w.at {
        p
    } else {
        p + 1
    }] by {}
    assert(items_valid(v.sim, n)) by {
        assert forall|p: int| 0 <= p < v.sim.len() && (#[trigger] v.sim[p]) is Some implies 0
            <= v.sim[p]->0 < n by {
            let q = if p < w.at {
                p
            } else {
                p + 1
            };
            assert(v.sim[p] == w.sim[q]);
        }
    }
    assert(no_item_twice(v.sim)) by {
        assert forall|p: int, q: int|
            0 <= p < q < v.sim.len() && (#[trigger] v.sim[p]) is Some implies v.sim[p]
            != #[trigger] v.sim[q] by {
            let p_was = if p < w.at {
                p
            } else {
                p + 1
            };
            let q_was = if q < w.at {
                q
            } else {
                q + 1
            };
            assert(v.sim[p] == w.sim[p_was] && v.sim[q] == w.sim[q_was]);
        }
    }
    assert(unkeyed_rising(next, v.sim, v.at)) by {
        assert forall|p: int, q: int|
            v.at <= p < q < v.sim.len() && (#[trigger] v.sim[p]) is Some && (
            #[trigger] v.sim[q]) is Some && next[v.sim[p]->0] is None && next[v.sim[q]->0] is None implies v.sim[p]->0
            < v.sim[q]->0 by {
            assert(v.sim[p] == w.sim[p + 1] && v.sim[q] == w.sim[q + 1]);
        }
    }
    assert forall|key2: Seq<char>| #[trigger] after.stash.contains_key(key2) implies 0
        <= after.stash[key2] < n && next[after.stash[key2]] == Some(key2) by {
        if before.stash.contains_key(key2) {
            assert(0 <= before.stash[key2] < n && next[before.stash[key2]] == Some(key2));
        }
    }
    assert forall|j: int| passed(v, j) == passed(w, j) by {
        if passed(w, j) {
            let p = choose|p: int| 0 <= p < w.at && #[trigger] w.sim[p] == Some(j);
            assert(v.sim[p] == Some(j));
        }
        if passed(v, j) {
            let p = choose|p: int| 0 <= p < v.at && #[trigger] v.sim[p] == Some(j);
            assert(w.sim[p] == Some(j));
        }
    }
    assert forall|p: int| 0 <= p < v.at implies (#[trigger] v.sim[p]) is Some && v.sim[p]->0
        < v.k by {
        assert(v.sim[p] == w.sim[p]);
    }
    assert forall|p: int, q: int| 0 <= p < q < v.at implies (#[trigger] v.sim[p])->0 < (
    #[trigger] v.sim[q])->0 by {
        assert(v.sim[p] == w.sim[p] && v.sim[q] == w.sim[q]);
    }
    assert forall|c: int| 0 <= c < v.inserts.len() implies 0 <= (#[trigger] v.inserts[c]).1 < v.k
        && v.inserts[c].0 == next[v.inserts[c].1] && v.inserts[c].0 is Some && !passed(
        v,
        v.inserts[c].1,
    ) by {
        assert(!passed(w, w.inserts[c].1));
    }
    assert forall|j: int| 0 <= j < v.k implies #[trigger] passed(v, j) || inserted(v, j) by {
        assert(passed(w, j) || inserted(w, j));
    }
    assert forall|j: int| 0 <= j < n && !(#[trigger] passed(v, j)) implies stands(v.sim, v.at, j)
        || stashed(next, after.stash, j) by {
        assert(!passed(w, j));
        if stands(w.sim, w.at, j) {
            let p = choose|p: int| w.at <= p < w.sim.len() && #[trigger] w.sim[p] == Some(j);
            if p == w.at {
                assert(stashed(next, after.stash, j));
            } else {
                assert(v.sim[p - 1] == Some(j));
            }
        } else {
            assert(stashed(next, before.stash, j));
            if key is Some && w.sim[w.at] is Some && key == next[j] {
                let h = w.sim[w.at]->0;
                if h < j {
                    assert(next[h] != next[j]);
                }
                if j < h {
                    assert(next[j] != next[h]);
                }
            }
        }
    }
    assert forall|p: int|
        v.at <= p < v.sim.len() && (#[trigger] v.sim[p]) is Some && next[v.sim[p]->0] is None implies v.sim[p]->0
        >= v.k by {
        assert(v.sim[p] == w.sim[p + 1]);
    }
}

/// Recording the insert of a keyed wanted item and moving on keeps the
/// invariant.
proof fn lemma_insert(
    next: Seq<Key>,
    base: Seq<Option<int>>,
    tail: Seq<Option<int>>,
    w: Walk,
)
    requires
        walk_inv(next, base, tail, w),
        0 <= w.k < next.len(),
        next[w.k] is Some,
    ensures
        walk_inv(
            next,
            base,
            tail,
            Walk { inserts: w.inserts.push((next[w.k], w.k)), k: w.k + 1, ..w },
        ),
{
    let n = next.len() as int;
    let v = Walk { inserts: w.inserts.push((next[w.k], w.k)), k: w.k + 1, ..w };
    let applied = apply_removes(base + tail, w.removes);
    assert forall|j: int| passed(v, j) == passed(w, j) by {}
    assert(!passed(w, w.k)) by {
        if passed(w, w.k) {
            let p = choose|p: int| 0 <= p < w.at && #[trigger] w.sim[p] == Some(w.k);
            assert(w.sim[p]->0 < w.k);
        }
    }
    assert forall|c: int| 0 <= c < v.inserts.len() implies 0 <= (#[trigger] v.inserts[c]).1 < v.k
        && v.inserts[c].0 == next[v.inserts[c].1] && v.inserts[c].0 is Some && !passed(
        v,
        v.inserts[c].1,
    ) by {
        if c < w.inserts.len() {
            assert(v.inserts[c] == w.inserts[c]);
            assert(!passed(w, w.inserts[c].1));
        }
    }
    assert forall|c: int, d: int| 0 <= c < d < v.inserts.len() implies (#[trigger] v.inserts[c]).1
        < (#[trigger] v.inserts[d]).1 by {
        assert(v.inserts[c] == w.inserts[c]);
        if d < w.inserts.len() {
            assert(v.inserts[d] == w.inserts[d]);
        }
    }
    assert forall|j: int| 0 <= j < v.k implies #[trigger] passed(v, j) || inserted(v, j) by {
        if j < w.k {
            assert(passed(w, j) || inserted(w, j));
            if inserted(w, j) {
                let c = choose|c: int| 0 <= c < w.inserts.len() && (#[trigger] w.inserts[c]).1 == j;
                assert(v.inserts[c].1 == j);
            }
        } else {
            assert(v.inserts[w.inserts.len() as int].1 == j);
        }
    }
    assert forall|j: int| 0 <= j < n && !(#[trigger] passed(v, j)) implies stands(v.sim, v.at, j)
        || stashed(next, applied.stash, j) by {
        assert(!passed(w, j));
    }
}

/// Passing a slot that holds an item of the wanted key keeps the invariant.
proof fn lemma_match(
    next: Seq<Key>,
    base: Seq<Option<int>>,
    tail: Seq<Option<int>>,
    w: Walk,
)
    requires
        distinct_keys(next),
        walk_inv(next, base, tail, w),
        0 <= w.k < next.len(),
        0 <= w.at < w.sim.len(),
        w.sim[w.at] is Some,
        next[w.sim[w.at]->0] == next[w.k],
    ensures
        w.sim[w.at] == Some(w.k),
        walk_inv(next, base, tail, Walk { at: w.at + 1, k: w.k + 1, ..w }),
{
    let n = next.len() as int;
    let v = Walk { at: w.at + 1, k: w.k + 1, ..w };
    let applied = apply_removes(base + tail, w.removes);
    let h = w.sim[w.at]->0;
    assert(!passed(w, w.k)) by {
        if passed(w, w.k) {
            let p = choose|p: int| 0 <= p < w.at && #[trigger] w.sim[p] == Some(w.k);
            assert(w.sim[p]->0 < w.k);
        }
    }
    assert(h == w.k) by {
        if next[w.k] is Some {
            if h < w.k {
                assert(next[h] != next[w.k]);
            }
            if w.k < h {
                assert(next[w.k] != next[h]);
            }
        } else {
            assert(stands(w.sim, w.at, w.k) || stashed(next, applied.stash, w.k));
            let q = choose|q: int| w.at <= q < w.sim.len() && #[trigger] w.sim[q] == Some(w.k);
            if q > w.at {
                assert(w.sim[w.at]->0 < w.sim[q]->0);
                assert(w.sim[w.at]->0 >= w.k);
            }
        }
    }
    assert forall|j: int| passed(v, j) == (passed(w, j) || j == w.k) by {
        if passed(w, j) {
            let p = choose|p: int| 0 <= p < w.at && #[trigger] w.sim[p] == Some(j);
            assert(v.sim[p] == Some(j));
        }
        if j == w.k {
            assert(v.sim[w.at] == Some(j));
        }
        if passed(v, j) {
            let p = choose|p: int| 0 <= p < v.at && #[trigger] v.sim[p] == Some(j);
            if p < w.at {
                assert(w.sim[p] == Some(j));
            }
        }
    }
    assert forall|c: int| 0 <= c < v.inserts.len() implies 0 <= (#[trigger] v.inserts[c]).1 < v.k
        && v.inserts[c].0 == next[v.inserts[c].1] && v.inserts[c].0 is Some && !passed(
        v,
        v.inserts[c].1,
    ) by {
        assert(!passed(w, w.inserts[c].1));
    }
    assert forall|j: int| 0 <= j < v.k implies #[trigger] passed(v, j) || inserted(v, j) by {
        if j < w.k {
            assert(passed(w, j) || inserted(w, j));
        }
    }
    assert forall|j: int| 0 <= j < n && !(#[trigger] passed(v, j)) implies stands(v.sim, v.at, j)
        || stashed(next, applied.stash, j) by {
        assert(!passed(w, j));
        if stands(w.sim, w.at, j) {
            let p = choose|p: int| w.at <= p < w.sim.len() && #[trigger] w.sim[p] == Some(j);
            assert(p != w.at);
            assert(v.sim[p] == Some(j));
        }
    }
    assert forall|p: int|
        v.at <= p < v.sim.len() && (#[trigger] v.sim[p]) is Some && next[v.sim[p]->0] is None implies v.sim[p]->0
        >= v.k by {
        assert(w.sim[p]->0 >= w.k);
        assert(w.sim[w.at] != w.sim[p]);
    }
    assert forall|p: int, q: int| 0 <= p < q < v.at implies (#[trigger] v.sim[p])->0 < (
    #[trigger] v.sim[q])->0 by {
        if q == w.at {
            assert(w.sim[p]->0 < w.k);
        }
    }
}

/// Every step of the walk keeps the invariant.
proof fn lemma_step_inv(next: Seq<Key>, base: Seq<Option<int>>, tail: Seq<Option<int>>, w: Walk)
    requires
        distinct_keys(next),
        walk_inv(next, base, tail, w),
        0 <= w.k < next.len(),
    ensures
        walk_inv(next, base, tail, step(next, w)),
        counts_hold(base, w) ==> counts_hold(base, step(next, w)),
{
    let in_range = 0 <= w.at < w.sim.len();
    let applied = apply_removes(base + tail, w.removes);
    if in_range && w.sim[w.at] is None {
        lemma_drop(next, base, tail, w);
        lemma_drop_counts(base, w, None);
    } else {
        let head: Option<int> = if in_range {
            w.sim[w.at]
        } else {
            None
        };
        let head_key = item_key(next, head);
        let wanted = next[w.k];
        if head is Some && head_key == wanted {
            lemma_match(next, base, tail, w);
        } else if wanted is Some {
            if head is Some && head_key is Some && key_map(next)[head_key->0] != w.k + 1 {
                lemma_drop(next, base, tail, w);
                lemma_drop_counts(base, w, head_key);
                lemma_insert(next, base, tail, dropped(w, head_key));
            } else {
                lemma_insert(next, base, tail, w);
            }
        } else if head is Some && head_key is Some {
            lemma_drop(next, base, tail, w);
            lemma_drop_counts(base, w, head_key);
        } else {
            assert(!passed(w, w.k)) by {
                if passed(w, w.k) {
                    let p = choose|p: int| 0 <= p < w.at && #[trigger] w.sim[p] == Some(w.k);
                    assert(w.sim[p]->0 < w.k);
                }
            }
            assert(stands(w.sim, w.at, w.k) || stashed(next, applied.stash, w.k));
            let q = choose|q: int| w.at <= q < w.sim.len() && #[trigger] w.sim[q] == Some(w.k);
            assert(in_range);
            assert(false);
        }
    }
}

/// The walk keeps the invariant to its end.
proof fn lemma_reconcile_inv(
    next: Seq<Key>,
    base: Seq<Option<int>>,
    tail: Seq<Option<int>>,
    w: Walk,
)
    requires
        distinct_keys(next),
        walk_inv(next, base, tail, w),
    ensures
        walk_inv(next, base, tail, reconcile(next, w)),
        reconcile(next, w).k == next.len(),
        counts_hold(base, w) ==> counts_hold(base, reconcile(next, w)),
    decreases next.len() - w.k, w.sim.len(),
{
    if 0 <= w.k < next.len() {
        lemma_step_inv(next, base, tail, w);
        lemma_reconcile_inv(next, base, tail, step(next, w));
    }
}

/// Taking out what the walk left behind keeps the invariant and empties
/// the list behind the walk's position.
proof fn lemma_drain_inv(next: Seq<Key>, base: Seq<Option<int>>, tail: Seq<Option<int>>, w: Walk)
    requires
        distinct_keys(next),
        walk_inv(next, base, tail, w),
        w.k == next.len(),
    ensures
        walk_inv(next, base, tail, drain(next, w)),
        drain(next, w).k == next.len(),
        drain(next, w).at == drain(next, w).sim.len(),
        drain(next, w).inserts == w.inserts,
        counts_hold(base, w) ==> counts_hold(base, drain(next, w)),
    decreases w.sim.len() - w.at,
{
    if 0 <= w.at < w.sim.len() {
        lemma_drop(next, base, tail, w);
        lemma_drop_counts(base, w, item_key(next, w.sim[w.at]));
        lemma_drain_inv(next, base, tail, dropped(w, item_key(next, w.sim[w.at])));
    }
}

/// The number of removes that name no key.
pub open spec fn plain_removes(removes: Seq<(int, Key)>) -> int
    decreases removes.len(),
{
    if removes.len() == 0 {
        0
    } else {
        plain_removes(removes.drop_last()) + if removes.last().1 is None {
            1int
        } else {
            0int
        }
    }
}

/// The bookkeeping of empty slots: each remove without a key took an empty
/// slot out, and as long as there are no others the items stand as they
/// stood at the start.
pub open spec fn counts_hold(base: Seq<Option<int>>, w: Walk) -> bool {
    &&& 0 <= plain_removes(w.removes) <= w.removes.len()
    &&& count_empty(w.sim) + plain_removes(w.removes) == count_empty(base)
    &&& plain_removes(w.removes) == w.removes.len() ==> filled(w.sim) == filled(base)
}

/// What taking a slot out does to the count of empty slots and to the
/// items.
proof fn lemma_remove_counts(s: Seq<Option<int>>, at: int)
    requires
        0 <= at < s.len(),
    ensures
        s[at] is None ==> count_empty(s.remove(at)) == count_empty(s) - 1 && filled(s.remove(at))
            == filled(s),
        s[at] is Some ==> count_empty(s.remove(at)) == count_empty(s),
    decreases s.len(),
{
    if at == s.len() - 1 {
        assert(s.remove(at) =~= s.drop_last());
    } else {
        lemma_remove_counts(s.drop_last(), at);
        assert(s.remove(at).drop_last() =~= s.drop_last().remove(at));
        assert(s.remove(at).last() == s.last());
    }
}

/// Taking the slot at the walk's position out keeps the bookkeeping.
proof fn lemma_drop_counts(base: Seq<Option<int>>, w: Walk, key: Key)
    requires
        0 <= w.at < w.sim.len(),
        key is None <==> w.sim[w.at] is None,
    ensures
        counts_hold(base, w) ==> counts_hold(base, dropped(w, key)),
{
    let v = dropped(w, key);
    assert(v.removes.drop_last() =~= w.removes);
    lemma_remove_counts(w.sim, w.at);
}

/// The new positions in order, one after the other.
pub open spec fn in_order(n: nat) -> Seq<int> {
    Seq::new(n, |i: int| i)
}

/// Empty slots at the end add no item.
proof fn lemma_filled_tail(s: Seq<Option<int>>, tail: Seq<Option<int>>)
    requires
        forall|i: int| 0 <= i < tail.len() ==> (#[trigger] tail[i]) is None,
    ensures
        filled(s + tail) == filled(s),
        count_empty(s + tail) == count_empty(s) + tail.len(),
    decreases tail.len(),
{
    if tail.len() == 0 {
        assert(s + tail =~= s);
    } else {
        lemma_filled_tail(s, tail.drop_last());
        assert((s + tail).drop_last() =~= s + tail.drop_last());
        assert((s + tail).last() == tail.last());
    }
}

/// Filled slots at the end add no empty one.
proof fn lemma_count_filled_tail(s: Seq<Option<int>>, more: Seq<Option<int>>)
    requires
        forall|i: int| 0 <= i < more.len() ==> (#[trigger] more[i]) is Some,
    ensures
        count_empty(s + more) == count_empty(s),
    decreases more.len(),
{
    if more.len() == 0 {
        assert(s + more =~= s);
    } else {
        lemma_count_filled_tail(s, more.drop_last());
        assert((s + more).drop_last() =~= s + more.drop_last());
        assert((s + more).last() == more.last());
    }
}

/// The items of the slots that hold every position at its place.
proof fn lemma_filled_identity(n: nat)
    ensures
        filled(identity_slots(n)) == in_order(n),
        count_empty(identity_slots(n)) == 0,
    decreases n,
{
    if n > 0 {
        lemma_filled_identity((n - 1) as nat);
        assert(identity_slots(n).drop_last() =~= identity_slots((n - 1) as nat));
        assert(identity_slots(n).last() == Some(n - 1));
        assert(in_order((n - 1) as nat).push(n - 1) =~= in_order(n));
    } else {
        assert(filled(identity_slots(n)) =~= in_order(n));
    }
}

/// Whether position `j` stands among the items that stayed or among the
/// inserts.
pub open spec fn covered(stayed: Seq<Option<int>>, inserts: Seq<(Key, int)>, j: int) -> bool {
    (exists|p: int| 0 <= p < stayed.len() && #[trigger] stayed[p] == Some(j)) || (exists|a: int|
        0 <= a < inserts.len() && (#[trigger] inserts[a]).1 == j)
}

/// Putting the kept items back, in the order of their positions, into the
/// rising list of the items that stayed gives every position below `k` its
/// item. The result names how many inserts and how many of the items that
/// stayed lie below `k`.
proof fn lemma_merge(
    next: Seq<Key>,
    stayed: Seq<Option<int>>,
    tail: Seq<Option<int>>,
    stash: Map<Seq<char>, int>,
    inserts: Seq<(Key, int)>,
    k: int,
) -> (r: (int, int))
    requires
        0 <= k <= next.len(),
        forall|p: int| 0 <= p < stayed.len() ==> (#[trigger] stayed[p]) is Some,
        forall|p: int, q: int|
            0 <= p < q < stayed.len() ==> (#[trigger] stayed[p])->0 < (#[trigger] stayed[q])->0,
        forall|a: int, b: int|
            0 <= a < b < inserts.len() ==> (#[trigger] inserts[a]).1 < (#[trigger] inserts[b]).1,
        forall|a: int|
            0 <= a < inserts.len() ==> (#[trigger] inserts[a]).0 is Some && stash.contains_key(
                inserts[a].0->0,
            ) && stash[inserts[a].0->0] == inserts[a].1,
        forall|a: int, p: int|
            0 <= a < inserts.len() && 0 <= p < stayed.len() ==> (#[trigger] stayed[p])->0 != (
            #[trigger] inserts[a]).1,
        forall|j: int| 0 <= j < next.len() ==> #[trigger] covered(stayed, inserts, j),
        forall|p: int| 0 <= p < stayed.len() ==> 0 <= (#[trigger] stayed[p])->0,
        forall|a: int| 0 <= a < inserts.len() ==> 0 <= (#[trigger] inserts[a]).1,
    ensures
        0 <= r.0 <= inserts.len(),
        0 <= r.1 <= stayed.len(),
        r.0 + r.1 == k,
        forall|p: int| 0 <= p < r.1 ==> (#[trigger] stayed[p])->0 < k,
        forall|p: int| r.1 <= p < stayed.len() ==> (#[trigger] stayed[p])->0 >= k,
        forall|a: int| 0 <= a < r.0 ==> (#[trigger] inserts[a]).1 < k,
        forall|a: int| r.0 <= a < inserts.len() ==> (#[trigger] inserts[a]).1 >= k,
        apply_inserts(stayed + tail, stash, inserts.take(r.0)) == identity_slots(k as nat)
            + stayed.skip(r.1) + tail,
    decreases k,
{
    if k == 0 {
        assert(inserts.take(0) =~= Seq::empty());
        assert(stayed + tail =~= identity_slots(0) + stayed.skip(0) + tail);
        (0, 0)
    } else {
        let j = k - 1;
        let (c, m) = lemma_merge(next, stayed, tail, stash, inserts, k - 1);
        assert(covered(stayed, inserts, j));
        let in_stayed = exists|p: int| 0 <= p < stayed.len() && #[trigger] stayed[p] == Some(j);
        if in_stayed {
            let p = choose|p: int| 0 <= p < stayed.len() && #[trigger] stayed[p] == Some(j);
            assert(p >= m);
            assert(p == m) by {
                if p > m {
                    assert(stayed[m]->0 < stayed[p]->0);
                }
            }
            assert forall|q: int| m + 1 <= q < stayed.len() implies (#[trigger] stayed[q])->0
                >= k by {
                assert(stayed[m]->0 < stayed[q]->0);
            }
            assert forall|a: int| c <= a < inserts.len() implies (#[trigger] inserts[a]).1 >= k by {
                assert(stayed[p]->0 != inserts[a].1);
            }
            assert(identity_slots((k - 1) as nat) + stayed.skip(m) + tail =~= identity_slots(
                k as nat,
            ) + stayed.skip(m + 1) + tail);
            (c, m + 1)
        } else {
            let a = choose|a: int| 0 <= a < inserts.len() && (#[trigger] inserts[a]).1 == j;
            assert(a >= c);
            assert(a == c) by {
                if a > c {
                    assert(inserts[c].1 < inserts[a].1);
                }
            }
            assert forall|b: int| c + 1 <= b < inserts.len() implies (#[trigger] inserts[b]).1
                >= k by {
                assert(inserts[c].1 < inserts[b].1);
            }
            assert forall|q: int| m <= q < stayed.len() implies (#[trigger] stayed[q])->0 >= k by {
                assert(stayed[q]->0 != inserts[a].1);
            }
            assert(inserts.take(c + 1).drop_last() =~= inserts.take(c));
            assert(inserts.take(c + 1).last() == inserts[c]);
            let prior = identity_slots((k - 1) as nat) + stayed.skip(m) + tail;
            assert(prior.insert(j, Some(j)) =~= identity_slots(k as nat) + stayed.skip(m) + tail);
            (c + 1, m)
        }
    }
}

/// The empty slots that fill a list up to a length.
pub open spec fn padding(s: Seq<Option<int>>, len: int) -> Seq<Option<int>> {
    if s.len() >= len {
        Seq::empty()
    } else {
        Seq::new((len - s.len()) as nat, |i: int| None::<int>)
    }
}

/// Order fidelity: with distinct keys on both sides, replaying the moves of
/// the diff on its slots leaves the new items standing in the order of the
/// new list, followed by empty slots only.
pub proof fn lemma_replay_gives_next(prev: Seq<Key>, next: Seq<Key>)
    requires
        distinct_keys(prev),
        distinct_keys(next),
    ensures
        filled(replay(spec_diff_children(prev, next))) == in_order(next.len()),
{
    let n = next.len();
    let d = spec_diff_children(prev, next);
    lemma_filled_identity(n);
    if all_free(next) || all_free(prev) {
        let tail = padding(identity_slots(n), max_len(prev, next));
        assert(d.slots =~= identity_slots(n) + tail);
        lemma_filled_tail(identity_slots(n), tail);
        assert(replay(d) == d.slots);
    } else {
        let base = simulated(prev, next);
        let tail = padding(base, max_len(prev, next));
        assert(pad(base, max_len(prev, next)) =~= base + tail);
        lemma_simulated_shape(prev, next);
        lemma_walk_starts(next, base, tail);
        let w0 = start(base);
        assert(counts_hold(base, w0));
        lemma_reconcile_inv(next, base, tail, w0);
        let w1 = reconcile(next, w0);
        lemma_drain_inv(next, base, tail, w1);
        let w = drain(next, w1);
        let applied = apply_removes(base + tail, w.removes);
        assert forall|a: int| 0 <= a < w.inserts.len() implies (#[trigger] w.inserts[a]).0 is Some
            && applied.stash.contains_key(w.inserts[a].0->0) && applied.stash[w.inserts[a].0->0]
            == w.inserts[a].1 by {
            let j = w.inserts[a].1;
            assert(!passed(w, j));
            if stands(w.sim, w.at, j) {
                let p = choose|p: int| w.at <= p < w.sim.len() && #[trigger] w.sim[p] == Some(j);
            }
            assert(stashed(next, applied.stash, j));
        }
        assert forall|a: int, p: int|
            0 <= a < w.inserts.len() && 0 <= p < w.sim.len() implies (#[trigger] w.sim[p])->0 != (
        #[trigger] w.inserts[a]).1 by {
            assert(!passed(w, w.inserts[a].1));
        }
        assert forall|j: int| 0 <= j < next.len() implies #[trigger] covered(
            w.sim,
            w.inserts,
            j,
        ) by {
            assert(passed(w, j) || inserted(w, j));
        }
        let (c, m) = lemma_merge(next, w.sim, tail, applied.stash, w.inserts, n as int);
        assert(m == w.sim.len()) by {
            if m < w.sim.len() {
                assert(w.sim[m]->0 >= n);
            }
        }
        assert(c == w.inserts.len()) by {
            if c < w.inserts.len() {
                assert(w.inserts[c].1 >= n);
            }
        }
        assert(w.inserts.take(w.inserts.len() as int) =~= w.inserts);
        assert(identity_slots(n) + w.sim.skip(w.sim.len() as int) + tail =~= identity_slots(n)
            + tail);
        lemma_filled_tail(identity_slots(n), tail);
        assert(filled(apply_inserts(w.sim + tail, applied.stash, w.inserts)) == in_order(n));
        if w.removes.len() == count_empty(matched(prev, next)) && w.inserts.len() == 0 {
            lemma_appended_valid(prev, next, n as int);
            lemma_count_filled_tail(matched(prev, next), appended(prev, next, n as int));
            lemma_count_filled_tail(Seq::empty(), w.sim);
            assert(Seq::<Option<int>>::empty() + w.sim =~= w.sim);
            assert(count_empty(w.sim) == 0);
            assert(filled(w.sim) == filled(base));
            lemma_filled_tail(base, tail);
            lemma_filled_tail(w.sim, tail);
            assert(replay(d) == d.slots);
        } else {
            assert(replay(d) == apply_inserts(w.sim + tail, applied.stash, w.inserts));
        }
    }
}

} // verus!
