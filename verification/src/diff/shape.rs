//! The shape of the simulated list when no key stands twice.

use super::model::{
    appended, free_positions, is_new, items_valid, key_map, last_free, lemma_free_positions,
    lemma_key_map, lemma_simulated_valid, matched, simulated, slot, Key,
};
use vstd::prelude::*;

verus! {

/// Whether no key stands at two positions.
pub open spec fn distinct_keys(keys: Seq<Key>) -> bool {
    forall|i: int, j: int|
        0 <= i < j < keys.len() && (#[trigger] keys[i]) is Some ==> keys[i] != #[trigger] keys[j]
}

/// Whether no item stands in two slots.
pub open spec fn no_item_twice(sim: Seq<Option<int>>) -> bool {
    forall|p: int, q: int|
        0 <= p < q < sim.len() && (#[trigger] sim[p]) is Some ==> sim[p] != #[trigger] sim[q]
}

/// Whether the unkeyed items from position `from` on stand in rising order.
pub open spec fn unkeyed_rising(next: Seq<Key>, sim: Seq<Option<int>>, from: int) -> bool {
    forall|p: int, q: int|
        from <= p < q < sim.len() && (#[trigger] sim[p]) is Some && (#[trigger] sim[q]) is Some
            && next[sim[p]->0] is None && next[sim[q]->0] is None ==> sim[p]->0 < sim[q]->0
}

/// Whether item `j` stands in a slot at or after position `from`.
pub open spec fn stands(sim: Seq<Option<int>>, from: int, j: int) -> bool {
    exists|p: int| from <= p < sim.len() && #[trigger] sim[p] == Some(j)
}

/// The number of unkeyed positions before a free position is its rank.
proof fn lemma_rank(keys: Seq<Key>, r: int)
    requires
        0 <= r < free_positions(keys).len(),
    ensures
        free_positions(keys.take(free_positions(keys)[r])).len() == r,
{
    lemma_free_positions(keys);
    let f = free_positions(keys);
    let j = f[r];
    let s = free_positions(keys.take(j)).len() as int;
    assert(keys[j] is None);
    assert(f[s] == j);
    if s < r {
        assert(f[s] < f[r]);
    }
    if r < s {
        assert(f[r] < f[s]);
    }
}

/// The rank grows with the position.
proof fn lemma_rank_rises(keys: Seq<Key>, i: int, j: int)
    requires
        0 <= i < j < keys.len(),
        keys[i] is None,
        keys[j] is None,
    ensures
        free_positions(keys.take(i)).len() < free_positions(keys.take(j)).len(),
        free_positions(keys.take(j)).len() < free_positions(keys).len(),
{
    lemma_free_positions(keys);
    let f = free_positions(keys);
    let ri = free_positions(keys.take(i)).len() as int;
    let rj = free_positions(keys.take(j)).len() as int;
    assert(f[ri] == i);
    assert(f[rj] == j);
    if rj < ri {
        assert(f[rj] < f[ri]);
    }
}

/// The appended items are the new positions, in rising order.
proof fn lemma_appended_shape(prev: Seq<Key>, next: Seq<Key>, upto: int)
    requires
        0 <= upto <= next.len(),
    ensures
        forall|p: int|
            0 <= p < appended(prev, next, upto).len() ==> (#[trigger] appended(
                prev,
                next,
                upto,
            )[p]) is Some && 0 <= appended(prev, next, upto)[p]->0 < upto && is_new(
                prev,
                next,
                appended(prev, next, upto)[p]->0,
            ),
        forall|p: int, q: int|
            0 <= p < q < appended(prev, next, upto).len() ==> (#[trigger] appended(
                prev,
                next,
                upto,
            )[p])->0 < (#[trigger] appended(prev, next, upto)[q])->0,
        forall|j: int|
            0 <= j < upto && is_new(prev, next, j) ==> stands(appended(prev, next, upto), 0, j),
    decreases upto,
{
    if upto > 0 {
        lemma_appended_shape(prev, next, upto - 1);
        let rest = appended(prev, next, upto - 1);
        let all = appended(prev, next, upto);
        assert forall|j: int| 0 <= j < upto && is_new(prev, next, j) implies stands(all, 0, j) by {
            if j < upto - 1 {
                let p = choose|p: int| 0 <= p < rest.len() && #[trigger] rest[p] == Some(j);
                assert(all[p] == Some(j));
            } else {
                assert(all[all.len() - 1] == Some(j));
            }
        }
        assert forall|p: int, q: int| 0 <= p < q < all.len() implies (#[trigger] all[p])->0 < (
        #[trigger] all[q])->0 by {
            if q < rest.len() {
                assert(all[p] == rest[p] && all[q] == rest[q]);
            } else {
                assert(all[p] == rest[p]);
            }
        }
    }
}

/// With distinct keys on both sides the simulated list holds every new
/// item exactly once, and its unkeyed items in rising order.
pub proof fn lemma_simulated_shape(prev: Seq<Key>, next: Seq<Key>)
    requires
        distinct_keys(prev),
        distinct_keys(next),
    ensures
        items_valid(simulated(prev, next), next.len() as int),
        no_item_twice(simulated(prev, next)),
        unkeyed_rising(next, simulated(prev, next), 0),
        forall|j: int| 0 <= j < next.len() ==> stands(simulated(prev, next), 0, j),
{
    let sim = simulated(prev, next);
    let m = matched(prev, next);
    let ap = appended(prev, next, next.len() as int);
    let f = free_positions(next);
    let used = free_positions(prev).len() as int;
    lemma_simulated_valid(prev, next);
    lemma_key_map(prev);
    lemma_key_map(next);
    lemma_free_positions(prev);
    lemma_free_positions(next);
    lemma_appended_shape(prev, next, next.len() as int);
    // what a matched slot holds
    assert forall|p: int| 0 <= p < prev.len() && (#[trigger] sim[p]) is Some implies (match prev[p] {
        Some(k) => next[sim[p]->0] == Some(k),
        None => next[sim[p]->0] is None && free_positions(prev.take(p)).len() < f.len()
            && free_positions(prev.take(p)).len() < used && sim[p]->0 == f[free_positions(
            prev.take(p),
        ).len() as int],
    }) by {
        assert(sim[p] == slot(prev, next, p));
    }
    assert forall|q: int| prev.len() <= q < sim.len() implies (#[trigger] sim[q]) is Some && is_new(
        prev,
        next,
        sim[q]->0,
    ) && 0 <= sim[q]->0 < next.len() by {
        assert(sim[q] == ap[q - prev.len()]);
    }
    assert forall|p: int, q: int|
        0 <= p < q < sim.len() && (#[trigger] sim[p]) is Some && (#[trigger] sim[q]) is Some implies sim[p]
        != sim[q] && (next[sim[p]->0] is None && next[sim[q]->0] is None ==> sim[p]->0
        < sim[q]->0) by {
        let a = sim[p]->0;
        let b = sim[q]->0;
        if q < prev.len() {
            if prev[p] is None && prev[q] is None {
                lemma_rank_rises(prev, p, q);
                let rp = free_positions(prev.take(p)).len() as int;
                let rq = free_positions(prev.take(q)).len() as int;
                assert(f[rp] < f[rq]);
            }
        } else if p < prev.len() {
            if prev[p] is Some {
                assert(key_map(prev).contains_key(prev[p]->0));
            } else if next[b] is None {
                let rp = free_positions(prev.take(p)).len() as int;
                assert(b >= last_free(prev, next));
                assert(f[rp] < f[used]);
            }
        } else {
            assert(sim[p] == ap[p - prev.len()]);
            assert(sim[q] == ap[q - prev.len()]);
        }
    }
    assert forall|j: int| 0 <= j < next.len() implies stands(sim, 0, j) by {
        if is_new(prev, next, j) {
            let p = choose|p: int| 0 <= p < ap.len() && #[trigger] ap[p] == Some(j);
            assert(sim[prev.len() + p] == Some(j));
        } else {
            match next[j] {
                Some(k) => {
                    let i = key_map(prev)[k];
                    assert(prev[i] == Some(k));
                    assert(sim[i] == slot(prev, next, i));
                    assert(key_map(next).contains_key(k));
                    let a = key_map(next)[k];
                    assert(next[a] == Some(k));
                    if a < j {
                        assert(next[a] != next[j]);
                    }
                    if j < a {
                        assert(next[j] != next[a]);
                    }
                    assert(sim[i] == Some(j));
                },
                None => {
                    let r = free_positions(next.take(j)).len() as int;
                    assert(f[r] == j);
                    assert(r < used) by {
                        if r >= used {
                            if used < f.len() {
                                if used < r {
                                    assert(f[used] < f[r]);
                                }
                            }
                        }
                    }
                    let i = free_positions(prev)[r];
                    lemma_rank(prev, r);
                    assert(prev[i] is None);
                    assert(sim[i] == slot(prev, next, i));
                    assert(sim[i] == Some(j));
                },
            }
        }
    }
}

} // verus!
