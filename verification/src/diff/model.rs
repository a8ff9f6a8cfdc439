//! The keyed list diff as mathematics.
//!
//! A list of children is seen as the sequence of its keys; an item of the
//! new list is named by its position there.

use vstd::prelude::*;

verus! {

/// The key of a child: a text, or none.
pub type Key = Option<Seq<char>>;

/// For each key the last position that holds it.
pub open spec fn key_map(keys: Seq<Key>) -> Map<Seq<char>, int>
    decreases keys.len(),
{
    if keys.len() == 0 {
        Map::empty()
    } else {
        let rest = key_map(keys.drop_last());
        match keys.last() {
            Some(k) => rest.insert(k, keys.len() - 1),
            None => rest,
        }
    }
}

/// The positions without a key, in order.
pub open spec fn free_positions(keys: Seq<Key>) -> Seq<int>
    decreases keys.len(),
{
    if keys.len() == 0 {
        Seq::empty()
    } else {
        let rest = free_positions(keys.drop_last());
        if keys.last() is None {
            rest.push(keys.len() - 1)
        } else {
            rest
        }
    }
}

/// Whether no position has a key.
pub open spec fn all_free(keys: Seq<Key>) -> bool {
    free_positions(keys).len() == keys.len()
}

/// The new item that stands against the old item at position `i`: for a
/// keyed item the new item of that key, for an unkeyed one the next unkeyed
/// new item not yet taken; none where there is no such item.
pub open spec fn slot(prev: Seq<Key>, next: Seq<Key>, i: int) -> Option<int> {
    match prev[i] {
        Some(k) => if key_map(next).contains_key(k) {
            Some(key_map(next)[k])
        } else {
            None
        },
        None => {
            let rank = free_positions(prev.take(i)).len();
            let free = free_positions(next);
            if rank < free.len() {
                Some(free[rank as int])
            } else {
                None
            }
        },
    }
}

/// The slots of the old positions.
pub open spec fn matched(prev: Seq<Key>, next: Seq<Key>) -> Seq<Option<int>> {
    Seq::new(prev.len(), |i: int| slot(prev, next, i))
}

/// The first unkeyed new position that no old item took; the length of the
/// new list where all were taken.
pub open spec fn last_free(prev: Seq<Key>, next: Seq<Key>) -> int {
    let used = free_positions(prev).len();
    let free = free_positions(next);
    if used >= free.len() {
        next.len() as int
    } else {
        free[used as int]
    }
}

/// Whether the new item at position `j` stands against no old item.
pub open spec fn is_new(prev: Seq<Key>, next: Seq<Key>, j: int) -> bool {
    match next[j] {
        Some(k) => !key_map(prev).contains_key(k),
        None => j >= last_free(prev, next),
    }
}

/// The new items among the first `upto` that stand against no old item.
pub open spec fn appended(prev: Seq<Key>, next: Seq<Key>, upto: int) -> Seq<Option<int>>
    decreases upto,
{
    if upto <= 0 {
        Seq::empty()
    } else {
        let rest = appended(prev, next, upto - 1);
        if is_new(prev, next, upto - 1) {
            rest.push(Some(upto - 1))
        } else {
            rest
        }
    }
}

/// The slots of the old positions, then the new items that stand against
/// none of them.
pub open spec fn simulated(prev: Seq<Key>, next: Seq<Key>) -> Seq<Option<int>> {
    matched(prev, next) + appended(prev, next, next.len() as int)
}

/// The number of empty slots.
pub open spec fn count_empty(slots: Seq<Option<int>>) -> int
    decreases slots.len(),
{
    if slots.len() == 0 {
        0
    } else {
        count_empty(slots.drop_last()) + if slots.last() is None {
            1int
        } else {
            0int
        }
    }
}

/// The items of the filled slots, in order.
pub open spec fn filled(slots: Seq<Option<int>>) -> Seq<int>
    decreases slots.len(),
{
    if slots.len() == 0 {
        Seq::empty()
    } else {
        match slots.last() {
            Some(j) => filled(slots.drop_last()).push(j),
            None => filled(slots.drop_last()),
        }
    }
}

/// The state of the walk that brings the simulated list into the order of
/// the new one: the list, the position in it, the position in the new list,
/// and the moves recorded so far.
pub struct Walk {
    pub sim: Seq<Option<int>>,
    pub at: int,
    pub k: int,
    pub removes: Seq<(int, Key)>,
    pub inserts: Seq<(Key, int)>,
}

/// The key of the new item in a slot.
pub open spec fn item_key(next: Seq<Key>, item: Option<int>) -> Key {
    match item {
        Some(j) => next[j],
        None => None,
    }
}

/// The walk with the slot at its position taken out and recorded.
pub open spec fn dropped(w: Walk, key: Key) -> Walk {
    Walk { sim: w.sim.remove(w.at), removes: w.removes.push((w.at, key)), ..w }
}

/// One step of the walk.
pub open spec fn step(next: Seq<Key>, w: Walk) -> Walk {
    let in_range = 0 <= w.at < w.sim.len();
    if in_range && w.sim[w.at] is None {
        dropped(w, None)
    } else {
        let head: Option<int> = if in_range {
            w.sim[w.at]
        } else {
            None
        };
        let head_key = item_key(next, head);
        let wanted = next[w.k];
        if head is Some && head_key == wanted {
            Walk { at: w.at + 1, k: w.k + 1, ..w }
        } else if wanted is Some {
            if head is Some && head_key is Some && key_map(next)[head_key->0] != w.k + 1 {
                Walk { inserts: w.inserts.push((wanted, w.k)), k: w.k + 1, ..dropped(w, head_key) }
            } else {
                Walk { inserts: w.inserts.push((wanted, w.k)), k: w.k + 1, ..w }
            }
        } else if head is Some && head_key is Some {
            dropped(w, head_key)
        } else {
            Walk { k: w.k + 1, ..w }
        }
    }
}

/// The walk, run until every new position has been served.
pub open spec fn reconcile(next: Seq<Key>, w: Walk) -> Walk
    decreases next.len() - w.k, w.sim.len(),
{
    if 0 <= w.k < next.len() {
        reconcile(next, step(next, w))
    } else {
        w
    }
}

/// What is left of the list behind the walk's position, taken out and
/// recorded.
pub open spec fn drain(next: Seq<Key>, w: Walk) -> Walk
    decreases w.sim.len() - w.at,
{
    if 0 <= w.at < w.sim.len() {
        drain(next, dropped(w, item_key(next, w.sim[w.at])))
    } else {
        w
    }
}

/// Where the walk starts.
pub open spec fn start(sim: Seq<Option<int>>) -> Walk {
    Walk { sim, at: 0, k: 0, removes: Seq::empty(), inserts: Seq::empty() }
}

/// The result of a diff: for each position the new item that stands there,
/// and the moves.
pub struct ChildDiff {
    pub slots: Seq<Option<int>>,
    pub removes: Seq<(int, Key)>,
    pub inserts: Seq<(Key, int)>,
}

/// The slots, filled up with empty ones to the given length.
pub open spec fn pad(slots: Seq<Option<int>>, len: int) -> Seq<Option<int>> {
    if slots.len() >= len {
        slots
    } else {
        slots + Seq::new((len - slots.len()) as nat, |i: int| None::<int>)
    }
}

/// The longer of the two lengths.
pub open spec fn max_len(prev: Seq<Key>, next: Seq<Key>) -> int {
    if prev.len() > next.len() {
        prev.len() as int
    } else {
        next.len() as int
    }
}

/// Every new item at its own position.
pub open spec fn identity_slots(n: nat) -> Seq<Option<int>> {
    Seq::new(n, |i: int| Some(i))
}

/// The diff of two lists of children, by their keys.
///
/// Where one of the lists has no key at all the new list is taken as it
/// stands. Otherwise the old positions are matched by key, the walk records
/// the moves, and moves that only delete are left out.
pub open spec fn spec_diff_children(prev: Seq<Key>, next: Seq<Key>) -> ChildDiff {
    if all_free(next) || all_free(prev) {
        ChildDiff {
            slots: pad(identity_slots(next.len()), max_len(prev, next)),
            removes: Seq::empty(),
            inserts: Seq::empty(),
        }
    } else {
        let sim = simulated(prev, next);
        let w = drain(next, reconcile(next, start(sim)));
        if w.removes.len() == count_empty(matched(prev, next)) && w.inserts.len() == 0 {
            ChildDiff {
                slots: pad(sim, max_len(prev, next)),
                removes: Seq::empty(),
                inserts: Seq::empty(),
            }
        } else {
            ChildDiff {
                slots: pad(sim, max_len(prev, next)),
                removes: w.removes,
                inserts: w.inserts,
            }
        }
    }
}

/// A key map points at positions that hold the key, and covers every key.
pub proof fn lemma_key_map(keys: Seq<Key>)
    ensures
        forall|k: Seq<char>| #[trigger]
            key_map(keys).contains_key(k) ==> 0 <= key_map(keys)[k] < keys.len()
                && keys[key_map(keys)[k]] == Some(k),
        forall|j: int|
            0 <= j < keys.len() && (#[trigger] keys[j]) is Some ==> key_map(keys).contains_key(
                keys[j]->0,
            ) && key_map(keys)[keys[j]->0] >= j,
    decreases keys.len(),
{
    if keys.len() != 0 {
        let rest = keys.drop_last();
        lemma_key_map(rest);
        assert forall|k: Seq<char>| #[trigger] key_map(keys).contains_key(k) implies 0 <= key_map(
            keys,
        )[k] < keys.len() && keys[key_map(keys)[k]] == Some(k) by {
            if keys.last() != Some(k) {
                assert(key_map(rest).contains_key(k));
                assert(rest[key_map(rest)[k]] == Some(k));
            }
        }
        assert forall|j: int| 0 <= j < keys.len() && (#[trigger] keys[j]) is Some implies key_map(
            keys,
        ).contains_key(keys[j]->0) && key_map(keys)[keys[j]->0] >= j by {
            if j < rest.len() {
                assert(rest[j] == keys[j]);
            }
        }
    }
}

/// The free positions are the positions without a key, in rising order.
pub proof fn lemma_free_positions(keys: Seq<Key>)
    ensures
        free_positions(keys).len() <= keys.len(),
        forall|r: int|
            0 <= r < free_positions(keys).len() ==> 0 <= (#[trigger] free_positions(keys)[r])
                < keys.len() && keys[free_positions(keys)[r]] is None,
        forall|r: int, s: int|
            0 <= r < s < free_positions(keys).len() ==> free_positions(keys)[r] < free_positions(
                keys,
            )[s],
        forall|j: int|
            0 <= j < keys.len() && (#[trigger] keys[j]) is None ==> free_positions(
                keys.take(j),
            ).len() < free_positions(keys).len() && free_positions(keys)[free_positions(
                keys.take(j),
            ).len() as int] == j,
        forall|j: int|
            0 <= j <= keys.len() ==> (#[trigger] free_positions(keys.take(j))).len()
                <= free_positions(keys).len(),
    decreases keys.len(),
{
    if keys.len() != 0 {
        let rest = keys.drop_last();
        let n = keys.len() - 1;
        lemma_free_positions(rest);
        let f = free_positions(keys);
        let g = free_positions(rest);
        assert forall|r: int| 0 <= r < f.len() implies 0 <= (#[trigger] f[r]) < keys.len()
            && keys[f[r]] is None by {
            if r < g.len() {
                assert(f[r] == g[r]);
                assert(rest[g[r]] == keys[g[r]]);
            }
        }
        assert forall|r: int, s: int| 0 <= r < s < f.len() implies f[r] < f[s] by {
            if s < g.len() {
                assert(f[r] == g[r] && f[s] == g[s]);
            } else {
                assert(f[r] == g[r]);
            }
        }
        assert forall|j: int| 0 <= j <= keys.len() implies (#[trigger] free_positions(
            keys.take(j),
        )).len() <= f.len() by {
            if j <= n {
                assert(keys.take(j) =~= rest.take(j));
            } else {
                assert(keys.take(j) =~= keys);
            }
        }
        assert forall|j: int| 0 <= j < keys.len() && (#[trigger] keys[j]) is None implies free_positions(
            keys.take(j),
        ).len() < f.len() && f[free_positions(keys.take(j)).len() as int] == j by {
            if j < n {
                assert(keys.take(j) =~= rest.take(j));
                assert(rest[j] == keys[j]);
                assert(f[free_positions(rest.take(j)).len() as int] == g[free_positions(
                    rest.take(j),
                ).len() as int]);
            } else {
                assert(keys.take(j) =~= rest);
            }
        }
    } else {
        assert forall|j: int| 0 <= j <= keys.len() implies (#[trigger] free_positions(
            keys.take(j),
        )).len() <= free_positions(keys).len() by {
            assert(keys.take(j) =~= keys);
        }
    }
}

/// The items of the first `k + 1` slots are those of the first `k`, and
/// the item of slot `k` where it is filled.
pub proof fn lemma_filled_step(slots: Seq<Option<int>>, k: int)
    requires
        0 <= k < slots.len(),
    ensures
        filled(slots.take(k + 1)) == (match slots[k] {
            Some(j) => filled(slots.take(k)).push(j),
            None => filled(slots.take(k)),
        }),
{
    assert(slots.take(k + 1).drop_last() =~= slots.take(k));
    assert(slots.take(k + 1).last() == slots[k]);
}

/// The items of the first `k` slots open the list of all items.
pub proof fn lemma_filled_prefix(slots: Seq<Option<int>>, k: int)
    requires
        0 <= k <= slots.len(),
    ensures
        filled(slots.take(k)).len() <= filled(slots).len(),
        forall|c: int|
            0 <= c < filled(slots.take(k)).len() ==> #[trigger] filled(slots.take(k))[c] == filled(
                slots,
            )[c],
    decreases slots.len() - k,
{
    if k == slots.len() {
        assert(slots.take(k) =~= slots);
    } else {
        lemma_filled_prefix(slots, k + 1);
        lemma_filled_step(slots, k);
        let short = filled(slots.take(k));
        let long = filled(slots.take(k + 1));
        assert forall|c: int| 0 <= c < short.len() implies #[trigger] short[c] == filled(
            slots,
        )[c] by {
            assert(short[c] == long[c]);
            assert(long[c] == filled(slots)[c]);
        }
    }
}

/// Every item of the simulated list is a position of the new list.
pub open spec fn items_valid(sim: Seq<Option<int>>, n: int) -> bool {
    forall|p: int| 0 <= p < sim.len() && (#[trigger] sim[p]) is Some ==> 0 <= sim[p]->0 < n
}

/// The items among the first `upto` new positions are positions below it.
pub proof fn lemma_appended_valid(prev: Seq<Key>, next: Seq<Key>, upto: int)
    ensures
        items_valid(appended(prev, next, upto), upto),
        forall|p: int|
            0 <= p < appended(prev, next, upto).len() ==> (#[trigger] appended(
                prev,
                next,
                upto,
            )[p]) is Some,
    decreases upto,
{
    if upto > 0 {
        lemma_appended_valid(prev, next, upto - 1);
    }
}

/// The simulated list holds positions of the new list only.
pub proof fn lemma_simulated_valid(prev: Seq<Key>, next: Seq<Key>)
    ensures
        items_valid(simulated(prev, next), next.len() as int),
{
    lemma_key_map(next);
    lemma_free_positions(next);
    lemma_appended_valid(prev, next, next.len() as int);
    let sim = simulated(prev, next);
    assert forall|p: int| 0 <= p < sim.len() && (#[trigger] sim[p]) is Some implies 0 <= sim[p]->0
        < next.len() by {
        if p < prev.len() {
            assert(sim[p] == slot(prev, next, p));
        } else {
            assert(sim[p] == appended(prev, next, next.len() as int)[p - prev.len()]);
        }
    }
}

} // verus!
