//! The keyed diff of two lists of children.

use super::model::{
    all_free, appended, count_empty, drain, dropped, filled, free_positions, identity_slots, is_new,
    item_key, items_valid, key_map, last_free, lemma_free_positions, lemma_key_map,
    lemma_simulated_valid, matched, max_len, pad, reconcile, simulated, slot, spec_diff_children,
    start, step, ChildDiff, Key, Walk,
};
use crate::str_map::StrMap;
use crate::transaction::{insert_models, remove_models, Order};
use crate::utils::{key_text, opt_text};
use crate::view::{same_key, View};
use vstd::prelude::*;
use vstd::view::View as _;

verus! {

/// The keys of a list of views.
pub open spec fn view_keys(views: Seq<View>) -> Seq<Key> {
    Seq::new(views.len(), |i: int| views[i].spec_key())
}

/// A slot of the simulated list, as mathematics.
pub open spec fn slot_model(item: Option<usize>) -> Option<int> {
    match item {
        Some(j) => Some(j as int),
        None => None,
    }
}

/// The simulated list, as mathematics.
pub open spec fn sim_model(sim: Seq<Option<usize>>) -> Seq<Option<int>> {
    Seq::new(sim.len(), |i: int| slot_model(sim[i]))
}

/// Recorded removes, as mathematics.
pub open spec fn borrowed_removes(removes: Seq<(usize, Option<&String>)>) -> Seq<(int, Key)> {
    Seq::new(removes.len(), |i: int| (removes[i].0 as int, opt_text(removes[i].1)))
}

/// Recorded inserts, as mathematics.
pub open spec fn borrowed_inserts(inserts: Seq<(Option<&String>, usize)>) -> Seq<(Key, int)> {
    Seq::new(inserts.len(), |i: int| (opt_text(inserts[i].0), inserts[i].1 as int))
}

/// Whether `children` holds, slot by slot, the views of `next` that
/// `slots` names.
pub open spec fn places(
    children: Seq<Option<&View>>,
    next: Seq<View>,
    slots: Seq<Option<int>>,
) -> bool {
    &&& children.len() == slots.len()
    &&& forall|i: int|
        0 <= i < slots.len() ==> match #[trigger] slots[i] {
            Some(j) => 0 <= j < next.len() && children[i] == Some(&next[j]),
            None => children[i] is None,
        }
}

/// Positions, as mathematics.
pub open spec fn position_models(positions: Seq<usize>) -> Seq<int> {
    Seq::new(positions.len(), |i: int| positions[i] as int)
}

/// The diff of two lists of children: for each position the new view that
/// stands there, if any, and the moves that bring the children into the
/// new order.
#[derive(Debug)]
pub struct DiffChildren<'a> {
    pub next_len: usize,
    pub children: Vec<Option<&'a View>>,
    pub indices: Vec<usize>,
    pub removes: Vec<(usize, Option<&'a String>)>,
    pub inserts: Vec<(Option<&'a String>, usize)>,
}

/// For each key its last position, and the positions without a key.
struct KeyIndices {
    keys: StrMap<usize>,
    free: Vec<usize>,
}

impl KeyIndices {
    spec fn describes(self, keys: Seq<Key>) -> bool {
        &&& forall|k: Seq<char>| #[trigger]
            self.keys@.contains_key(k) <==> key_map(keys).contains_key(k)
        &&& forall|k: Seq<char>| #[trigger]
            self.keys@.contains_key(k) ==> self.keys@[k] as int == key_map(keys)[k]
        &&& self.free@.len() == free_positions(keys).len()
        &&& forall|r: int|
            0 <= r < self.free@.len() ==> (#[trigger] self.free@[r]) as int == free_positions(
                keys,
            )[r]
    }

    fn new(children: &[View]) -> (r: Self)
        ensures
            r.describes(view_keys(children@)),
    {
        let mut keys: StrMap<usize> = StrMap::new();
        let mut free: Vec<usize> = Vec::new();
        let ghost all = view_keys(children@);
        let mut i: usize = 0;
        while i < children.len()
            invariant
                i <= children.len(),
                all == view_keys(children@),
                (KeyIndices { keys, free }).describes(all.take(i as int)),
            decreases children.len() - i,
        {
            proof {
                assert(all.take(i + 1).drop_last() =~= all.take(i as int));
                assert(all.take(i + 1).last() == all[i as int]);
            }
            let ghost held = KeyIndices { keys, free };
            match children[i].key() {
                Some(key) => {
                    keys.insert(key.clone(), i);
                    proof {
                        assert(all[i as int] == Some(key@));
                        assert(key_map(all.take(i + 1)) == key_map(all.take(i as int)).insert(
                            key@,
                            i as int,
                        ));
                        assert(free_positions(all.take(i + 1)) == free_positions(
                            all.take(i as int),
                        ));
                    }
                },
                None => {
                    free.push(i);
                    proof {
                        assert(all[i as int] is None);
                        assert(key_map(all.take(i + 1)) == key_map(all.take(i as int)));
                        assert(free_positions(all.take(i + 1)) == free_positions(
                            all.take(i as int),
                        ).push(i as int));
                    }
                },
            }
            proof {
                let grown = KeyIndices { keys, free };
                assert(held.describes(all.take(i as int)));
                assert forall|r: int| 0 <= r < grown.free@.len() implies (#[trigger] grown.free@[r]) as int
                    == free_positions(all.take(i + 1))[r] by {
                    if r < held.free@.len() {
                        assert(held.free@[r] as int == free_positions(all.take(i as int))[r]);
                    }
                }
                assert forall|k: Seq<char>| #[trigger] grown.keys@.contains_key(k) implies grown.keys@[k] as int
                    == key_map(all.take(i + 1))[k] by {
                    if held.keys@.contains_key(k) {
                        assert(held.keys@[k] as int == key_map(all.take(i as int))[k]);
                    }
                }
                assert forall|k: Seq<char>| #[trigger]
                    grown.keys@.contains_key(k) <==> key_map(all.take(i + 1)).contains_key(k) by {
                    assert(held.keys@.contains_key(k) <==> key_map(all.take(i as int)).contains_key(k));
                }
                assert(grown.describes(all.take(i + 1)));
            }
            i = i + 1;
        }
        proof {
            assert(all.take(i as int) =~= all);
        }
        KeyIndices { keys, free }
    }
}

/// Builds the simulated list: the slot of each old position, then the new
/// items that stand against no old one. Also counts the empty slots.
fn simulate(prev: &[View], next: &[View], prev_index: &KeyIndices, next_index: &KeyIndices) -> (r: (
    Vec<Option<usize>>,
    usize,
))
    requires
        prev_index.describes(view_keys(prev@)),
        next_index.describes(view_keys(next@)),
    ensures
        sim_model(r.0@) == simulated(view_keys(prev@), view_keys(next@)),
        r.1 as int == count_empty(matched(view_keys(prev@), view_keys(next@))),
{
    let ghost pk = view_keys(prev@);
    let ghost nk = view_keys(next@);
    let ghost free = free_positions(nk);
    proof {
        lemma_key_map(nk);
        lemma_free_positions(nk);
        lemma_free_positions(pk);
    }
    let mut sim: Vec<Option<usize>> = Vec::new();
    let mut free_index: usize = 0;
    let free_count = next_index.free.len();
    let mut deleted: usize = 0;
    let mut i: usize = 0;
    while i < prev.len()
        invariant
            i <= prev.len(),
            pk == view_keys(prev@),
            nk == view_keys(next@),
            free == free_positions(nk),
            next_index.describes(nk),
            free_count == free.len(),
            sim@.len() == i,
            sim_model(sim@) == matched(pk, nk).take(i as int),
            deleted as int == count_empty(matched(pk, nk).take(i as int)),
            deleted <= i,
            free_index <= free_count,
            free_index as int == (if free_positions(pk.take(i as int)).len() < free.len() {
                free_positions(pk.take(i as int)).len() as int
            } else {
                free.len() as int
            }),
            forall|k: Seq<char>| #[trigger]
                key_map(nk).contains_key(k) ==> 0 <= key_map(nk)[k] < nk.len(),
        decreases prev.len() - i,
    {
        let ghost before = sim@;
        proof {
            assert(pk.take(i + 1).drop_last() =~= pk.take(i as int));
            assert(pk.take(i + 1).last() == pk[i as int]);
            assert(matched(pk, nk).take(i + 1).drop_last() =~= matched(pk, nk).take(i as int));
            assert(matched(pk, nk).take(i + 1).last() == slot(pk, nk, i as int));
        }
        let item: Option<usize> = match prev[i].key() {
            Some(key) => match next_index.keys.get(key.as_str()) {
                Some(position) => Some(*position),
                None => None,
            },
            None => {
                if free_index < free_count {
                    let position = next_index.free[free_index];
                    free_index = free_index + 1;
                    Some(position)
                } else {
                    None
                }
            },
        };
        assert(slot_model(item) == slot(pk, nk, i as int));
        if item.is_none() {
            deleted = deleted + 1;
        }
        sim.push(item);
        proof {
            assert(sim_model(sim@) =~= matched(pk, nk).take(i + 1)) by {
                assert forall|p: int| 0 <= p < i + 1 implies sim_model(sim@)[p] == matched(
                    pk,
                    nk,
                ).take(i + 1)[p] by {
                    if p < i {
                        assert(sim_model(before)[p] == matched(pk, nk).take(i as int)[p]);
                    }
                }
            }
        }
        i = i + 1;
    }
    proof {
        assert(pk.take(i as int) =~= pk);
        assert(matched(pk, nk).take(i as int) =~= matched(pk, nk));
    }
    let last_free_index = if free_index >= free_count {
        next.len()
    } else {
        next_index.free[free_index]
    };
    assert(last_free_index as int == last_free(pk, nk));
    let mut j: usize = 0;
    while j < next.len()
        invariant
            j <= next.len(),
            pk == view_keys(prev@),
            nk == view_keys(next@),
            prev_index.describes(pk),
            last_free_index as int == last_free(pk, nk),
            sim_model(sim@) == matched(pk, nk) + appended(pk, nk, j as int),
        decreases next.len() - j,
    {
        let ghost before = sim@;
        let is_new_item = match next[j].key() {
            Some(key) => !prev_index.keys.contains_key(key.as_str()),
            None => j >= last_free_index,
        };
        assert(is_new_item == is_new(pk, nk, j as int));
        assert(appended(pk, nk, j + 1) == (if is_new(pk, nk, j as int) {
            appended(pk, nk, j as int).push(Some(j as int))
        } else {
            appended(pk, nk, j as int)
        }));
        if is_new_item {
            sim.push(Some(j));
            proof {
                let grown = matched(pk, nk) + appended(pk, nk, j + 1);
                let known = matched(pk, nk) + appended(pk, nk, j as int);
                assert(sim_model(before) == known);
                assert(sim_model(before).len() == before.len());
                assert(sim@ == before.push(Some(j)));
                assert(grown.len() == known.len() + 1);
                assert(sim_model(sim@) =~= grown) by {
                    assert forall|p: int| 0 <= p < grown.len() implies sim_model(sim@)[p]
                        == grown[p] by {
                        if p < before.len() {
                            assert(sim@[p] == before[p]);
                            assert(known[p] == grown[p]);
                            assert(sim_model(before)[p] == (matched(pk, nk) + appended(
                                pk,
                                nk,
                                j as int,
                            ))[p]);
                        }
                    }
                }
            }
        }
        j = j + 1;
    }
    (sim, deleted)
}

/// The walk over the simulated list, and the taking out of what it leaves
/// behind: the moves that bring the list into the order of `next`.
fn walk<'a>(next: &'a [View], next_index: &KeyIndices, sim: Vec<Option<usize>>) -> (r: (
    Vec<(usize, Option<&'a String>)>,
    Vec<(Option<&'a String>, usize)>,
))
    requires
        next_index.describes(view_keys(next@)),
        items_valid(sim_model(sim@), next@.len() as int),
    ensures
        ({
            let w = drain(
                view_keys(next@),
                reconcile(view_keys(next@), start(sim_model(sim@))),
            );
            borrowed_removes(r.0@) == w.removes && borrowed_inserts(r.1@) == w.inserts
        }),
{
    let ghost nk = view_keys(next@);
    let ghost begin = start(sim_model(sim@));
    let mut sim = sim;
    let mut removes: Vec<(usize, Option<&'a String>)> = Vec::new();
    let mut inserts: Vec<(Option<&'a String>, usize)> = Vec::new();
    let mut at: usize = 0;
    let mut k: usize = 0;
    proof {
        lemma_key_map(nk);
        assert(borrowed_removes(removes@) =~= Seq::empty());
        assert(borrowed_inserts(inserts@) =~= Seq::empty());
    }
    while k < next.len()
        invariant
            k <= next.len(),
            at <= sim@.len(),
            nk == view_keys(next@),
            next_index.describes(nk),
            items_valid(sim_model(sim@), next@.len() as int),
            forall|j: int|
                0 <= j < nk.len() && (#[trigger] nk[j]) is Some ==> key_map(nk).contains_key(
                    nk[j]->0,
                ),
            reconcile(
                nk,
                Walk {
                    sim: sim_model(sim@),
                    at: at as int,
                    k: k as int,
                    removes: borrowed_removes(removes@),
                    inserts: borrowed_inserts(inserts@),
                },
            ) == reconcile(nk, begin),
        decreases next.len() - k, sim@.len(),
    {
        let ghost w = Walk {
            sim: sim_model(sim@),
            at: at as int,
            k: k as int,
            removes: borrowed_removes(removes@),
            inserts: borrowed_inserts(inserts@),
        };
        let ghost old_sim = sim@;
        let ghost old_removes = removes@;
        let ghost old_inserts = inserts@;
        let in_range = at < sim.len();
        let head: Option<usize> = if in_range {
            sim[at]
        } else {
            None
        };
        proof {
            if in_range {
                assert(sim_model(sim@)[at as int] == slot_model(head));
            }
        }
        if in_range && head.is_none() {
            sim.remove(at);
            removes.push((at, None));
        } else {
            let wanted_key = next[k].key();
            let head_key: Option<&'a String> = match head {
                Some(j) => next[j].key(),
                None => None,
            };
            assert(opt_text(head_key) == item_key(nk, slot_model(head)));
            assert(opt_text(wanted_key) == nk[k as int]);
            if head.is_some() && same_key(head_key, wanted_key) {
                at = at + 1;
                k = k + 1;
            } else if wanted_key.is_some() {
                let pull = match head_key {
                    Some(key) => match next_index.keys.get(key.as_str()) {
                        Some(target) => *target != k + 1,
                        None => true,
                    },
                    None => false,
                };
                if pull {
                    sim.remove(at);
                    removes.push((at, head_key));
                }
                inserts.push((wanted_key, k));
                k = k + 1;
            } else if head_key.is_some() {
                sim.remove(at);
                removes.push((at, head_key));
            } else {
                k = k + 1;
            }
        }
        proof {
            let after = Walk {
                sim: sim_model(sim@),
                at: at as int,
                k: k as int,
                removes: borrowed_removes(removes@),
                inserts: borrowed_inserts(inserts@),
            };
            let expected = step(nk, w);
            if sim@.len() != old_sim.len() {
                assert(sim@ == old_sim.remove(w.at));
                assert(sim_model(sim@) =~= sim_model(old_sim).remove(w.at));
                assert(items_valid(sim_model(sim@), next@.len() as int)) by {
                    assert forall|p: int|
                        0 <= p < sim_model(sim@).len() && (#[trigger] sim_model(
                            sim@,
                        )[p]) is Some implies 0 <= sim_model(sim@)[p]->0 < next@.len() by {
                        let q = if p < w.at {
                            p
                        } else {
                            p + 1
                        };
                        assert(sim_model(sim@)[p] == sim_model(old_sim)[q]);
                    }
                }
            }
            if removes@.len() != old_removes.len() {
                assert(borrowed_removes(removes@) =~= borrowed_removes(old_removes).push(
                    (removes@.last().0 as int, opt_text(removes@.last().1)),
                ));
            }
            if inserts@.len() != old_inserts.len() {
                assert(borrowed_inserts(inserts@) =~= borrowed_inserts(old_inserts).push(
                    (opt_text(inserts@.last().0), inserts@.last().1 as int),
                ));
            }
            assert(after.sim =~= expected.sim);
            assert(after.removes =~= expected.removes);
            assert(after.inserts =~= expected.inserts);
            assert(after == expected);
        }
    }
    let ghost end = Walk {
        sim: sim_model(sim@),
        at: at as int,
        k: k as int,
        removes: borrowed_removes(removes@),
        inserts: borrowed_inserts(inserts@),
    };
    assert(end == reconcile(nk, begin));
    while at < sim.len()
        invariant
            at <= sim@.len(),
            nk == view_keys(next@),
            items_valid(sim_model(sim@), next@.len() as int),
            drain(
                nk,
                Walk {
                    sim: sim_model(sim@),
                    at: at as int,
                    k: k as int,
                    removes: borrowed_removes(removes@),
                    inserts: borrowed_inserts(inserts@),
                },
            ) == drain(nk, end),
        decreases sim@.len() - at,
    {
        let ghost w = Walk {
            sim: sim_model(sim@),
            at: at as int,
            k: k as int,
            removes: borrowed_removes(removes@),
            inserts: borrowed_inserts(inserts@),
        };
        let ghost old_sim = sim@;
        let ghost old_removes = removes@;
        let head = sim[at];
        assert(sim_model(sim@)[at as int] == slot_model(head));
        let head_key: Option<&'a String> = match head {
            Some(j) => next[j].key(),
            None => None,
        };
        assert(opt_text(head_key) == item_key(nk, slot_model(head)));
        sim.remove(at);
        removes.push((at, head_key));
        proof {
            let after = Walk {
                sim: sim_model(sim@),
                at: at as int,
                k: k as int,
                removes: borrowed_removes(removes@),
                inserts: borrowed_inserts(inserts@),
            };
            let expected = dropped(w, item_key(nk, w.sim[w.at]));
            assert(sim_model(sim@) =~= sim_model(old_sim).remove(w.at));
            assert(items_valid(sim_model(sim@), next@.len() as int)) by {
                assert forall|p: int|
                    0 <= p < sim_model(sim@).len() && (#[trigger] sim_model(sim@)[p]) is Some implies 0
                        <= sim_model(sim@)[p]->0 < next@.len() by {
                    let q = if p < w.at {
                        p
                    } else {
                        p + 1
                    };
                    assert(sim_model(sim@)[p] == sim_model(old_sim)[q]);
                }
            }
            assert(borrowed_removes(removes@) =~= borrowed_removes(old_removes).push(
                (removes@.last().0 as int, opt_text(removes@.last().1)),
            ));
            assert(after.sim =~= expected.sim);
            assert(after.removes =~= expected.removes);
            assert(after == expected);
        }
    }
    (removes, inserts)
}

/// The views of `next` that the slots name, filled up with empty places
/// to `len`, and the positions of the filled slots.
fn place<'a>(next: &'a [View], slots: &Vec<Option<usize>>, len: usize) -> (r: (
    Vec<Option<&'a View>>,
    Vec<usize>,
))
    requires
        items_valid(sim_model(slots@), next@.len() as int),
    ensures
        places(r.0@, next@, pad(sim_model(slots@), len as int)),
        position_models(r.1@) == filled(pad(sim_model(slots@), len as int)),
{
    let ghost model = sim_model(slots@);
    let mut children: Vec<Option<&'a View>> = Vec::new();
    let mut indices: Vec<usize> = Vec::new();
    let mut i: usize = 0;
    proof {
        assert(position_models(indices@) =~= filled(model.take(0)));
    }
    while i < slots.len()
        invariant
            i <= slots.len(),
            model == sim_model(slots@),
            items_valid(model, next@.len() as int),
            places(children@, next@, model.take(i as int)),
            position_models(indices@) == filled(model.take(i as int)),
        decreases slots.len() - i,
    {
        let ghost held = children@;
        let ghost held_indices = indices@;
        proof {
            assert(model.take(i + 1).drop_last() =~= model.take(i as int));
            assert(model.take(i + 1).last() == model[i as int]);
            assert(model[i as int] == slot_model(slots@[i as int]));
        }
        match slots[i] {
            Some(j) => {
                children.push(Some(&next[j]));
                indices.push(j);
                proof {
                    assert(position_models(indices@) =~= position_models(held_indices).push(
                        j as int,
                    ));
                }
            },
            None => {
                children.push(None);
            },
        }
        proof {
            assert forall|p: int| 0 <= p < i + 1 implies match #[trigger] model.take(i + 1)[p] {
                Some(j) => 0 <= j < next@.len() && children@[p] == Some(&next@[j]),
                None => children@[p] is None,
            } by {
                if p < i {
                    assert(model.take(i as int)[p] == model.take(i + 1)[p]);
                    assert(children@[p] == held[p]);
                }
            }
        }
        i = i + 1;
    }
    proof {
        assert(model.take(i as int) =~= model);
    }
    let ghost padded = pad(model, len as int);
    proof {
        assert(padded.take(model.len() as int) =~= model);
    }
    while children.len() < len
        invariant
            model.len() <= children@.len(),
            children@.len() <= padded.len(),
            padded == pad(model, len as int),
            places(children@, next@, padded.take(children@.len() as int)),
            position_models(indices@) == filled(padded.take(children@.len() as int)),
        decreases len - children@.len(),
    {
        let ghost held = children@;
        let ghost n = children@.len() as int;
        proof {
            assert(padded.take(n + 1).drop_last() =~= padded.take(n));
            assert(padded.take(n + 1).last() is None);
        }
        children.push(None);
        proof {
            assert forall|p: int| 0 <= p < n + 1 implies match #[trigger] padded.take(n + 1)[p] {
                Some(j) => 0 <= j < next@.len() && children@[p] == Some(&next@[j]),
                None => children@[p] is None,
            } by {
                if p < n {
                    assert(padded.take(n)[p] == padded.take(n + 1)[p]);
                    assert(children@[p] == held[p]);
                }
            }
        }
    }
    proof {
        assert(padded.take(children@.len() as int) =~= padded);
    }
    (children, indices)
}

pub fn diff_children<'a>(prev_children: &'a [View], next_children: &'a [View]) -> (diff:
    DiffChildren<'a>)
    ensures
        ({
            let d = spec_diff_children(view_keys(prev_children@), view_keys(next_children@));
            &&& places(diff.children@, next_children@, d.slots)
            &&& position_models(diff.indices@) == filled(d.slots)
            &&& borrowed_removes(diff.removes@) == d.removes
            &&& borrowed_inserts(diff.inserts@) == d.inserts
        }),
        diff.next_len == next_children@.len(),
{
    let ghost pk = view_keys(prev_children@);
    let ghost nk = view_keys(next_children@);
    let prev_len = prev_children.len();
    let next_len = next_children.len();
    let max_children = if prev_len > next_len {
        prev_len
    } else {
        next_len
    };
    let next_indices = KeyIndices::new(next_children);
    let prev_indices = KeyIndices::new(prev_children);
    if next_indices.free.len() == next_len || prev_indices.free.len() == prev_len {
        let mut slots: Vec<Option<usize>> = Vec::new();
        let mut i: usize = 0;
        while i < next_len
            invariant
                i <= next_len,
                next_len == next_children@.len(),
                slots@.len() == i,
                forall|p: int| 0 <= p < i ==> #[trigger] slots@[p] == Some(p as usize),
            decreases next_len - i,
        {
            slots.push(Some(i));
            i = i + 1;
        }
        proof {
            assert(sim_model(slots@) =~= identity_slots(nk.len()));
        }
        let (children, indices) = place(next_children, &slots, max_children);
        let diff = DiffChildren {
            next_len,
            children,
            indices,
            removes: Vec::new(),
            inserts: Vec::new(),
        };
        proof {
            assert(borrowed_removes(diff.removes@) =~= Seq::empty());
            assert(borrowed_inserts(diff.inserts@) =~= Seq::empty());
        }
        diff
    } else {
        let (sim, deleted) = simulate(prev_children, next_children, &prev_indices, &next_indices);
        proof {
            lemma_simulated_valid(pk, nk);
        }
        let (children, indices) = place(next_children, &sim, max_children);
        let (removes, inserts) = walk(next_children, &next_indices, sim);
        if removes.len() == deleted && inserts.len() == 0 {
            let diff = DiffChildren {
                next_len,
                children,
                indices,
                removes: Vec::new(),
                inserts: Vec::new(),
            };
            proof {
                assert(borrowed_removes(diff.removes@) =~= Seq::empty());
                assert(borrowed_inserts(diff.inserts@) =~= Seq::empty());
            }
            diff
        } else {
            DiffChildren { next_len, children, indices, removes, inserts }
        }
    }
}

/// An optional key, copied.
fn copy_key(key: Option<&String>) -> (copy: Option<String>)
    ensures
        key_text(copy) == opt_text(key),
{
    match key {
        Some(k) => Some(k.clone()),
        None => None,
    }
}

impl<'a> DiffChildren<'a> {
    /// The length of the new list.
    pub fn next_len(&self) -> (n: usize)
        ensures
            n == self.next_len,
    {
        self.next_len
    }

    /// The moves, with keys of their own.
    pub fn into_order(self) -> (order: Order)
        ensures
            remove_models(order.spec_removes()) == borrowed_removes(self.removes@),
            insert_models(order.spec_inserts()) == borrowed_inserts(self.inserts@),
    {
        let mut removes: Vec<(usize, Option<String>)> = Vec::new();
        let mut i: usize = 0;
        while i < self.removes.len()
            invariant
                i <= self.removes@.len(),
                removes@.len() == i,
                forall|p: int|
                    0 <= p < i ==> (#[trigger] removes@[p]).0 == self.removes@[p].0
                        && key_text(removes@[p].1) == opt_text(
                        self.removes@[p].1,
                    ),
            decreases self.removes@.len() - i,
        {
            let (position, key) = self.removes[i];
            removes.push((position, copy_key(key)));
            i = i + 1;
        }
        let mut inserts: Vec<(Option<String>, usize)> = Vec::new();
        let mut j: usize = 0;
        while j < self.inserts.len()
            invariant
                j <= self.inserts@.len(),
                inserts@.len() == j,
                forall|p: int|
                    0 <= p < j ==> (#[trigger] inserts@[p]).1 == self.inserts@[p].1
                        && key_text(inserts@[p].0) == opt_text(
                        self.inserts@[p].0,
                    ),
            decreases self.inserts@.len() - j,
        {
            let (key, position) = self.inserts[j];
            inserts.push((copy_key(key), position));
            j = j + 1;
        }
        proof {
            assert(remove_models(removes@) =~= borrowed_removes(self.removes@));
            assert(insert_models(inserts@) =~= borrowed_inserts(self.inserts@));
        }
        Order::new(removes, inserts)
    }
}

} // verus!
