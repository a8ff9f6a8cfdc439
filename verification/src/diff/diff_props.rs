//! The diff of two property maps.

use crate::prop::{same, same_entries, Prop, PropView, Props};
use vstd::prelude::*;

verus! {

/// Whether the patch has an entry for `k`: the name went away, came new,
/// or changed its value.
pub open spec fn patched(
    prev: Map<Seq<char>, PropView>,
    next: Map<Seq<char>, PropView>,
    k: Seq<char>,
) -> bool {
    if prev.contains_key(k) {
        !next.contains_key(k) || !same(prev[k], next[k])
    } else {
        next.contains_key(k)
    }
}

/// The patch that leads from one value to another: for two objects the
/// patch between them, null where they do not differ; else the new value.
pub open spec fn spec_diff_props(prev: PropView, next: PropView) -> PropView
    decreases prev, 1int,
{
    match prev {
        PropView::Object(p) => match next {
            PropView::Object(q) => {
                if p.dom().finite() {
                    let patch = spec_diff_object(p, q);
                    if patch.dom() =~= Set::empty() {
                        PropView::Null
                    } else {
                        PropView::Object(patch)
                    }
                } else {
                    next
                }
            },
            _ => next,
        },
        _ => next,
    }
}

/// The patch that leads from one map to another. A name that went away is
/// set to null; a name that came new carries its value; a name whose value
/// changed carries the patch between the two values.
pub open spec fn spec_diff_object(
    prev: Map<Seq<char>, PropView>,
    next: Map<Seq<char>, PropView>,
) -> Map<Seq<char>, PropView>
    decreases prev, 0int,
{
    Map::new(
        |k: Seq<char>| patched(prev, next, k),
        |k: Seq<char>|
            if !next.contains_key(k) {
                PropView::Null
            } else if prev.dom().finite() && prev.contains_key(k) {
                spec_diff_props(prev[k], next[k])
            } else {
                next[k]
            },
    )
}

pub fn diff_props(prev: &Prop, next: &Prop) -> (patch: Prop)
    ensures
        patch@ == spec_diff_props(prev@, next@),
    decreases prev, 1int,
{
    match prev {
        Prop::Object(prev_object) => match next {
            Prop::Object(next_object) => {
                prev_object.facts();
                match diff_props_object(prev_object, next_object) {
                    Some(object) => Prop::Object(object),
                    None => Prop::Null,
                }
            },
            _ => next.clone(),
        },
        _ => next.clone(),
    }
}

pub fn diff_props_object(prev_object: &Props, next_object: &Props) -> (r: Option<Props>)
    ensures
        match r {
            Some(patch) => patch@ == spec_diff_object(prev_object@, next_object@) && !(patch@.dom()
                =~= Set::empty()),
            None => spec_diff_object(prev_object@, next_object@).dom() =~= Set::empty(),
        },
    decreases prev_object, 0int,
{
    let ghost p = prev_object@;
    let ghost q = next_object@;
    let ghost d = spec_diff_object(p, q);
    let ghost names = prev_object.keys();
    let ghost new_names = next_object.keys();
    prev_object.facts();
    next_object.facts();
    let mut result = Props::new();
    let mut i: usize = 0;
    while i < prev_object.len()
        invariant
            i <= names.len(),
            p == prev_object@,
            q == next_object@,
            d == spec_diff_object(p, q),
            names == prev_object.keys(),
            p.dom().finite(),
            forall|a: int|
                0 <= a < names.len() ==> p.contains_key(#[trigger] names[a]),
            forall|k: Seq<char>|
                #![trigger result@.contains_key(k)]
                result@.contains_key(k) <==> d.contains_key(k) && names.take(i as int).contains(
                    k,
                ),
            forall|k: Seq<char>| #[trigger] result@.contains_key(k) ==> result@[k] == d[k],
        decreases names.len() - i,
    {
        let key = prev_object.key_at(i);
        let prev_value = prev_object.value_at(i);
        let ghost name = names[i as int];
        let ghost held = result@;
        match next_object.find(key.as_str()) {
            None => {
                result.insert(key.clone(), Prop::Null);
            },
            Some(next_value) => {
                if !prev_value.same(next_value) {
                    result.insert(key.clone(), diff_props(prev_value, next_value));
                }
            },
        }
        proof {
            let done = names.take(i as int);
            let grown = names.take(i + 1);
            assert(grown =~= done.push(name));
            assert forall|k: Seq<char>|
                #![trigger result@.contains_key(k)]
                result@.contains_key(k) <==> d.contains_key(k) && grown.contains(k) by {
                assert(held.contains_key(k) <==> d.contains_key(k) && done.contains(k));
                if done.contains(k) {
                    let a = done.index_of(k);
                    assert(grown[a] == k);
                }
                if grown.contains(k) && k != name {
                    let a = grown.index_of(k);
                    assert(done[a] == k);
                }
                if k == name {
                    assert(grown[i as int] == k);
                }
            }
            assert forall|k: Seq<char>| #[trigger] result@.contains_key(k) implies result@[k]
                == d[k] by {
                if k != name {
                    assert(held.contains_key(k));
                }
            }
        }
        i = i + 1;
    }
    proof {
        assert(names.take(i as int) =~= names);
    }
    let mut j: usize = 0;
    while j < next_object.len()
        invariant
            j <= new_names.len(),
            p == prev_object@,
            q == next_object@,
            d == spec_diff_object(p, q),
            new_names == next_object.keys(),
            names == prev_object.keys(),
            forall|k: Seq<char>| #[trigger] p.contains_key(k) ==> names.contains(k),
            forall|a: int|
                0 <= a < new_names.len() ==> q.contains_key(#[trigger] new_names[a]),
            forall|k: Seq<char>|
                #![trigger result@.contains_key(k)]
                result@.contains_key(k) <==> d.contains_key(k) && (names.contains(k)
                    || new_names.take(j as int).contains(k)),
            forall|k: Seq<char>| #[trigger] result@.contains_key(k) ==> result@[k] == d[k],
        decreases new_names.len() - j,
    {
        let key = next_object.key_at(j);
        let ghost name = new_names[j as int];
        let ghost held = result@;
        if !prev_object.contains_key(key.as_str()) {
            let next_value = next_object.value_at(j);
            result.insert(key.clone(), next_value.clone());
        }
        proof {
            let done = new_names.take(j as int);
            let grown = new_names.take(j + 1);
            assert(grown =~= done.push(name));
            assert forall|k: Seq<char>|
                #![trigger result@.contains_key(k)]
                result@.contains_key(k) <==> d.contains_key(k) && (names.contains(k)
                    || grown.contains(k)) by {
                assert(held.contains_key(k) <==> d.contains_key(k) && (names.contains(k)
                    || done.contains(k)));
                if done.contains(k) {
                    let a = done.index_of(k);
                    assert(grown[a] == k);
                }
                if grown.contains(k) && k != name {
                    let a = grown.index_of(k);
                    assert(done[a] == k);
                }
                if k == name {
                    assert(grown[j as int] == k);
                }
            }
            assert forall|k: Seq<char>| #[trigger] result@.contains_key(k) implies result@[k]
                == d[k] by {
                if k != name {
                    assert(held.contains_key(k));
                }
            }
        }
        j = j + 1;
    }
    proof {
        assert(new_names.take(j as int) =~= new_names);
        assert forall|k: Seq<char>| d.contains_key(k) implies names.contains(k)
            || new_names.contains(k) by {}
        assert(result@ =~= d);
    }
    if result.is_empty() {
        None
    } else {
        proof {
            if result@.dom() =~= Set::empty() {
                assert(result@ =~= Map::<Seq<char>, PropView>::empty());
            }
        }
        Some(result)
    }
}

} // verus!
