//! The wire form of property values: the value without its callables.

use super::array::Array;
use super::prop::{Prop, PropView};
use super::props::Props;
use vstd::prelude::*;

verus! {

/// The wire form of a value. A callable on its own becomes null; a
/// callable in a list or under a name is left out.
pub open spec fn json(v: PropView) -> PropView
    decreases v, 1int,
{
    match v {
        PropView::Function(_) => PropView::Null,
        PropView::Array(items) => PropView::Array(json_items(items)),
        PropView::Object(map) => PropView::Object(json_entries(map)),
        _ => v,
    }
}

/// The wire form of a list: the wire forms of its items, callables left out.
pub open spec fn json_items(items: Seq<PropView>) -> Seq<PropView>
    decreases items, 0int,
{
    if items.len() == 0 {
        Seq::empty()
    } else {
        let rest = json_items(items.drop_last());
        if items.last() is Function {
            rest
        } else {
            rest.push(json(items.last()))
        }
    }
}

/// The wire form of a map: the wire forms of its values, names that hold a
/// callable left out.
pub open spec fn json_entries(map: Map<Seq<char>, PropView>) -> Map<Seq<char>, PropView>
    decreases map, 0int,
{
    Map::new(
        |k: Seq<char>| map.contains_key(k) && !(map[k] is Function),
        |k: Seq<char>|
            if map.dom().finite() && map.contains_key(k) {
                json(map[k])
            } else {
                PropView::Null
            },
    )
}

/// Whether a value holds no callable.
pub open spec fn callable_free(v: PropView) -> bool
    decreases v,
{
    match v {
        PropView::Function(_) => false,
        PropView::Array(items) => forall|i: int|
            0 <= i < items.len() ==> callable_free(#[trigger] items[i]),
        PropView::Object(map) => map.dom().finite() ==> forall|k: Seq<char>|
            map.contains_key(k) ==> callable_free(#[trigger] map[k]),
        _ => true,
    }
}

/// The wire form of a list holds no callable.
proof fn lemma_json_items_free(items: Seq<PropView>)
    ensures
        forall|i: int|
            0 <= i < json_items(items).len() ==> callable_free(#[trigger] json_items(items)[i]),
    decreases items, 0int,
{
    if items.len() != 0 {
        lemma_json_items_free(items.drop_last());
        lemma_json_free(items.last());
        let rest = json_items(items.drop_last());
        let all = json_items(items);
        assert forall|i: int| 0 <= i < all.len() implies callable_free(#[trigger] all[i]) by {
            if i < rest.len() {
                assert(all[i] == rest[i]);
            }
        }
    }
}

/// The wire form of a value holds no callable.
pub proof fn lemma_json_free(v: PropView)
    ensures
        callable_free(json(v)),
    decreases v, 1int,
{
    match v {
        PropView::Array(items) => {
            lemma_json_items_free(items);
            assert(callable_free(PropView::Array(json_items(items))));
        },
        PropView::Object(map) => {
            assert forall|k: Seq<char>| json_entries(map).contains_key(k) implies callable_free(
                #[trigger] json_entries(map)[k],
            ) by {
                if map.dom().finite() {
                    lemma_json_free(map[k]);
                }
            }
            assert(callable_free(PropView::Object(json_entries(map))));
        },
        _ => {},
    }
}

pub fn prop_to_json(prop: &Prop) -> (wire: Prop)
    ensures
        wire@ == json(prop@),
    decreases prop, 1int,
{
    match prop {
        Prop::Null => Prop::Null,
        Prop::Boolean(v) => Prop::Boolean(*v),
        Prop::Number(v) => Prop::Number(*v),
        Prop::String(v) => Prop::String(v.clone()),
        Prop::Function(_) => Prop::Null,
        Prop::Array(v) => Prop::Array(array_to_json(v)),
        Prop::Object(v) => Prop::Object(props_to_json(v)),
    }
}

pub fn array_to_json(array: &Array) -> (wire: Array)
    ensures
        wire@ == json_items(array@),
    decreases array, 0int,
{
    let mut out = Array::new();
    let mut i: usize = 0;
    while i < array.len()
        invariant
            i <= array@.len(),
            out@ == json_items(array@.take(i as int)),
        decreases array@.len() - i,
    {
        proof {
            assert(array@.take(i + 1).drop_last() =~= array@.take(i as int));
            assert(array@.take(i + 1).last() == array@[i as int]);
        }
        let item = array.get(i);
        if !item.is_function() {
            out.push(prop_to_json(item));
        }
        i = i + 1;
    }
    proof {
        assert(array@.take(i as int) =~= array@);
    }
    out
}

pub fn props_to_json(props: &Props) -> (wire: Props)
    ensures
        wire@ == json_entries(props@),
    decreases props, 0int,
{
    let ghost names = props.keys();
    let ghost target = json_entries(props@);
    props.facts();
    let mut out = Props::new();
    let mut i: usize = 0;
    while i < props.len()
        invariant
            i <= names.len(),
            names == props.keys(),
            target == json_entries(props@),
            props@.dom().finite(),
            forall|a: int| 0 <= a < names.len() ==> props@.contains_key(#[trigger] names[a]),
            forall|k: Seq<char>|
                #![trigger out@.contains_key(k)]
                out@.contains_key(k) <==> target.contains_key(k) && names.take(i as int).contains(
                    k,
                ),
            forall|k: Seq<char>| #[trigger] out@.contains_key(k) ==> out@[k] == target[k],
        decreases names.len() - i,
    {
        let key = props.key_at(i);
        let value = props.value_at(i);
        let ghost name = names[i as int];
        let ghost held = out@;
        if !value.is_function() {
            out.insert(key.clone(), prop_to_json(value));
        }
        proof {
            let done = names.take(i as int);
            let grown = names.take(i + 1);
            assert(grown =~= done.push(name));
            assert forall|k: Seq<char>|
                #![trigger out@.contains_key(k)]
                out@.contains_key(k) <==> target.contains_key(k) && grown.contains(k) by {
                assert(held.contains_key(k) <==> target.contains_key(k) && done.contains(k));
                if done.contains(k) {
                    let a = done.index_of(k);
                    assert(grown[a] == k);
                }
                if grown.contains(k) && k != name {
                    let a = grown.index_of(k);
                    assert(done[a] == k);
                }
                if k == name {
                    assert(grown[i as int] == k);
                }
            }
            assert forall|k: Seq<char>| #[trigger] out@.contains_key(k) implies out@[k]
                == target[k] by {
                if k != name {
                    assert(held.contains_key(k));
                }
            }
        }
        i = i + 1;
    }
    proof {
        assert(names.take(i as int) =~= names);
        assert(out@ =~= target);
    }
    out
}

impl Prop {
    /// The wire form of the value.
    pub fn to_json(&self) -> (wire: Prop)
        ensures
            wire@ == json(self@),
    {
        prop_to_json(self)
    }
}

impl Array {
    /// The wire form of the list.
    pub fn to_json(&self) -> (wire: Prop)
        ensures
            wire@ == PropView::Array(json_items(self@)),
    {
        Prop::Array(array_to_json(self))
    }
}

} // verus!
