//! Applying a property patch.

use super::props_laws::apply_patch;
use crate::prop::{Prop, PropView, Props};
use vstd::prelude::*;

verus! {

/// The map `target` with `patch` applied: a name that the patch sets to
/// null is taken out, an object patches the object under its name, any
/// other value is set.
pub fn apply_props_patch(target: &Props, patch: &Props) -> (result: Props)
    ensures
        result@ == apply_patch(target@, patch@),
    decreases patch,
{
    let ghost names = patch.keys();
    let ghost wanted = apply_patch(target@, patch@);
    patch.facts();
    target.facts();
    let mut result = target.clone();
    let mut i: usize = 0;
    while i < patch.len()
        invariant
            i <= names.len(),
            names == patch.keys(),
            names.no_duplicates(),
            patch@.dom().finite(),
            wanted == apply_patch(target@, patch@),
            forall|a: int| 0 <= a < names.len() ==> patch@.contains_key(#[trigger] names[a]),
            forall|k: Seq<char>|
                #![trigger result@.contains_key(k)]
                result@.contains_key(k) == (if names.take(i as int).contains(k) {
                    wanted.contains_key(k)
                } else {
                    target@.contains_key(k)
                }),
            forall|k: Seq<char>| #[trigger]
                result@.contains_key(k) ==> result@[k] == (if names.take(i as int).contains(k) {
                    wanted[k]
                } else {
                    target@[k]
                }),
        decreases names.len() - i,
    {
        let key = patch.key_at(i);
        let value = patch.value_at(i);
        let ghost name = names[i as int];
        let ghost held = result@;
        match value {
            Prop::Null => {
                let _ = result.remove(key.as_str());
            },
            Prop::Object(inner) => {
                let merged = match target.find(key.as_str()) {
                    Some(Prop::Object(object)) => Prop::Object(apply_props_patch(object, inner)),
                    _ => value.clone(),
                };
                result.insert(key.clone(), merged);
            },
            _ => {
                result.insert(key.clone(), value.clone());
            },
        }
        proof {
            let done = names.take(i as int);
            let grown = names.take(i + 1);
            assert(grown =~= done.push(name));
            assert(!done.contains(name)) by {
                if done.contains(name) {
                    let a = done.index_of(name);
                    assert(names[a] == names[i as int]);
                }
            }
            assert forall|k: Seq<char>| grown.contains(k) <==> done.contains(k) || k == name by {
                if done.contains(k) {
                    let a = done.index_of(k);
                    assert(grown[a] == k);
                }
                if grown.contains(k) && k != name {
                    let a = grown.index_of(k);
                    assert(done[a] == k);
                }
                if k == name {
                    assert(grown[i as int] == k);
                }
            }
            assert forall|k: Seq<char>|
                #![trigger result@.contains_key(k)]
                result@.contains_key(k) == (if grown.contains(k) {
                    wanted.contains_key(k)
                } else {
                    target@.contains_key(k)
                }) by {
                assert(held.contains_key(k) == (if done.contains(k) {
                    wanted.contains_key(k)
                } else {
                    target@.contains_key(k)
                }));
                assert(grown.contains(k) <==> done.contains(k) || k == name);
            }
            assert forall|k: Seq<char>| #[trigger] result@.contains_key(k) implies result@[k] == (
            if grown.contains(k) {
                wanted[k]
            } else {
                target@[k]
            }) by {
                assert(grown.contains(k) <==> done.contains(k) || k == name);
                if k != name {
                    assert(held.contains_key(k));
                    assert(held[k] == (if done.contains(k) {
                        wanted[k]
                    } else {
                        target@[k]
                    }));
                }
            }
        }
        i = i + 1;
    }
    proof {
        assert(names.take(i as int) =~= names);
        assert forall|k: Seq<char>| names.contains(k) <==> patch@.contains_key(k) by {
            if names.contains(k) {
                let a = names.index_of(k);
                assert(names[a] == k);
            }
        }
        assert(result@ =~= wanted);
    }
    result
}

} // verus!
