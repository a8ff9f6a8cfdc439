//! The event bindings among the properties of an element.
//!
//! A property binds an event when its name begins with `on` and its value
//! is a callable.

use crate::event_manager::EventManager;
use crate::prop::{Prop, PropView, Props};
use crate::transaction::Transaction;
use vstd::prelude::*;

verus! {

/// Whether a name is that of an event: it begins with `on`.
pub open spec fn spec_is_event_name(name: Seq<char>) -> bool {
    name.len() >= 2 && name[0] == 'o' && name[1] == 'n'
}

/// Whether the properties bind the event `name`.
pub open spec fn binds(props: Map<Seq<char>, PropView>, name: Seq<char>) -> bool {
    spec_is_event_name(name) && props.contains_key(name) && props[name] is Function
}

/// Whether the properties hold a value other than null under `name`.
pub open spec fn holds(props: Map<Seq<char>, PropView>, name: Seq<char>) -> bool {
    props.contains_key(name) && !(props[name] is Null)
}

/// Whether the binding of `name` in `props` is one to act on: it is a
/// binding, and `other`, where given, holds nothing under the name.
pub open spec fn selected(
    props: Map<Seq<char>, PropView>,
    other: Option<Map<Seq<char>, PropView>>,
    name: Seq<char>,
) -> bool {
    binds(props, name) && (other matches Some(o) ==> !holds(o, name))
}

/// The properties of an optional reference.
pub open spec fn opt_props(other: Option<&Props>) -> Option<Map<Seq<char>, PropView>> {
    match other {
        Some(o) => Some(o@),
        None => None,
    }
}

pub fn is_event_name(name: &str) -> (b: bool)
    ensures
        b == spec_is_event_name(name@),
{
    name.unicode_len() >= 2 && name.get_char(0) == 'o' && name.get_char(1) == 'n'
}

/// Registers (`add`) or unregisters every selected binding of `props` at
/// `id`, and notes each in the transaction.
pub fn apply_bindings(
    event_manager: &mut EventManager,
    transaction: &mut Transaction,
    id: &str,
    props: &Props,
    other: Option<&Props>,
    add: bool,
)
    ensures
        forall|name: Seq<char>, at: Seq<char>|
            #![trigger final(event_manager).handler(name, at)]
            final(event_manager).handler(name, at) == (if at == id@ && selected(
                props@,
                opt_props(other),
                name,
            ) {
                if add {
                    Some(props@[name]->Function_0)
                } else {
                    None
                }
            } else {
                old(event_manager).handler(name, at)
            }),
        forall|at: Seq<char>, name: Seq<char>|
            #![trigger final(transaction).event_flag(at, name)]
            final(transaction).event_flag(at, name) == (if at == id@ && selected(
                props@,
                opt_props(other),
                name,
            ) {
                Some(add)
            } else {
                old(transaction).event_flag(at, name)
            }),
        forall|at: Seq<char>| #[trigger]
            final(transaction).patches_at(at) == old(transaction).patches_at(at),
        final(transaction).removed() == old(transaction).removed(),
{
    let ghost names = props.keys();
    let ghost em0 = *event_manager;
    let ghost tx0 = *transaction;
    props.facts();
    let mut i: usize = 0;
    while i < props.len()
        invariant
            i <= names.len(),
            names == props.keys(),
            names.no_duplicates(),
            forall|a: int| 0 <= a < names.len() ==> props@.contains_key(#[trigger] names[a]),
            forall|k: Seq<char>| #[trigger] props@.contains_key(k) ==> names.contains(k),
            forall|name: Seq<char>, at: Seq<char>|
                #![trigger event_manager.handler(name, at)]
                event_manager.handler(name, at) == (if at == id@ && names.take(i as int).contains(
                    name,
                ) && selected(props@, opt_props(other), name) {
                    if add {
                        Some(props@[name]->Function_0)
                    } else {
                        None
                    }
                } else {
                    em0.handler(name, at)
                }),
            forall|at: Seq<char>, name: Seq<char>|
                #![trigger transaction.event_flag(at, name)]
                transaction.event_flag(at, name) == (if at == id@ && names.take(i as int).contains(
                    name,
                ) && selected(props@, opt_props(other), name) {
                    Some(add)
                } else {
                    tx0.event_flag(at, name)
                }),
            forall|at: Seq<char>| #[trigger] transaction.patches_at(at) == tx0.patches_at(at),
            transaction.removed() == tx0.removed(),
        decreases names.len() - i,
    {
        let key = props.key_at(i);
        let value = props.value_at(i);
        let ghost n0 = names[i as int];
        let ghost em1 = *event_manager;
        let ghost tx1 = *transaction;
        let free = match other {
            Some(o) => !o.has(key.as_str()),
            None => true,
        };
        if is_event_name(key.as_str()) && free {
            match value {
                Prop::Function(f) => {
                    if add {
                        transaction.add_event(id, key.as_str());
                        event_manager.add(id, key.as_str(), *f);
                    } else {
                        transaction.remove_event(id, key.as_str());
                        event_manager.remove(id, key.as_str());
                    }
                },
                _ => {},
            }
        }
        proof {
            let done = names.take(i as int);
            let grown = names.take(i + 1);
            assert(grown =~= done.push(n0));
            assert forall|k: Seq<char>| grown.contains(k) <==> done.contains(k) || k == n0 by {
                if done.contains(k) {
                    let a = done.index_of(k);
                    assert(grown[a] == k);
                }
                if grown.contains(k) && k != n0 {
                    let a = grown.index_of(k);
                    assert(done[a] == k);
                }
                if k == n0 {
                    assert(grown[i as int] == k);
                }
            }
            assert forall|name: Seq<char>, at: Seq<char>|
                #![trigger event_manager.handler(name, at)]
                event_manager.handler(name, at) == (if at == id@ && grown.contains(name)
                    && selected(props@, opt_props(other), name) {
                    if add {
                        Some(props@[name]->Function_0)
                    } else {
                        None
                    }
                } else {
                    em0.handler(name, at)
                }) by {
                assert(em1.handler(name, at) == (if at == id@ && done.contains(name) && selected(
                    props@,
                    opt_props(other),
                    name,
                ) {
                    if add {
                        Some(props@[name]->Function_0)
                    } else {
                        None
                    }
                } else {
                    em0.handler(name, at)
                }));
                assert(grown.contains(name) <==> done.contains(name) || name == n0);
            }
            assert forall|at: Seq<char>, name: Seq<char>|
                #![trigger transaction.event_flag(at, name)]
                transaction.event_flag(at, name) == (if at == id@ && grown.contains(name)
                    && selected(props@, opt_props(other), name) {
                    Some(add)
                } else {
                    tx0.event_flag(at, name)
                }) by {
                assert(tx1.event_flag(at, name) == (if at == id@ && done.contains(name)
                    && selected(props@, opt_props(other), name) {
                    Some(add)
                } else {
                    tx0.event_flag(at, name)
                }));
                assert(grown.contains(name) <==> done.contains(name) || name == n0);
            }
            assert forall|at: Seq<char>| #[trigger] transaction.patches_at(at) == tx0.patches_at(
                at,
            ) by {
                assert(tx1.patches_at(at) == tx0.patches_at(at));
            }
        }
        i = i + 1;
    }
    proof {
        assert(names.take(i as int) =~= names);
    }
}

} // verus!
