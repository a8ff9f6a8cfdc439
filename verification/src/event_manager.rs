//! The registry of event handlers, addressed by the identifiers of the
//! tree.
//!
//! An event travels from the identifier it is dispatched at up to the root
//! of the tree; the way is read off the identifier itself.

use crate::prop::{Function, Handlers, Prop, PropView, Props};
use crate::str_map::StrMap;
use crate::utils::{is_ancestor_id_of, path_ids, spec_is_ancestor, spec_path, steps_left};
use vstd::prelude::*;

verus! {

/// The name under which an event carries its name.
pub open spec fn name_key() -> Seq<char> {
    seq!['n', 'a', 'm', 'e']
}

/// The name under which an event says whether it travels on.
pub open spec fn propagation_key() -> Seq<char> {
    seq!['p', 'r', 'o', 'p', 'a', 'g', 'a', 't', 'i', 'o', 'n']
}

/// The way of an event dispatched at `id`: the identifier itself and its
/// ancestors, up to the root.
pub open spec fn way_up(id: Seq<char>) -> Seq<Seq<char>> {
    let stop = Seq::<char>::empty();
    let up = spec_is_ancestor(stop, id);
    spec_path(id, stop, up, steps_left(id, stop, up))
}

/// The registry: for each event name the handlers, each under the
/// identifier it is registered at.
#[derive(Debug)]
pub struct EventManager {
    events: StrMap<StrMap<Function>>,
}

impl EventManager {
    #[verifier::type_invariant]
    spec fn wf(self) -> bool {
        forall|name: Seq<char>| #[trigger]
            self.events@.contains_key(name) ==> !(self.events@[name]@.dom() =~= Set::empty())
    }

    /// The handler registered for the event `name` at `id`, by identity.
    pub closed spec fn handler(self, name: Seq<char>, id: Seq<char>) -> Option<u64> {
        if self.events@.contains_key(name) && self.events@[name]@.contains_key(id) {
            Some(self.events@[name]@[id]@)
        } else {
            None
        }
    }

    /// Whether no handler is registered.
    pub open spec fn spec_is_empty(self) -> bool {
        forall|name: Seq<char>, id: Seq<char>| #[trigger] self.handler(name, id) is None
    }

    /// The handlers for `name` at the identifiers of `path`, in the order
    /// of the path; the root itself, the empty identifier, takes no part.
    pub open spec fn handlers_on(self, name: Seq<char>, path: Seq<Seq<char>>) -> Seq<
        (Seq<char>, u64),
    >
        decreases path.len(),
    {
        if path.len() == 0 {
            Seq::empty()
        } else {
            let rest = self.handlers_on(name, path.drop_last());
            let id = path.last();
            if id.len() != 0 && self.handler(name, id) is Some {
                rest.push((id, self.handler(name, id)->0))
            } else {
                rest
            }
        }
    }

    /// The handlers that an event dispatched at `id` meets, nearest first.
    /// An event without a name that is a string meets none.
    pub open spec fn spec_event_funcs(self, event: Map<Seq<char>, PropView>, id: Seq<char>) -> Seq<
        (Seq<char>, u64),
    > {
        if event.contains_key(name_key()) && event[name_key()] is String {
            self.handlers_on(event[name_key()]->String_0, way_up(id))
        } else {
            Seq::empty()
        }
    }

    pub fn new() -> (manager: Self)
        ensures
            manager.spec_is_empty(),
    {
        EventManager { events: StrMap::new() }
    }

    /// Whether no handler is registered.
    pub fn is_empty(&self) -> (b: bool)
        ensures
            b == self.spec_is_empty(),
    {
        proof {
            use_type_invariant(self);
        }
        self.events.facts();
        let b = self.events.is_empty();
        proof {
            if !b {
                let name = self.events.keys()[0];
                assert(self.events@.contains_key(name));
                let inner = self.events@[name]@;
                let id = choose|id: Seq<char>| inner.dom().contains(id);
                if !inner.dom().contains(id) {
                    assert(inner.dom() =~= Set::empty());
                }
                assert(self.handler(name, id) is Some);
            }
        }
        b
    }

    /// The handler registered for the event `name` at `id`.
    pub fn get(&self, id: &str, name: &str) -> (r: Option<Function>)
        ensures
            match r {
                Some(f) => self.handler(name@, id@) == Some(f@),
                None => self.handler(name@, id@) is None,
            },
    {
        match self.events.get(name) {
            Some(handlers) => match handlers.get(id) {
                Some(func) => Some(*func),
                None => None,
            },
            None => None,
        }
    }

    /// Registers `func` for the event `name` at `id`, in the place of a
    /// handler registered there before.
    pub fn add(&mut self, id: &str, name: &str, func: Function)
        ensures
            final(self).handler(name@, id@) == Some(func@),
            forall|n: Seq<char>, at: Seq<char>|
                n != name@ || at != id@ ==> #[trigger] final(self).handler(n, at) == old(
                    self,
                ).handler(n, at),
    {
        proof {
            use_type_invariant(&*self);
        }
        let mut events: StrMap<StrMap<Function>> = StrMap::new();
        std::mem::swap(&mut self.events, &mut events);
        events.facts();
        match events.position(name) {
            Some(i) => {
                let mut handlers = events.replace_at(i, StrMap::new());
                handlers.insert(String::from_str(id), func);
                proof {
                    assert(handlers@.dom().contains(id@));
                }
                let _ = events.replace_at(i, handlers);
            },
            None => {
                let mut handlers: StrMap<Function> = StrMap::new();
                handlers.insert(String::from_str(id), func);
                proof {
                    assert(handlers@.dom().contains(id@));
                }
                events.insert(String::from_str(name), handlers);
            },
        }
        self.events = events;
    }

    /// Unregisters the handler for the event `name` at `id`. A name
    /// without handlers leaves the registry.
    pub fn remove(&mut self, id: &str, name: &str)
        ensures
            final(self).handler(name@, id@) is None,
            forall|n: Seq<char>, at: Seq<char>|
                n != name@ || at != id@ ==> #[trigger] final(self).handler(n, at) == old(
                    self,
                ).handler(n, at),
    {
        proof {
            use_type_invariant(&*self);
        }
        let mut events: StrMap<StrMap<Function>> = StrMap::new();
        std::mem::swap(&mut self.events, &mut events);
        events.facts();
        match events.position(name) {
            Some(i) => {
                let mut handlers = events.replace_at(i, StrMap::new());
                let _ = handlers.remove(id);
                if handlers.is_empty() {
                    let _ = events.remove(name);
                } else {
                    proof {
                        if handlers@.dom() =~= Set::empty() {
                            assert(handlers@ =~= Map::<Seq<char>, Function>::empty());
                        }
                    }
                    let _ = events.replace_at(i, handlers);
                }
            },
            None => {},
        }
        self.events = events;
    }

    /// Unregisters every handler at `id` and below it.
    pub fn remove_all(&mut self, id: &str)
        ensures
            forall|n: Seq<char>, at: Seq<char>|
                #![trigger final(self).handler(n, at)]
                final(self).handler(n, at) == (if spec_is_ancestor(id@, at) {
                    None
                } else {
                    old(self).handler(n, at)
                }),
    {
        proof {
            use_type_invariant(&*self);
        }
        let ghost before = *self;
        let mut events: StrMap<StrMap<Function>> = StrMap::new();
        std::mem::swap(&mut self.events, &mut events);
        events.facts();
        let ghost names = events.keys();
        let mut kept: StrMap<StrMap<Function>> = StrMap::new();
        let mut i: usize = 0;
        while i < events.len()
            invariant
                i <= names.len(),
                names == events.keys(),
                names.no_duplicates(),
                names.len() == events.values().len(),
                forall|a: int|
                    0 <= a < names.len() ==> events@.contains_key(#[trigger] names[a])
                        && events@[names[a]] == events.values()[a],
                forall|n: Seq<char>| #[trigger] events@.contains_key(n) ==> names.contains(n),
                forall|n: Seq<char>| #[trigger]
                    kept@.contains_key(n) ==> !(kept@[n]@.dom() =~= Set::empty()),
                forall|n: Seq<char>, at: Seq<char>| #[trigger]
                    lookup(kept, n, at) == (if names.take(i as int).contains(n)
                        && !spec_is_ancestor(id@, at) {
                        lookup(events, n, at)
                    } else {
                        None
                    }),
            decreases names.len() - i,
        {
            let name = events.key_at(i);
            let handlers = events.value_at(i);
            let ghost n0 = names[i as int];
            let ghost held = kept;
            let rest = filter_outside(handlers, id);
            let ghost filtered = rest@;
            if !rest.is_empty() {
                proof {
                    if rest@.dom() =~= Set::empty() {
                        assert(rest@ =~= Map::<Seq<char>, Function>::empty());
                    }
                }
                kept.insert(name.clone(), rest);
            }
            proof {
                let done = names.take(i as int);
                let grown = names.take(i + 1);
                assert(grown =~= done.push(n0));
                assert(!done.contains(n0)) by {
                    if done.contains(n0) {
                        let a = done.index_of(n0);
                        assert(names[a] == names[i as int]);
                    }
                }
                assert forall|n: Seq<char>| grown.contains(n) <==> done.contains(n) || n == n0 by {
                    if done.contains(n) {
                        let a = done.index_of(n);
                        assert(grown[a] == n);
                    }
                    if grown.contains(n) && n != n0 {
                        let a = grown.index_of(n);
                        assert(done[a] == n);
                    }
                    if n == n0 {
                        assert(grown[i as int] == n);
                    }
                }
                assert forall|n: Seq<char>| #[trigger] kept@.contains_key(n) implies !(kept@[n]@.dom()
                    =~= Set::empty()) by {
                    if n != n0 {
                        assert(held@.contains_key(n));
                    } else {
                        if !held@.contains_key(n0) {
                        } else {
                            assert(lookup(held, n0, choose|at: Seq<char>| held@[n0]@.dom().contains(at)) is None);
                            if !held@[n0]@.dom().contains(choose|at: Seq<char>| held@[n0]@.dom().contains(at)) {
                                assert(held@[n0]@.dom() =~= Set::empty());
                            }
                        }
                    }
                }
                assert forall|n: Seq<char>, at: Seq<char>| #[trigger]
                    lookup(kept, n, at) == (if grown.contains(n) && !spec_is_ancestor(id@, at) {
                        lookup(events, n, at)
                    } else {
                        None
                    }) by {
                    assert(lookup(held, n, at) == (if done.contains(n) && !spec_is_ancestor(
                        id@,
                        at,
                    ) {
                        lookup(events, n, at)
                    } else {
                        None
                    }));
                    if n == n0 {
                        assert(lookup(held, n0, at) is None);
                        if !held@.contains_key(n0) {
                        } else {
                            let w = choose|w: Seq<char>| held@[n0]@.dom().contains(w);
                            assert(lookup(held, n0, w) is None);
                            if !held@[n0]@.dom().contains(w) {
                                assert(held@[n0]@.dom() =~= Set::empty());
                            }
                        }
                        if filtered.dom() =~= Set::empty() {
                            assert(!filtered.contains_key(at));
                        }
                    }
                }
            }
            i = i + 1;
        }
        proof {
            assert(names.take(i as int) =~= names);
        }
        self.events = kept;
        proof {
            assert forall|n: Seq<char>, at: Seq<char>|
                #![trigger self.handler(n, at)]
                self.handler(n, at) == (if spec_is_ancestor(id@, at) {
                    None
                } else {
                    before.handler(n, at)
                }) by {
                assert(lookup(kept, n, at) == (if names.contains(n) && !spec_is_ancestor(id@, at) {
                    lookup(events, n, at)
                } else {
                    None
                }));
                if events@.contains_key(n) {
                    assert(names.contains(n));
                }
            }
        }
    }

    /// The handlers that an event dispatched at `id` meets, each with the
    /// identifier it is registered at, nearest first.
    pub fn event_funcs(&self, id: &str, event: &Props) -> (funcs: Vec<(String, Function)>)
        ensures
            Seq::new(funcs@.len(), |i: int| (funcs@[i].0@, funcs@[i].1@)) == self.spec_event_funcs(
                event@,
                id@,
            ),
    {
        proof {
            reveal_strlit("name");
            reveal_strlit("");
            assert("name"@ =~= name_key());
            assert(""@ =~= Seq::<char>::empty());
        }
        let mut funcs: Vec<(String, Function)> = Vec::new();
        let name = match event.find("name") {
            Some(Prop::String(name)) => name,
            _ => {
                assert(Seq::new(funcs@.len(), |i: int| (funcs@[i].0@, funcs@[i].1@)) =~= Seq::empty());
                return funcs;
            },
        };
        let ids = path_ids(id, "");
        let ghost path = way_up(id@);
        let mut i: usize = 0;
        assert(Seq::new(funcs@.len(), |i: int| (funcs@[i].0@, funcs@[i].1@)) =~= self.handlers_on(
            name@,
            path.take(0),
        ));
        while i < ids.len()
            invariant
                i <= ids@.len(),
                path == way_up(id@),
                path == Seq::new(ids@.len(), |a: int| ids@[a]@),
                Seq::new(funcs@.len(), |a: int| (funcs@[a].0@, funcs@[a].1@)) == self.handlers_on(
                    name@,
                    path.take(i as int),
                ),
            decreases ids@.len() - i,
        {
            let ghost held = Seq::new(funcs@.len(), |a: int| (funcs@[a].0@, funcs@[a].1@));
            proof {
                assert(path.take(i + 1).drop_last() =~= path.take(i as int));
                assert(path.take(i + 1).last() == ids@[i as int]@);
            }
            let at = &ids[i];
            if at.as_str().unicode_len() != 0 {
                match self.get(at.as_str(), name.as_str()) {
                    Some(func) => {
                        funcs.push((at.clone(), func));
                        proof {
                            assert(Seq::new(funcs@.len(), |a: int| (funcs@[a].0@, funcs@[a].1@))
                                =~= held.push((at@, func@)));
                        }
                    },
                    None => {},
                }
            }
            i = i + 1;
        }
        proof {
            assert(path.take(i as int) =~= path);
        }
        funcs
    }

    /// Dispatches `event` at `id`: calls the handlers for its name from
    /// `id` up to the root, nearest first, each with the identifier it is
    /// registered at under `component_id`, until one turns `propagation`
    /// to false. Returns the number of handlers called: all that the event
    /// meets, unless propagation was halted. After each call `goes_on`
    /// decides whether the next handler is called.
    pub fn dispatch<H: Handlers>(&self, handlers: &mut H, id: &str, event: &mut Props) -> (called:
        usize)
        ensures
            called <= self.spec_event_funcs(old(event)@, id@).len(),
            called == 0 <==> self.spec_event_funcs(old(event)@, id@).len() == 0,
            called < self.spec_event_funcs(old(event)@, id@).len() ==> halted(final(event)@),
            called == 0 ==> final(event)@ == old(event)@,
    {
        let funcs = self.event_funcs(id, event);
        assert(funcs@.len() == Seq::new(funcs@.len(), |i: int| (funcs@[i].0@, funcs@[i].1@)).len());
        let mut called: usize = 0;
        let mut more = funcs.len() > 0;
        while more
            invariant
                called <= funcs@.len() <= usize::MAX,
                more ==> called < funcs@.len(),
                !more ==> called == funcs@.len() || halted(event@),
                !more && called == 0 ==> funcs@.len() == 0,
                called == 0 ==> event@ == old(event)@,
            decreases funcs@.len() - called,
        {
            let at = funcs[called].0.clone();
            event.insert(String::from_str("component_id"), Prop::String(at));
            let _ = handlers.call(&funcs[called].1, event);
            called = called + 1;
            more = goes_on(called, funcs.len(), event);
        }
        called
    }
}

/// Whether dispatch calls one more handler once `called` of the `total`
/// handlers that an event meets have run and left `event`: there is one
/// more, and the event has not halted.
pub fn goes_on(called: usize, total: usize, event: &Props) -> (more: bool)
    ensures
        more == (called < total && !halted(event@)),
{
    called < total && !propagation_stopped(event)
}

/// Whether an event says that it travels no further: `propagation` is
/// false.
pub open spec fn halted(event: Map<Seq<char>, PropView>) -> bool {
    event.contains_key(propagation_key()) && event[propagation_key()] == PropView::Boolean(false)
}

/// The handler under `name` and `at` in a nested map.
spec fn lookup(map: StrMap<StrMap<Function>>, name: Seq<char>, at: Seq<char>) -> Option<Function> {
    if map@.contains_key(name) && map@[name]@.contains_key(at) {
        Some(map@[name]@[at])
    } else {
        None
    }
}

/// The handlers that are registered neither at `id` nor below it.
fn filter_outside(handlers: &StrMap<Function>, id: &str) -> (rest: StrMap<Function>)
    ensures
        forall|at: Seq<char>|
            #![trigger rest@.contains_key(at)]
            rest@.contains_key(at) <==> handlers@.contains_key(at) && !spec_is_ancestor(id@, at),
        forall|at: Seq<char>| #[trigger] rest@.contains_key(at) ==> rest@[at] == handlers@[at],
{
    handlers.facts();
    let ghost ids = handlers.keys();
    let mut rest: StrMap<Function> = StrMap::new();
    let mut j: usize = 0;
    while j < handlers.len()
        invariant
            j <= ids.len(),
            ids == handlers.keys(),
            ids.len() == handlers.values().len(),
            ids.no_duplicates(),
            forall|a: int|
                0 <= a < ids.len() ==> handlers@.contains_key(#[trigger] ids[a])
                    && handlers@[ids[a]] == handlers.values()[a],
            forall|at: Seq<char>| #[trigger] handlers@.contains_key(at) ==> ids.contains(at),
            forall|at: Seq<char>|
                #![trigger rest@.contains_key(at)]
                rest@.contains_key(at) <==> ids.take(j as int).contains(at) && !spec_is_ancestor(
                    id@,
                    at,
                ),
            forall|at: Seq<char>| #[trigger] rest@.contains_key(at) ==> rest@[at] == handlers@[at],
        decreases ids.len() - j,
    {
        let at = handlers.key_at(j);
        let ghost at0 = ids[j as int];
        let ghost had = rest@;
        if !is_ancestor_id_of(id, at.as_str()) {
            rest.insert(at.clone(), *handlers.value_at(j));
        }
        proof {
            let done = ids.take(j as int);
            let grown = ids.take(j + 1);
            assert(grown =~= done.push(at0));
            assert forall|q: Seq<char>|
                #![trigger rest@.contains_key(q)]
                rest@.contains_key(q) <==> grown.contains(q) && !spec_is_ancestor(id@, q) by {
                assert(had.contains_key(q) <==> done.contains(q) && !spec_is_ancestor(id@, q));
                if done.contains(q) {
                    let a = done.index_of(q);
                    assert(grown[a] == q);
                }
                if grown.contains(q) && q != at0 {
                    let a = grown.index_of(q);
                    assert(done[a] == q);
                }
                if q == at0 {
                    assert(grown[j as int] == q);
                }
            }
            assert forall|q: Seq<char>| #[trigger] rest@.contains_key(q) implies rest@[q]
                == handlers@[q] by {
                if q != at0 {
                    assert(had.contains_key(q));
                }
            }
        }
        j = j + 1;
    }
    proof {
        assert(ids.take(j as int) =~= ids);
        assert forall|at: Seq<char>|
            #![trigger rest@.contains_key(at)]
            rest@.contains_key(at) <==> handlers@.contains_key(at) && !spec_is_ancestor(
                id@,
                at,
            ) by {
            if ids.contains(at) {
                let a = ids.index_of(at);
                assert(ids[a] == at);
            }
        }
    }
    rest
}

/// Whether the event says that it travels no further: `propagation` is
/// false.
pub fn propagation_stopped(event: &Props) -> (stopped: bool)
    ensures
        stopped == halted(event@),
{
    proof {
        reveal_strlit("propagation");
        assert("propagation"@ =~= propagation_key());
    }
    event.get("propagation").is_false()
}

} // verus!
