//! One batch of mutations.

use super::order::Order;
use super::patch::Patch;
use super::raw_view::RawView;
use crate::prop::Props;
use crate::str_map::StrMap;
use vstd::prelude::*;

verus! {

/// What one pass over the tree produced: per identifier the patches in the
/// order to apply them, the event registrations that came and went, and
/// the identifiers removed with the view last rendered there.
#[derive(Debug)]
pub struct Transaction {
    events: StrMap<StrMap<bool>>,
    removes: StrMap<RawView>,
    patches: StrMap<Vec<Patch>>,
}

impl Transaction {
    #[verifier::type_invariant]
    spec fn wf(self) -> bool {
        &&& forall|id: Seq<char>| #[trigger]
            self.patches@.contains_key(id) ==> self.patches@[id]@.len() > 0
        &&& forall|id: Seq<char>| #[trigger]
            self.events@.contains_key(id) ==> !(self.events@[id]@.dom() =~= Set::empty())
    }

    /// The patches at `id`, in the order to apply them.
    pub closed spec fn patches_at(self, id: Seq<char>) -> Seq<Patch> {
        if self.patches@.contains_key(id) {
            self.patches@[id]@
        } else {
            Seq::empty()
        }
    }

    /// The removed identifiers, each with the view last rendered there.
    pub closed spec fn removed(self) -> Map<Seq<char>, RawView> {
        self.removes@
    }

    /// Whether the event `name` was registered (true) or unregistered
    /// (false) at `id`, if either.
    pub closed spec fn event_flag(self, id: Seq<char>, name: Seq<char>) -> Option<bool> {
        if self.events@.contains_key(id) && self.events@[id]@.contains_key(name) {
            Some(self.events@[id]@[name])
        } else {
            None
        }
    }

    /// Whether the transaction holds nothing.
    pub open spec fn spec_is_empty(self) -> bool {
        &&& forall|id: Seq<char>| #[trigger] self.patches_at(id).len() == 0
        &&& self.removed() == Map::<Seq<char>, RawView>::empty()
        &&& forall|id: Seq<char>, name: Seq<char>| #[trigger] self.event_flag(id, name) is None
    }

    pub fn new() -> (transaction: Self)
        ensures
            transaction.spec_is_empty(),
    {
        Transaction { events: StrMap::new(), removes: StrMap::new(), patches: StrMap::new() }
    }

    /// Whether the transaction holds no patch, no removal and no event.
    pub fn is_empty(&self) -> (b: bool)
        ensures
            b == self.spec_is_empty(),
    {
        proof {
            use_type_invariant(self);
        }
        self.patches.facts();
        self.events.facts();
        self.removes.facts();
        let no_patches = self.patches.is_empty();
        let no_events = self.events.is_empty();
        let b = no_patches && self.removes.is_empty() && no_events;
        proof {
            if !no_patches {
                let id = self.patches.keys()[0];
                assert(self.patches@.contains_key(id));
                assert(self.patches_at(id).len() > 0);
            }
            if !no_events {
                let id = self.events.keys()[0];
                assert(self.events@.contains_key(id));
                let inner = self.events@[id]@;
                let name = choose|name: Seq<char>| inner.dom().contains(name);
                if !inner.dom().contains(name) {
                    assert(inner.dom() =~= Set::empty());
                }
                assert(self.event_flag(id, name) is Some);
            }
        }
        b
    }

    pub fn mount(&mut self, id: &str, view: RawView)
        ensures
            final(self).patches_at(id@) == old(self).patches_at(id@).push(Patch::Mount(view)),
            final(self).same_but_patches_at(*old(self), id@),
    {
        self.append(String::from_str(id), Patch::Mount(view));
    }

    pub fn unmount(&mut self, id: &str, view: RawView)
        ensures
            final(self).removed() == old(self).removed().insert(id@, view),
            final(self).same_but_removed(*old(self)),
    {
        self.remove(id, view);
    }

    pub fn insert(&mut self, id: &str, view_id: &str, index: usize, view: RawView)
        ensures
            exists|child: String|
                child@ == view_id@ && final(self).patches_at(id@) == old(self).patches_at(
                    id@,
                ).push(Patch::Insert(child, index, view)),
            final(self).same_but_patches_at(*old(self), id@),
    {
        let child = String::from_str(view_id);
        self.append(String::from_str(id), Patch::Insert(child, index, view));
    }

    pub fn replace(&mut self, id: &str, prev_view: RawView, next_view: RawView)
        ensures
            final(self).patches_at(id@) == old(self).patches_at(id@).push(
                Patch::Replace(prev_view, next_view),
            ),
            final(self).same_but_patches_at(*old(self), id@),
    {
        self.append(String::from_str(id), Patch::Replace(prev_view, next_view));
    }

    pub fn order(&mut self, id: &str, order: Order)
        ensures
            final(self).patches_at(id@) == old(self).patches_at(id@).push(Patch::Order(order)),
            final(self).same_but_patches_at(*old(self), id@),
    {
        self.append(String::from_str(id), Patch::Order(order));
    }

    pub fn props(&mut self, id: &str, prev_props: Props, diff_props: Props)
        ensures
            final(self).patches_at(id@) == old(self).patches_at(id@).push(
                Patch::Props(prev_props, diff_props),
            ),
            final(self).same_but_patches_at(*old(self), id@),
    {
        self.append(String::from_str(id), Patch::Props(prev_props, diff_props));
    }

    pub fn remove(&mut self, id: &str, view: RawView)
        ensures
            final(self).removed() == old(self).removed().insert(id@, view),
            final(self).same_but_removed(*old(self)),
    {
        proof {
            use_type_invariant(&*self);
        }
        let mut removes: StrMap<RawView> = StrMap::new();
        std::mem::swap(&mut self.removes, &mut removes);
        removes.insert(String::from_str(id), view);
        self.removes = removes;
    }

    pub fn add_event(&mut self, id: &str, name: &str)
        ensures
            final(self).event_flag(id@, name@) == Some(true),
            final(self).same_but_event(*old(self), id@, name@),
    {
        self.append_event(String::from_str(id), String::from_str(name), true);
    }

    pub fn remove_event(&mut self, id: &str, name: &str)
        ensures
            final(self).event_flag(id@, name@) == Some(false),
            final(self).same_but_event(*old(self), id@, name@),
    {
        self.append_event(String::from_str(id), String::from_str(name), false);
    }

    /// The event registrations: per identifier the names, true for one that
    /// came and false for one that went.
    pub fn events(&self) -> (events: &StrMap<StrMap<bool>>)
        ensures
            forall|id: Seq<char>, name: Seq<char>|
                #![trigger self.event_flag(id, name)]
                self.event_flag(id, name) == (if events@.contains_key(id) && events@[id]@.contains_key(
                    name,
                ) {
                    Some(events@[id]@[name])
                } else {
                    None
                }),
    {
        &self.events
    }

    /// The removed identifiers with their views.
    pub fn removes(&self) -> (removes: &StrMap<RawView>)
        ensures
            removes@ == self.removed(),
    {
        &self.removes
    }

    /// The patches, per identifier.
    pub fn patches(&self) -> (patches: &StrMap<Vec<Patch>>)
        ensures
            forall|id: Seq<char>|
                #![trigger self.patches_at(id)]
                self.patches_at(id) == (if patches@.contains_key(id) {
                    patches@[id]@
                } else {
                    Seq::empty()
                }),
            forall|id: Seq<char>| #[trigger] patches@.contains_key(id) ==> patches@[id]@.len() > 0,
    {
        proof {
            use_type_invariant(self);
        }
        &self.patches
    }

    /// Whether nothing but the patches at `id` differs from `other`.
    pub open spec fn same_but_patches_at(self, other: Transaction, id: Seq<char>) -> bool {
        &&& forall|at: Seq<char>| at != id ==> #[trigger] self.patches_at(at) == other.patches_at(at)
        &&& self.removed() == other.removed()
        &&& forall|at: Seq<char>, name: Seq<char>| #[trigger]
            self.event_flag(at, name) == other.event_flag(at, name)
    }

    /// Whether nothing but the removals differs from `other`.
    pub open spec fn same_but_removed(self, other: Transaction) -> bool {
        &&& forall|at: Seq<char>| #[trigger] self.patches_at(at) == other.patches_at(at)
        &&& forall|at: Seq<char>, name: Seq<char>| #[trigger]
            self.event_flag(at, name) == other.event_flag(at, name)
    }

    /// Whether nothing but the event `name` at `id` differs from `other`.
    pub open spec fn same_but_event(
        self,
        other: Transaction,
        id: Seq<char>,
        name: Seq<char>,
    ) -> bool {
        &&& forall|at: Seq<char>| #[trigger] self.patches_at(at) == other.patches_at(at)
        &&& self.removed() == other.removed()
        &&& forall|at: Seq<char>, event: Seq<char>|
            at != id || event != name ==> #[trigger] self.event_flag(at, event) == other.event_flag(
                at,
                event,
            )
    }

    fn append(&mut self, id: String, patch: Patch)
        ensures
            final(self).patches_at(id@) == old(self).patches_at(id@).push(patch),
            final(self).same_but_patches_at(*old(self), id@),
    {
        proof {
            use_type_invariant(&*self);
        }
        let ghost before = *self;
        let mut patches: StrMap<Vec<Patch>> = StrMap::new();
        std::mem::swap(&mut self.patches, &mut patches);
        patches.facts();
        match patches.position(id.as_str()) {
            Some(i) => {
                let mut list = patches.replace_at(i, Vec::new());
                list.push(patch);
                let _ = patches.replace_at(i, list);
            },
            None => {
                let mut list: Vec<Patch> = Vec::new();
                list.push(patch);
                patches.insert(id, list);
            },
        }
        self.patches = patches;
        proof {
            assert(self.patches_at(id@) =~= before.patches_at(id@).push(patch));
        }
    }

    fn append_event(&mut self, id: String, name: String, value: bool)
        ensures
            final(self).event_flag(id@, name@) == Some(value),
            final(self).same_but_event(*old(self), id@, name@),
    {
        proof {
            use_type_invariant(&*self);
        }
        let ghost before = *self;
        let mut events: StrMap<StrMap<bool>> = StrMap::new();
        std::mem::swap(&mut self.events, &mut events);
        events.facts();
        match events.position(id.as_str()) {
            Some(i) => {
                let mut flags = events.replace_at(i, StrMap::new());
                flags.insert(name, value);
                proof {
                    assert(flags@.dom().contains(name@));
                }
                let _ = events.replace_at(i, flags);
            },
            None => {
                let mut flags: StrMap<bool> = StrMap::new();
                flags.insert(name, value);
                proof {
                    assert(flags@.dom().contains(name@));
                }
                events.insert(id, flags);
            },
        }
        self.events = events;
    }
}

} // verus!
