//! Maps from names to property values.

use super::prop::{Prop, PropView};
use crate::str_map::StrMap;
use vstd::prelude::*;

verus! {

/// A map from names to property values, in insertion order.
#[derive(Debug)]
pub struct Props {
    pub(crate) map: StrMap<Prop>,
}

impl Props {
    pub fn new() -> (props: Self)
        ensures
            props@ == Map::<Seq<char>, PropView>::empty(),
            props.keys() == Seq::<Seq<char>>::empty(),
    {
        let props = Props { map: StrMap::new() };
        proof {
            props.lemma_deep();
            assert(props@ =~= Map::<Seq<char>, PropView>::empty());
        }
        props
    }

    /// States what every map satisfies: the names are distinct and pair up
    /// with the values, and the map and every object nested in it have
    /// finitely many names.
    pub fn facts(&self)
        ensures
            self.keys().no_duplicates(),
            self.keys().len() == self.values().len(),
            self@.dom().finite(),
            crate::diff::finite_deep(self@),
            forall|i: int|
                0 <= i < self.keys().len() ==> self@.contains_key(#[trigger] self.keys()[i])
                    && self@[self.keys()[i]] == self.values()[i],
            forall|k: Seq<char>| #[trigger] self@.contains_key(k) ==> self.keys().contains(k),
    {
        self.map.facts();
        proof {
            self.lemma_deep();
            crate::diff::lemma_props_finite(*self);
        }
    }

    pub fn len(&self) -> (n: usize)
        ensures
            n == self.keys().len(),
    {
        proof {
            self.lemma_view();
        }
        self.map.len()
    }

    pub fn is_empty(&self) -> (b: bool)
        ensures
            b == (self.keys().len() == 0),
            b == (self@ == Map::<Seq<char>, PropView>::empty()),
    {
        self.facts();
        let b = self.len() == 0;
        proof {
            if b {
                assert(self@ =~= Map::<Seq<char>, PropView>::empty());
            } else {
                assert(self@.contains_key(self.keys()[0]));
            }
        }
        b
    }

    pub fn contains_key(&self, key: &str) -> (b: bool)
        ensures
            b == self@.contains_key(key@),
    {
        self.map.facts();
        proof {
            self.lemma_deep();
        }
        self.map.contains_key(key)
    }

    /// Whether `key` holds a value other than null.
    pub fn has(&self, key: &str) -> (b: bool)
        ensures
            b == (self@.contains_key(key@) && !(self@[key@] is Null)),
    {
        self.map.facts();
        proof {
            self.lemma_deep();
        }
        match self.map.get(key) {
            Some(prop) => !prop.is_null(),
            None => false,
        }
    }

    /// The value under `key`, or null where there is none.
    pub fn get(&self, key: &str) -> (prop: &Prop)
        ensures
            prop@ == (if self@.contains_key(key@) {
                self@[key@]
            } else {
                PropView::Null
            }),
    {
        self.map.facts();
        proof {
            self.lemma_deep();
        }
        match self.map.get(key) {
            Some(prop) => prop,
            None => &Prop::Null,
        }
    }

    /// The value under `key`, where there is one.
    pub fn find(&self, key: &str) -> (r: Option<&Prop>)
        ensures
            r is Some == self@.contains_key(key@),
            r matches Some(prop) ==> prop@ == self@[key@],
    {
        self.map.facts();
        proof {
            self.lemma_deep();
        }
        self.map.get(key)
    }

    /// A copy of the value under `key`, where there is one.
    pub fn take(&self, key: &str) -> (r: Option<Prop>)
        ensures
            r is Some == self@.contains_key(key@),
            r matches Some(prop) ==> prop@ == self@[key@],
    {
        match self.find(key) {
            Some(prop) => Some(prop.clone()),
            None => None,
        }
    }

    /// The name at position `i`.
    pub fn key_at(&self, i: usize) -> (key: &String)
        requires
            i < self.keys().len(),
        ensures
            key@ == self.keys()[i as int],
    {
        proof {
            self.lemma_view();
        }
        self.map.key_at(i)
    }

    /// The value at position `i`.
    pub fn value_at(&self, i: usize) -> (prop: &Prop)
        requires
            i < self.keys().len(),
        ensures
            prop@ == self.values()[i as int],
            self@.contains_key(self.keys()[i as int]),
            prop@ == self@[self.keys()[i as int]],
            decreases_to!(self => prop),
    {
        self.map.facts();
        proof {
            self.lemma_deep();
            self.map.lemma_entries();
        }
        self.map.value_at(i)
    }

    /// Sets `key` to `value`: in place where the name is present, at the end
    /// where it is new.
    pub fn insert(&mut self, key: String, value: Prop)
        ensures
            final(self)@ == old(self)@.insert(key@, value@),
            final(self).keys() == (if old(self)@.contains_key(key@) {
                old(self).keys()
            } else {
                old(self).keys().push(key@)
            }),
    {
        self.map.facts();
        let ghost before = *self;
        let ghost k = key@;
        let ghost v = value@;
        self.map.insert(key, value);
        self.map.facts();
        proof {
            before.lemma_deep();
            self.lemma_deep();
            assert(self@ =~= before@.insert(k, v));
        }
    }

    /// Puts in the place of the value under `key` what `f` makes of it,
    /// and does nothing where the name is absent. The names stay in their
    /// order.
    pub fn update<F: Fn(Prop) -> Prop>(&mut self, key: &str, f: F)
        requires
            forall|value: Prop| #[trigger] f.requires((value,)),
        ensures
            final(self).keys() == old(self).keys(),
            !old(self)@.contains_key(key@) ==> final(self)@ == old(self)@,
            old(self)@.contains_key(key@) ==> exists|value: Prop, made: Prop|
                value@ == old(self)@[key@] && #[trigger] f.ensures((value,), made) && final(self)@
                    == old(self)@.insert(key@, made@),
    {
        self.map.facts();
        let ghost before = *self;
        proof {
            before.lemma_deep();
        }
        match self.map.position(key) {
            Some(i) => {
                let value = self.map.replace_at(i, Prop::Null);
                let ghost emptied = *self;
                let made = f(value);
                let _ = self.map.replace_at(i, made);
                self.map.facts();
                proof {
                    emptied.lemma_view();
                    self.lemma_deep();
                    assert(value@ == before@[key@]);
                    assert(self@ =~= before@.insert(key@, made@));
                    assert(f.ensures((value,), made));
                }
            },
            None => {},
        }
    }

    /// Takes `key` out and hands its value back.
    pub fn remove(&mut self, key: &str) -> (r: Option<Prop>)
        ensures
            final(self)@ == old(self)@.remove(key@),
            r is Some == old(self)@.contains_key(key@),
            r matches Some(prop) ==> prop@ == old(self)@[key@],
    {
        self.map.facts();
        let ghost before = *self;
        let r = self.map.remove(key);
        self.map.facts();
        proof {
            before.lemma_deep();
            self.lemma_deep();
            assert(self@ =~= before@.remove(key@));
        }
        r
    }

    /// Copies every entry of `other` into the map, later values winning.
    pub fn extend(&mut self, other: &Props)
        ensures
            final(self)@ == old(self)@.union_prefer_right(other@),
    {
        other.facts();
        let ghost before = self@;
        let ghost names = other.keys();
        let mut i: usize = 0;
        while i < other.len()
            invariant
                i <= names.len(),
                names == other.keys(),
                names.no_duplicates(),
                names.len() == other.values().len(),
                forall|j: int|
                    0 <= j < names.len() ==> other@.contains_key(#[trigger] names[j]) && other@[names[j]]
                        == other.values()[j],
                forall|k: Seq<char>|
                    #![trigger self@.contains_key(k)]
                    self@.contains_key(k) <==> before.contains_key(k) || names.take(
                        i as int,
                    ).contains(k),
                forall|k: Seq<char>|
                    names.take(i as int).contains(k) ==> #[trigger] self@[k] == other@[k],
                forall|k: Seq<char>|
                    before.contains_key(k) && !names.take(i as int).contains(k) ==> #[trigger] self@[k]
                        == before[k],
            decreases names.len() - i,
        {
            let key = other.key_at(i).clone();
            let value = other.value_at(i).clone();
            let ghost held = self@;
            self.insert(key, value);
            proof {
                let done = names.take(i as int);
                let next = names.take(i + 1);
                assert(next =~= done.push(names[i as int]));
                assert forall|k: Seq<char>| next.contains(k) <==> done.contains(k) || k
                    == names[i as int] by {
                    if done.contains(k) {
                        let j = done.index_of(k);
                        assert(next[j] == k);
                    }
                    if k == names[i as int] {
                        assert(next[i as int] == k);
                    }
                    if next.contains(k) {
                        let j = next.index_of(k);
                        if j < i {
                            assert(done[j] == k);
                        }
                    }
                }
                assert forall|k: Seq<char>|
                    self@.contains_key(k) <==> before.contains_key(k) || next.contains(k) by {
                    assert(next.contains(k) <==> done.contains(k) || k == names[i as int]);
                    assert(held.contains_key(k) <==> before.contains_key(k) || done.contains(k));
                    assert(self@.contains_key(k) <==> held.contains_key(k) || k == names[i as int]);
                }
                assert forall|k: Seq<char>|
                    before.contains_key(k) && !next.contains(k) implies #[trigger] self@[k]
                    == before[k] by {
                    assert(next.contains(k) <==> done.contains(k) || k == names[i as int]);
                    assert(self@[k] == held[k]);
                }
                assert forall|k: Seq<char>| next.contains(k) implies #[trigger] self@[k]
                    == other@[k] by {
                    assert(next.contains(k) <==> done.contains(k) || k == names[i as int]);
                    if k != names[i as int] {
                        assert(self@[k] == held[k]);
                    }
                }
            }
            i = i + 1;
        }
        proof {
            assert(names.take(i as int) =~= names);
            assert forall|k: Seq<char>| other@.contains_key(k) <==> names.contains(k) by {
                if names.contains(k) {
                    let j = names.index_of(k);
                    assert(names[j] == k);
                }
            }
            assert(self@ =~= before.union_prefer_right(other@));
        }
    }
}

impl Clone for Props {
    fn clone(&self) -> (r: Self)
        ensures
            r@ == self@,
            r.keys() == self.keys(),
        decreases self,
    {
        self.map.facts();
        proof {
            self.lemma_deep();
            self.lemma_view();
            self.map.lemma_entries();
        }
        let mut copy = Props { map: StrMap::new() };
        proof {
            copy.lemma_view();
        }
        let mut i: usize = 0;
        while i < self.map.entries.len()
            invariant
                i <= self.map.entries.len(),
                self.keys() == self.map.keys(),
                self.keys() == crate::str_map::entry_keys(self.map.entries@),
                self.values() == super::prop::entry_views(self.map.entries@),
                self.keys().no_duplicates(),
                copy.keys() == self.keys().take(i as int),
                copy.values() == self.values().take(i as int),
            decreases self.map.entries.len() - i,
        {
            let key = self.map.entries[i].0.clone();
            let value = self.map.entries[i].1.clone();
            let ghost before = copy;
            copy.map.facts();
            proof {
                copy.lemma_deep();
                if copy.keys().contains(key@) {
                    let j = copy.keys().index_of(key@);
                    assert(self.keys()[j] == self.keys()[i as int]);
                }
            }
            copy.map.insert(key, value);
            proof {
                copy.lemma_view();
                before.lemma_view();
                assert(copy.keys() =~= self.keys().take(i + 1));
                assert(copy.values() =~= self.values().take(i + 1));
            }
            i = i + 1;
        }
        proof {
            assert(self.keys().take(i as int) =~= self.keys());
            assert(self.values().take(i as int) =~= self.values());
        }
        copy
    }
}

} // verus!
