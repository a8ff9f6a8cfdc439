//! A map from strings to values that remembers the order of insertion.
//!
//! The entries live in a vector; a hash index built on the FNV hasher finds
//! the position of a key in constant time.

use fnv::FnvHashMap;
use vstd::prelude::*;

verus! {

/// `fnv::FnvHasher`, the hasher of the index. Nothing is known of it here
/// but that it is a type.
#[verifier::external_type_specification]
#[verifier::external_body]
pub struct ExFnvHasher(fnv::FnvHasher);

/// `std::hash::BuildHasherDefault`, which makes a hasher of the type it
/// is given by `Default`. Nothing is known of it here but that it is a
/// type.
#[verifier::external_type_specification]
#[verifier::external_body]
#[verifier::reject_recursive_types(H)]
pub struct ExBuildHasherDefault<H>(std::hash::BuildHasherDefault<H>);

/// The pairs of key and position that an index holds. An index is a
/// `fnv::FnvHashMap<String, usize>`: the hash map of the standard library
/// with the FNV hasher, which hashes the same text to the same value
/// always.
pub uninterp spec fn index_contents(index: FnvHashMap<String, usize>) -> Map<Seq<char>, usize>;

/// `FnvHashMap::default`, that is `HashMap::default` with the FNV hasher:
/// the new index holds no key.
#[verifier::external_body]
fn index_new() -> (index: FnvHashMap<String, usize>)
    ensures
        index_contents(index).dom() == Set::<Seq<char>>::empty(),
{
    FnvHashMap::default()
}

/// `HashMap::get` on an index: the position held under `key`, or none
/// where the index holds no such key. The index stays as it is.
#[verifier::external_body]
fn index_get(index: &FnvHashMap<String, usize>, key: &str) -> (position: Option<usize>)
    ensures
        position == (if index_contents(*index).contains_key(key@) {
            Some(index_contents(*index)[key@])
        } else {
            None
        }),
{
    index.get(key).copied()
}

/// `HashMap::insert` on an index: afterwards `key` is held with
/// `position`, in the place of what was held under it before, and every
/// other key is held as before.
#[verifier::external_body]
fn index_insert(index: &mut FnvHashMap<String, usize>, key: String, position: usize)
    ensures
        index_contents(*final(index)) == index_contents(*old(index)).insert(key@, position),
{
    index.insert(key, position);
}

/// `HashMap::remove` on an index: afterwards `key` is not held, and every
/// other key is held as before.
#[verifier::external_body]
fn index_remove(index: &mut FnvHashMap<String, usize>, key: &str)
    ensures
        index_contents(*final(index)) == index_contents(*old(index)).remove(key@),
{
    index.remove(key);
}

/// The map that pairs `keys[i]` with `values[i]`.
pub open spec fn seq_map<V>(keys: Seq<Seq<char>>, values: Seq<V>) -> Map<Seq<char>, V> {
    Map::new(|k: Seq<char>| keys.contains(k), |k: Seq<char>| values[keys.index_of(k)])
}

/// Whether `contents` maps every key to its position in `keys`, and nothing else.
pub open spec fn indexes(contents: Map<Seq<char>, usize>, keys: Seq<Seq<char>>) -> bool {
    &&& forall|k: Seq<char>| #[trigger]
        contents.contains_key(k) ==> (contents[k] as int) < keys.len() && keys[contents[k] as int]
            == k
    &&& forall|i: int|
        0 <= i < keys.len() ==> contents.contains_key(#[trigger] keys[i]) && contents[keys[i]] == i
}

/// With distinct keys, `seq_map` holds exactly the pairs of the two sequences.
pub proof fn lemma_seq_map<V>(keys: Seq<Seq<char>>, values: Seq<V>)
    requires
        keys.no_duplicates(),
        keys.len() == values.len(),
    ensures
        forall|i: int|
            0 <= i < keys.len() ==> seq_map(keys, values).contains_key(#[trigger] keys[i])
                && seq_map(keys, values)[keys[i]] == values[i],
        forall|k: Seq<char>| #[trigger]
            seq_map(keys, values).contains_key(k) ==> keys.contains(k),
        seq_map(keys, values).dom().finite(),
{
    assert forall|i: int| 0 <= i < keys.len() implies seq_map(keys, values).contains_key(
        #[trigger] keys[i],
    ) && seq_map(keys, values)[keys[i]] == values[i] by {
        let k = keys[i];
        assert(keys.contains(k));
        let j = keys.index_of(k);
        assert(keys[j] == k);
    }
    assert(seq_map(keys, values).dom() =~= keys.to_set());
    vstd::seq_lib::seq_to_set_is_finite(keys);
}

/// Appending a fresh key inserts it.
pub proof fn lemma_seq_map_push<V>(keys: Seq<Seq<char>>, values: Seq<V>, key: Seq<char>, value: V)
    requires
        keys.no_duplicates(),
        keys.len() == values.len(),
        !keys.contains(key),
    ensures
        keys.push(key).no_duplicates(),
        seq_map(keys.push(key), values.push(value)) == seq_map(keys, values).insert(key, value),
{
    let keys2 = keys.push(key);
    let values2 = values.push(value);
    assert forall|i: int, j: int|
        0 <= i < keys2.len() && 0 <= j < keys2.len() && i != j implies keys2[i] != keys2[j] by {
        if i < keys.len() {
            assert(keys.contains(keys[i]));
        }
        if j < keys.len() {
            assert(keys.contains(keys[j]));
        }
    }
    lemma_seq_map(keys, values);
    lemma_seq_map(keys2, values2);
    assert forall|k: Seq<char>| seq_map(keys2, values2).contains_key(k) <==> seq_map(
        keys,
        values,
    ).insert(key, value).contains_key(k) by {
        if keys2.contains(k) {
            let i = keys2.index_of(k);
            if i < keys.len() {
                assert(keys[i] == k);
            }
        }
        if keys.contains(k) {
            let i = keys.index_of(k);
            assert(keys2[i] == k);
        }
        if k == key {
            assert(keys2[keys.len() as int] == k);
        }
    }
    assert forall|k: Seq<char>| seq_map(keys2, values2).contains_key(k) implies seq_map(
        keys2,
        values2,
    )[k] == seq_map(keys, values).insert(key, value)[k] by {
        let i = keys2.index_of(k);
        assert(keys2[i] == k);
        if i < keys.len() {
            assert(keys[i] == k);
            assert(values2[i] == values[i]);
        }
    }
    assert(seq_map(keys2, values2) =~= seq_map(keys, values).insert(key, value));
}

/// Replacing the value at a position overwrites the key that stands there.
pub proof fn lemma_seq_map_update<V>(keys: Seq<Seq<char>>, values: Seq<V>, i: int, value: V)
    requires
        keys.no_duplicates(),
        keys.len() == values.len(),
        0 <= i < keys.len(),
    ensures
        seq_map(keys, values.update(i, value)) == seq_map(keys, values).insert(keys[i], value),
{
    let values2 = values.update(i, value);
    lemma_seq_map(keys, values);
    lemma_seq_map(keys, values2);
    assert(keys.contains(keys[i]));
    assert forall|k: Seq<char>| seq_map(keys, values2).contains_key(k) implies seq_map(
        keys,
        values2,
    )[k] == seq_map(keys, values).insert(keys[i], value)[k] by {
        let j = keys.index_of(k);
        assert(keys[j] == k);
    }
    assert(seq_map(keys, values2) =~= seq_map(keys, values).insert(keys[i], value));
}

/// Taking a position out removes the key that stood there.
pub proof fn lemma_seq_map_remove<V>(keys: Seq<Seq<char>>, values: Seq<V>, i: int)
    requires
        keys.no_duplicates(),
        keys.len() == values.len(),
        0 <= i < keys.len(),
    ensures
        keys.remove(i).no_duplicates(),
        !keys.remove(i).contains(keys[i]),
        seq_map(keys.remove(i), values.remove(i)) == seq_map(keys, values).remove(keys[i]),
{
    let keys2 = keys.remove(i);
    let values2 = values.remove(i);
    assert forall|a: int, b: int|
        0 <= a < keys2.len() && 0 <= b < keys2.len() && a != b implies keys2[a] != keys2[b] by {
        let a1 = if a < i { a } else { a + 1 };
        let b1 = if b < i { b } else { b + 1 };
        assert(keys2[a] == keys[a1]);
        assert(keys2[b] == keys[b1]);
    }
    if keys2.contains(keys[i]) {
        let a = keys2.index_of(keys[i]);
        let a1 = if a < i { a } else { a + 1 };
        assert(keys2[a] == keys[a1]);
    }
    lemma_seq_map(keys, values);
    lemma_seq_map(keys2, values2);
    assert forall|k: Seq<char>| seq_map(keys2, values2).contains_key(k) <==> seq_map(
        keys,
        values,
    ).remove(keys[i]).contains_key(k) by {
        if keys2.contains(k) {
            let a = keys2.index_of(k);
            let a1 = if a < i { a } else { a + 1 };
            assert(keys2[a] == keys[a1]);
        }
        if keys.contains(k) && k != keys[i] {
            let a = keys.index_of(k);
            let a2 = if a < i { a } else { a - 1 };
            assert(keys2[a2] == k);
        }
    }
    assert forall|k: Seq<char>| seq_map(keys2, values2).contains_key(k) implies seq_map(
        keys2,
        values2,
    )[k] == seq_map(keys, values).remove(keys[i])[k] by {
        let a = keys2.index_of(k);
        let a1 = if a < i { a } else { a + 1 };
        assert(keys2[a] == keys[a1]);
        assert(values2[a] == values[a1]);
    }
    assert(seq_map(keys2, values2) =~= seq_map(keys, values).remove(keys[i]));
}

/// A string-keyed map in insertion order.
#[derive(Debug)]
pub struct StrMap<V> {
    pub(crate) index: FnvHashMap<String, usize>,
    pub(crate) entries: Vec<(String, V)>,
}

/// The keys of a sequence of entries, in order.
pub open spec fn entry_keys<V>(entries: Seq<(String, V)>) -> Seq<Seq<char>> {
    Seq::new(entries.len(), |i: int| entries[i].0@)
}

/// The values of a sequence of entries, in order.
pub open spec fn entry_values<V>(entries: Seq<(String, V)>) -> Seq<V> {
    Seq::new(entries.len(), |i: int| entries[i].1)
}

impl<V> StrMap<V> {
    #[verifier::type_invariant]
    pub closed spec fn wf(self) -> bool {
        indexes(index_contents(self.index), entry_keys(self.entries@))
    }

    /// The keys, in order of insertion.
    pub closed spec fn keys(self) -> Seq<Seq<char>> {
        entry_keys(self.entries@)
    }

    /// The values, in the order of their keys.
    pub closed spec fn values(self) -> Seq<V> {
        entry_values(self.entries@)
    }

    /// The map itself.
    pub open spec fn view(self) -> Map<Seq<char>, V> {
        seq_map(self.keys(), self.values())
    }

    /// Inside the crate, `keys` and `values` are read off the entries.
    pub(crate) proof fn lemma_entries(self)
        ensures
            self.keys() == entry_keys(self.entries@),
            self.values() == entry_values(self.entries@),
    {
    }

    pub fn new() -> (m: Self)
        ensures
            m.keys() == Seq::<Seq<char>>::empty(),
            m.values() == Seq::<V>::empty(),
            m@ == Map::<Seq<char>, V>::empty(),
    {
        let m = StrMap { index: index_new(), entries: Vec::new() };
        assert(m.keys() =~= Seq::<Seq<char>>::empty());
        assert(m.values() =~= Seq::<V>::empty());
        assert(m@ =~= Map::<Seq<char>, V>::empty());
        m
    }

    /// States what every map satisfies: the keys are distinct and pair up
    /// with the values.
    pub fn facts(&self)
        ensures
            self.keys().no_duplicates(),
            self.keys().len() == self.values().len(),
            self@.dom().finite(),
            forall|i: int|
                0 <= i < self.keys().len() ==> self@.contains_key(#[trigger] self.keys()[i])
                    && self@[self.keys()[i]] == self.values()[i],
            forall|k: Seq<char>| #[trigger] self@.contains_key(k) ==> self.keys().contains(k),
    {
        proof {
            use_type_invariant(self);
            let keys = self.keys();
            let c = index_contents(self.index);
            assert forall|i: int, j: int|
                0 <= i < keys.len() && 0 <= j < keys.len() && i != j implies keys[i] != keys[j] by {
                assert(c[keys[i]] == i);
                assert(c[keys[j]] == j);
            }
            lemma_seq_map(self.keys(), self.values());
        }
    }

    pub fn len(&self) -> (n: usize)
        ensures
            n == self.keys().len(),
    {
        self.entries.len()
    }

    pub fn is_empty(&self) -> (b: bool)
        ensures
            b == (self.keys().len() == 0),
            b == (self@ == Map::<Seq<char>, V>::empty()),
    {
        self.facts();
        let b = self.entries.len() == 0;
        proof {
            if b {
                assert(self@ =~= Map::<Seq<char>, V>::empty());
            } else {
                assert(self@.contains_key(self.keys()[0]));
            }
        }
        b
    }

    /// Where `key` stands among the keys.
    pub fn position(&self, key: &str) -> (r: Option<usize>)
        ensures
            match r {
                Some(i) => i < self.keys().len() && self.keys()[i as int] == key@,
                None => !self.keys().contains(key@),
            },
            r is Some == self@.contains_key(key@),
    {
        proof {
            use_type_invariant(self);
        }
        self.facts();
        let r = index_get(&self.index, key);
        proof {
            let keys = self.keys();
            let c = index_contents(self.index);
            if r is None {
                if keys.contains(key@) {
                    let i = keys.index_of(key@);
                    assert(c.contains_key(keys[i]));
                }
            } else {
                assert(keys[c[key@] as int] == key@);
                assert(keys.contains(key@));
            }
        }
        r
    }

    pub fn contains_key(&self, key: &str) -> (b: bool)
        ensures
            b == self@.contains_key(key@),
    {
        self.position(key).is_some()
    }

    pub fn get(&self, key: &str) -> (r: Option<&V>)
        ensures
            r == (if self@.contains_key(key@) {
                Some(&self@[key@])
            } else {
                None
            }),
    {
        self.facts();
        match self.position(key) {
            Some(i) => Some(&self.entries[i].1),
            None => None,
        }
    }

    pub fn key_at(&self, i: usize) -> (k: &String)
        requires
            i < self.keys().len(),
        ensures
            k@ == self.keys()[i as int],
    {
        &self.entries[i].0
    }

    pub fn value_at(&self, i: usize) -> (v: &V)
        requires
            i < self.keys().len(),
        ensures
            *v == self.values()[i as int],
    {
        &self.entries[i].1
    }

    /// Sets `key` to `value`: in place where the key is present, at the end
    /// where it is new.
    pub fn insert(&mut self, key: String, value: V)
        ensures
            final(self)@ == old(self)@.insert(key@, value),
            old(self)@.contains_key(key@) ==> final(self).keys() == old(self).keys() && (exists|i: int|
                0 <= i < old(self).keys().len() && old(self).keys()[i] == key@
                    && final(self).values() == old(self).values().update(i, value)),
            !old(self)@.contains_key(key@) ==> final(self).keys() == old(self).keys().push(key@)
                && final(self).values() == old(self).values().push(value),
    {
        self.facts();
        let found = self.position(&key);
        let ghost old_keys = self.keys();
        let ghost old_values = self.values();
        let ghost k = key@;
        let mut taken = StrMap { index: index_new(), entries: Vec::new() };
        std::mem::swap(self, &mut taken);
        proof {
            use_type_invariant(&taken);
        }
        let StrMap { index, entries } = taken;
        let mut index = index;
        let mut entries = entries;
        match found {
            Some(i) => {
                let (held, _) = entries.remove(i);
                entries.insert(i, (held, value));
                proof {
                    assert(entry_keys(entries@) =~= old_keys);
                    assert(entry_values(entries@) =~= old_values.update(i as int, value));
                    lemma_seq_map_update(old_keys, old_values, i as int, value);
                }
            },
            None => {
                let n = entries.len();
                index_insert(&mut index, key.clone(), n);
                entries.push((key, value));
                proof {
                    assert(entry_keys(entries@) =~= old_keys.push(k));
                    assert(entry_values(entries@) =~= old_values.push(value));
                    lemma_seq_map_push(old_keys, old_values, k, value);
                    let keys2 = old_keys.push(k);
                    let c = index_contents(index);
                    assert forall|q: Seq<char>| #[trigger] c.contains_key(q) implies (c[q] as int)
                        < keys2.len() && keys2[c[q] as int] == q by {
                        if q != k {
                            assert(keys2[c[q] as int] == old_keys[c[q] as int]);
                        }
                    }
                    assert forall|j: int| 0 <= j < keys2.len() implies c.contains_key(
                        #[trigger] keys2[j],
                    ) && c[keys2[j]] == j by {
                        if j < old_keys.len() {
                            assert(keys2[j] == old_keys[j]);
                            assert(old_keys.contains(old_keys[j]));
                        }
                    }
                }
            },
        }
        *self = StrMap { index, entries };
    }

    /// Replaces the value at position `i` and hands the old one back.
    pub fn replace_at(&mut self, i: usize, value: V) -> (previous: V)
        requires
            i < old(self).keys().len(),
        ensures
            previous == old(self).values()[i as int],
            final(self).keys() == old(self).keys(),
            final(self).values() == old(self).values().update(i as int, value),
            final(self)@ == old(self)@.insert(old(self).keys()[i as int], value),
    {
        self.facts();
        let ghost old_keys = self.keys();
        let ghost old_values = self.values();
        let mut taken = StrMap { index: index_new(), entries: Vec::new() };
        std::mem::swap(self, &mut taken);
        proof {
            use_type_invariant(&taken);
        }
        let StrMap { index, entries } = taken;
        let mut entries = entries;
        let (held, previous) = entries.remove(i);
        entries.insert(i, (held, value));
        proof {
            assert(entry_keys(entries@) =~= old_keys);
            assert(entry_values(entries@) =~= old_values.update(i as int, value));
            lemma_seq_map_update(old_keys, old_values, i as int, value);
        }
        *self = StrMap { index, entries };
        previous
    }

    /// Takes `key` out; the keys behind it move up by one.
    pub fn remove(&mut self, key: &str) -> (r: Option<V>)
        ensures
            final(self)@ == old(self)@.remove(key@),
            r == (if old(self)@.contains_key(key@) {
                Some(old(self)@[key@])
            } else {
                None
            }),
            !old(self)@.contains_key(key@) ==> final(self).keys() == old(self).keys()
                && final(self).values() == old(self).values(),
            old(self)@.contains_key(key@) ==> (exists|i: int|
                0 <= i < old(self).keys().len() && old(self).keys()[i] == key@
                    && final(self).keys() == old(self).keys().remove(i)
                    && final(self).values() == old(self).values().remove(i)),
    {
        self.facts();
        let found = self.position(key);
        let ghost old_keys = self.keys();
        let ghost old_values = self.values();
        match found {
            None => {
                proof {
                    assert(self@.remove(key@) =~= self@);
                }
                None
            },
            Some(i) => {
                let mut taken = StrMap { index: index_new(), entries: Vec::new() };
                std::mem::swap(self, &mut taken);
                proof {
                    use_type_invariant(&taken);
                }
                let StrMap { index, entries } = taken;
                let mut index = index;
                let mut entries = entries;
                let (_, value) = entries.remove(i);
                index_remove(&mut index, key);
                let ghost keys2 = old_keys.remove(i as int);
                proof {
                    assert(entry_keys(entries@) =~= keys2);
                    assert(entry_values(entries@) =~= old_values.remove(i as int));
                    lemma_seq_map_remove(old_keys, old_values, i as int);
                    let c = index_contents(index);
                    assert forall|q: Seq<char>|
                        #[trigger] c.contains_key(q) implies keys2.contains(q) by {
                        let a = index_contents(taken.index)[q] as int;
                        assert(old_keys[a] == q);
                        let a2 = if a < i { a } else { a - 1 };
                        assert(keys2[a2] == q);
                    }
                    assert forall|a: int| 0 <= a < keys2.len() implies c.contains_key(
                        #[trigger] keys2[a],
                    ) && c[keys2[a]] == (if a < i { a } else { a + 1 }) by {
                        let a1 = if a < i { a } else { a + 1 };
                        assert(keys2[a] == old_keys[a1]);
                    }
                }
                let mut j: usize = i;
                while j < entries.len()
                    invariant
                        i <= j <= entries.len(),
                        entry_keys(entries@) == keys2,
                        keys2.no_duplicates(),
                        forall|q: Seq<char>| #[trigger]
                            index_contents(index).contains_key(q) ==> keys2.contains(q),
                        forall|a: int|
                            0 <= a < keys2.len() ==> index_contents(index).contains_key(
                                #[trigger] keys2[a],
                            ),
                        forall|a: int|
                            0 <= a < j ==> index_contents(index)[#[trigger] keys2[a]] == a,
                        forall|a: int|
                            j <= a < keys2.len() ==> index_contents(index)[#[trigger] keys2[a]]
                                == a + 1,
                    decreases entries.len() - j,
                {
                    let ghost before = index_contents(index);
                    index_insert(&mut index, entries[j].0.clone(), j);
                    proof {
                        let c = index_contents(index);
                        assert(entries@[j as int].0@ == keys2[j as int]);
                        assert forall|q: Seq<char>|
                            #[trigger] c.contains_key(q) implies keys2.contains(q) by {
                            if q != keys2[j as int] {
                                assert(before.contains_key(q));
                            }
                        }
                        assert forall|a: int|
                            0 <= a < j + 1 implies c[#[trigger] keys2[a]] == a by {
                            if a < j {
                                assert(before[keys2[a]] == a);
                            }
                        }
                        assert forall|a: int| j + 1 <= a < keys2.len() implies c[#[trigger] keys2[a]]
                            == a + 1 by {
                            assert(before[keys2[a]] == a + 1);
                        }
                    }
                    j = j + 1;
                }
                proof {
                    let c = index_contents(index);
                    assert forall|q: Seq<char>| #[trigger] c.contains_key(q) implies (c[q] as int)
                        < keys2.len() && keys2[c[q] as int] == q by {
                        let a = keys2.index_of(q);
                        assert(keys2[a] == q);
                    }
                }
                *self = StrMap { index, entries };
                Some(value)
            },
        }
    }
}

} // verus!
