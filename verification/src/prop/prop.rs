//! The property value and its mathematical model.

use super::array::Array;
use super::function::{Function, Handlers};
use super::number::{bits_zero, number_eq, Number};
use super::props::Props;
use crate::str_map::{entry_keys, lemma_seq_map, seq_map};
use vstd::prelude::*;

verus! {

/// A property value.
#[derive(Debug)]
pub enum Prop {
    Null,
    Boolean(bool),
    Number(Number),
    String(String),
    Function(Function),
    Array(Array),
    Object(Props),
}

/// What a property value is, as mathematics: a number by its bit pattern, a
/// callable by its identity, a list as a sequence and an object as a map.
pub enum PropView {
    Null,
    Boolean(bool),
    Number(u64),
    String(Seq<char>),
    Function(u64),
    Array(Seq<PropView>),
    Object(Map<Seq<char>, PropView>),
}

/// The models of a sequence of values.
pub open spec fn prop_views(items: Seq<Prop>) -> Seq<PropView>
    decreases items, 0int,
{
    Seq::new(
        items.len(),
        |i: int|
            if 0 <= i < items.len() {
                items[i].view()
            } else {
                PropView::Null
            },
    )
}

/// The models of the values of a sequence of entries.
pub open spec fn entry_views(entries: Seq<(String, Prop)>) -> Seq<PropView>
    decreases entries, 0int,
{
    Seq::new(
        entries.len(),
        |i: int|
            if 0 <= i < entries.len() {
                entries[i].1.view()
            } else {
                PropView::Null
            },
    )
}

impl Prop {
    pub open spec fn view(self) -> PropView
        decreases self, 0int,
    {
        match self {
            Prop::Null => PropView::Null,
            Prop::Boolean(b) => PropView::Boolean(b),
            Prop::Number(n) => PropView::Number(n@),
            Prop::String(s) => PropView::String(s@),
            Prop::Function(f) => PropView::Function(f@),
            Prop::Array(a) => PropView::Array(a.view()),
            Prop::Object(o) => PropView::Object(o.view()),
        }
    }
}

impl Array {
    /// The models of the items, in order.
    pub closed spec fn view(self) -> Seq<PropView>
        decreases self, 0int,
    {
        prop_views(self.items@)
    }

    pub(crate) proof fn lemma_view(self)
        ensures
            self@ == prop_views(self.items@),
            self@.len() == self.items@.len(),
            forall|i: int| 0 <= i < self.items@.len() ==> #[trigger] self@[i] == self.items@[i]@,
    {
    }
}

impl Props {
    /// The names, in order of insertion.
    pub closed spec fn keys(self) -> Seq<Seq<char>> {
        entry_keys(self.map.entries@)
    }

    /// The models of the values, in the order of their names.
    pub closed spec fn values(self) -> Seq<PropView>
        decreases self, 0int,
    {
        entry_views(self.map.entries@)
    }

    /// The map from names to the models of their values.
    pub open spec fn view(self) -> Map<Seq<char>, PropView>
        decreases self, 1int,
    {
        seq_map(self.keys(), self.values())
    }

    pub(crate) proof fn lemma_view(self)
        ensures
            self.keys() == entry_keys(self.map.entries@),
            self.keys() == self.map.keys(),
            self.values() == entry_views(self.map.entries@),
            self.values().len() == self.map.values().len(),
            forall|i: int|
                0 <= i < self.map.values().len() ==> #[trigger] self.values()[i]
                    == self.map.values()[i]@,
    {
        self.map.lemma_entries();
    }

    /// The model agrees, name by name, with the map that holds the values.
    pub(crate) proof fn lemma_deep(self)
        requires
            self.map.keys().no_duplicates(),
            self.map.keys().len() == self.map.values().len(),
        ensures
            self.keys() == self.map.keys(),
            self.keys().len() == self.values().len(),
            self@.dom() =~= self.map@.dom(),
            self@.dom().finite(),
            forall|k: Seq<char>| #[trigger]
                self.map@.contains_key(k) ==> self@.contains_key(k) && self@[k] == self.map@[k]@,
            forall|i: int|
                0 <= i < self.keys().len() ==> self@.contains_key(#[trigger] self.keys()[i])
                    && self@[self.keys()[i]] == self.values()[i] && self.values()[i]
                    == self.map.values()[i]@,
            forall|k: Seq<char>| #[trigger] self@.contains_key(k) ==> self.keys().contains(k),
    {
        self.lemma_view();
        lemma_seq_map(self.keys(), self.values());
        lemma_seq_map(self.map.keys(), self.map.values());
        assert forall|k: Seq<char>| #[trigger] self.map@.contains_key(k) implies self@.contains_key(
            k,
        ) && self@[k] == self.map@[k]@ by {
            let i = self.keys().index_of(k);
            assert(self.keys()[i] == k);
        }
    }
}

/// Whether a value counts as true.
pub open spec fn spec_truthy(v: PropView) -> bool {
    match v {
        PropView::Null => false,
        PropView::Boolean(b) => b,
        PropView::Number(bits) => !bits_zero(bits),
        PropView::String(text) => text.len() != 0,
        PropView::Function(_) => true,
        PropView::Array(items) => items.len() != 0,
        PropView::Object(map) => !(map == Map::<Seq<char>, PropView>::empty()),
    }
}

/// Structural equality of two values: numbers compare as IEEE 754 doubles,
/// callables by identity, lists item by item and objects name by name.
pub open spec fn same(a: PropView, b: PropView) -> bool
    decreases a,
{
    match a {
        PropView::Null => b is Null,
        PropView::Boolean(x) => b matches PropView::Boolean(y) && x == y,
        PropView::Number(x) => b matches PropView::Number(y) && number_eq(x, y),
        PropView::String(x) => b matches PropView::String(y) && x == y,
        PropView::Function(x) => b matches PropView::Function(y) && x == y,
        PropView::Array(x) => b matches PropView::Array(y) && same_items(x, y),
        PropView::Object(x) => b matches PropView::Object(y) && same_entries(x, y),
    }
}

/// Structural equality of two lists.
pub open spec fn same_items(x: Seq<PropView>, y: Seq<PropView>) -> bool
    decreases x,
{
    x.len() == y.len() && forall|i: int| 0 <= i < x.len() ==> same(#[trigger] x[i], y[i])
}

/// Structural equality of two objects.
pub open spec fn same_entries(x: Map<Seq<char>, PropView>, y: Map<Seq<char>, PropView>) -> bool
    decreases x,
{
    x.dom().finite() && x.dom() =~= y.dom() && forall|k: Seq<char>|
        x.contains_key(k) ==> same(#[trigger] x[k], y[k])
}

impl Clone for Prop {
    fn clone(&self) -> (r: Self)
        ensures
            r@ == self@,
        decreases self,
    {
        match self {
            Prop::Null => Prop::Null,
            Prop::Boolean(b) => Prop::Boolean(*b),
            Prop::Number(n) => Prop::Number(*n),
            Prop::String(s) => Prop::String(s.clone()),
            Prop::Function(f) => Prop::Function(*f),
            Prop::Array(a) => Prop::Array(a.clone()),
            Prop::Object(o) => Prop::Object(o.clone()),
        }
    }
}

impl Prop {
    pub fn null(&self) -> (r: Option<()>)
        ensures
            r is Some == (self@ is Null),
    {
        match self {
            Prop::Null => Some(()),
            _ => None,
        }
    }

    pub fn boolean(&self) -> (r: Option<bool>)
        ensures
            r == (match self@ {
                PropView::Boolean(b) => Some(b),
                _ => None,
            }),
    {
        match self {
            Prop::Boolean(v) => Some(*v),
            _ => None,
        }
    }

    pub fn number(&self) -> (r: Option<Number>)
        ensures
            match self@ {
                PropView::Number(bits) => r matches Some(n) && n@ == bits,
                _ => r is None,
            },
    {
        match self {
            Prop::Number(v) => Some(*v),
            _ => None,
        }
    }

    pub fn string(&self) -> (r: Option<&String>)
        ensures
            match self@ {
                PropView::String(text) => r matches Some(s) && s@ == text,
                _ => r is None,
            },
    {
        match self {
            Prop::String(v) => Some(v),
            _ => None,
        }
    }

    pub fn function(&self) -> (r: Option<&Function>)
        ensures
            match self@ {
                PropView::Function(id) => r matches Some(f) && f@ == id,
                _ => r is None,
            },
    {
        match self {
            Prop::Function(v) => Some(v),
            _ => None,
        }
    }

    pub fn array(&self) -> (r: Option<&Array>)
        ensures
            match self@ {
                PropView::Array(items) => r matches Some(a) && a@ == items,
                _ => r is None,
            },
    {
        match self {
            Prop::Array(v) => Some(v),
            _ => None,
        }
    }

    pub fn object(&self) -> (r: Option<&Props>)
        ensures
            match self@ {
                PropView::Object(map) => r matches Some(o) && o@ == map,
                _ => r is None,
            },
    {
        match self {
            Prop::Object(v) => Some(v),
            _ => None,
        }
    }

    pub fn array_mut(&mut self) -> (r: Option<&mut Array>)
        ensures
            match old(self)@ {
                PropView::Array(items) => r matches Some(found) && found@ == items && final(self)@
                    == PropView::Array(final(found)@),
                _ => r is None && final(self)@ == old(self)@,
            },
    {
        match self {
            Prop::Array(v) => Some(v),
            _ => None,
        }
    }

    pub fn object_mut(&mut self) -> (r: Option<&mut Props>)
        ensures
            match old(self)@ {
                PropView::Object(map) => r matches Some(found) && found@ == map && final(self)@
                    == PropView::Object(final(found)@),
                _ => r is None && final(self)@ == old(self)@,
            },
    {
        match self {
            Prop::Object(v) => Some(v),
            _ => None,
        }
    }

    pub fn take_null(self) -> (r: Result<(), Self>)
        ensures
            match r {
                Ok(_) => self@ is Null,
                Err(prop) => !(self@ is Null) && prop == self,
            },
    {
        match self {
            Prop::Null => Ok(()),
            _ => Err(self),
        }
    }

    pub fn take_boolean(self) -> (r: Result<bool, Self>)
        ensures
            match r {
                Ok(b) => self@ == PropView::Boolean(b),
                Err(prop) => !(self@ is Boolean) && prop == self,
            },
    {
        match self {
            Prop::Boolean(v) => Ok(v),
            _ => Err(self),
        }
    }

    pub fn take_number(self) -> (r: Result<Number, Self>)
        ensures
            match r {
                Ok(n) => self@ == PropView::Number(n@),
                Err(prop) => !(self@ is Number) && prop == self,
            },
    {
        match self {
            Prop::Number(v) => Ok(v),
            _ => Err(self),
        }
    }

    pub fn take_string(self) -> (r: Result<String, Self>)
        ensures
            match r {
                Ok(s) => self@ == PropView::String(s@),
                Err(prop) => !(self@ is String) && prop == self,
            },
    {
        match self {
            Prop::String(v) => Ok(v),
            _ => Err(self),
        }
    }

    pub fn take_function(self) -> (r: Result<Function, Self>)
        ensures
            match r {
                Ok(f) => self@ == PropView::Function(f@),
                Err(prop) => !(self@ is Function) && prop == self,
            },
    {
        match self {
            Prop::Function(v) => Ok(v),
            _ => Err(self),
        }
    }

    pub fn take_array(self) -> (r: Result<Array, Self>)
        ensures
            match r {
                Ok(a) => self@ == PropView::Array(a@),
                Err(prop) => !(self@ is Array) && prop == self,
            },
    {
        match self {
            Prop::Array(v) => Ok(v),
            _ => Err(self),
        }
    }

    pub fn take_object(self) -> (r: Result<Props, Self>)
        ensures
            match r {
                Ok(o) => self@ == PropView::Object(o@),
                Err(prop) => !(self@ is Object) && prop == self,
            },
    {
        match self {
            Prop::Object(v) => Ok(v),
            _ => Err(self),
        }
    }

    /// Calls the value where it is a callable.
    pub fn call<H: Handlers>(&self, handlers: &mut H, e: &mut Props) -> (r: Option<Prop>)
        ensures
            r is Some == (self@ is Function),
    {
        match self {
            Prop::Function(f) => Some(handlers.call(f, e)),
            _ => None,
        }
    }

    /// Whether the value counts as true: null, false, zero, the empty
    /// string, list and object do not.
    pub fn is_truthy(&self) -> (b: bool)
        ensures
            b == spec_truthy(self@),
    {
        match self {
            Prop::Null => false,
            Prop::Boolean(v) => *v,
            Prop::Number(v) => !v.is_zero(),
            Prop::String(v) => v.as_str().unicode_len() != 0,
            Prop::Function(_) => true,
            Prop::Array(v) => !v.is_empty(),
            Prop::Object(v) => !v.is_empty(),
        }
    }

    pub fn is_falsey(&self) -> (b: bool)
        ensures
            b == !spec_truthy(self@),
    {
        !self.is_truthy()
    }

    pub fn is_true(&self) -> (b: bool)
        ensures
            b == (self@ == PropView::Boolean(true)),
    {
        match self {
            Prop::Boolean(v) => *v,
            _ => false,
        }
    }

    pub fn is_false(&self) -> (b: bool)
        ensures
            b == (self@ == PropView::Boolean(false)),
    {
        match self {
            Prop::Boolean(v) => !*v,
            _ => false,
        }
    }

    pub fn is_null(&self) -> (b: bool)
        ensures
            b == (self@ is Null),
    {
        match self {
            Prop::Null => true,
            _ => false,
        }
    }

    pub fn is_boolean(&self) -> (b: bool)
        ensures
            b == (self@ is Boolean),
    {
        match self {
            Prop::Boolean(_) => true,
            _ => false,
        }
    }

    pub fn is_number(&self) -> (b: bool)
        ensures
            b == (self@ is Number),
    {
        match self {
            Prop::Number(_) => true,
            _ => false,
        }
    }

    pub fn is_string(&self) -> (b: bool)
        ensures
            b == (self@ is String),
    {
        match self {
            Prop::String(_) => true,
            _ => false,
        }
    }

    pub fn is_function(&self) -> (b: bool)
        ensures
            b == (self@ is Function),
    {
        match self {
            Prop::Function(_) => true,
            _ => false,
        }
    }

    pub fn is_array(&self) -> (b: bool)
        ensures
            b == (self@ is Array),
    {
        match self {
            Prop::Array(_) => true,
            _ => false,
        }
    }

    pub fn is_object(&self) -> (b: bool)
        ensures
            b == (self@ is Object),
    {
        match self {
            Prop::Object(_) => true,
            _ => false,
        }
    }

    /// Structural equality.
    pub fn same(&self, other: &Prop) -> (b: bool)
        ensures
            b == same(self@, other@),
        decreases self,
    {
        match self {
            Prop::Null => match other {
                Prop::Null => true,
                _ => false,
            },
            Prop::Boolean(x) => match other {
                Prop::Boolean(y) => *x == *y,
                _ => false,
            },
            Prop::Number(x) => match other {
                Prop::Number(y) => x.same(y),
                _ => false,
            },
            Prop::String(x) => match other {
                Prop::String(y) => *x == *y,
                _ => false,
            },
            Prop::Function(x) => match other {
                Prop::Function(y) => x.same(y),
                _ => false,
            },
            Prop::Array(x) => match other {
                Prop::Array(y) => x.same(y),
                _ => false,
            },
            Prop::Object(x) => match other {
                Prop::Object(y) => x.same(y),
                _ => false,
            },
        }
    }
}

impl Array {
    /// Structural equality, item by item.
    pub fn same(&self, other: &Array) -> (b: bool)
        ensures
            b == same_items(self@, other@),
        decreases self,
    {
        proof {
            self.lemma_view();
            other.lemma_view();
        }
        if self.items.len() != other.items.len() {
            return false;
        }
        let mut i: usize = 0;
        while i < self.items.len()
            invariant
                i <= self.items.len(),
                self.items.len() == other.items.len(),
                self@.len() == self.items@.len(),
                other@.len() == other.items@.len(),
                forall|j: int| 0 <= j < self.items@.len() ==> #[trigger] self@[j] == self.items@[j]@,
                forall|j: int|
                    0 <= j < other.items@.len() ==> #[trigger] other@[j] == other.items@[j]@,
                forall|j: int| 0 <= j < i ==> same(#[trigger] self@[j], other@[j]),
            decreases self.items.len() - i,
        {
            if !self.items[i].same(&other.items[i]) {
                assert(!same(self@[i as int], other@[i as int]));
                return false;
            }
            i = i + 1;
        }
        true
    }
}

impl Props {
    /// Structural equality, name by name.
    pub fn same(&self, other: &Props) -> (b: bool)
        ensures
            b == same_entries(self@, other@),
        decreases self,
    {
        self.map.facts();
        other.map.facts();
        proof {
            self.lemma_deep();
            other.lemma_deep();
            self.map.lemma_entries();
            other.map.lemma_entries();
        }
        let mut i: usize = 0;
        while i < self.map.entries.len()
            invariant
                i <= self.map.entries.len(),
                self.keys() == entry_keys(self.map.entries@),
                self.keys() == self.map.keys(),
                self.keys().len() == self.values().len(),
                self@.dom().finite(),
                other@.dom() =~= other.map@.dom(),
                forall|k: Seq<char>| #[trigger]
                    other.map@.contains_key(k) ==> other@[k] == other.map@[k]@,
                forall|j: int|
                    0 <= j < self.keys().len() ==> self@.contains_key(#[trigger] self.keys()[j])
                        && self@[self.keys()[j]] == self.values()[j] && self.values()[j]
                        == self.map.values()[j]@,
                self.map.values() == crate::str_map::entry_values(self.map.entries@),
                forall|j: int|
                    0 <= j < i ==> other@.contains_key(#[trigger] self.keys()[j]) && same(
                        self@[self.keys()[j]],
                        other@[self.keys()[j]],
                    ),
            decreases self.map.entries.len() - i,
        {
            let ghost k = self.keys()[i as int];
            assert(self.map.entries@[i as int].0@ == k);
            match other.map.get(self.map.entries[i].0.as_str()) {
                None => {
                    assert(self@.contains_key(k) && !other@.contains_key(k));
                    return false;
                },
                Some(theirs) => {
                    assert(self.map.values()[i as int] == self.map.entries@[i as int].1);
                    if !self.map.entries[i].1.same(theirs) {
                        assert(!same(self@[k], other@[k]));
                        return false;
                    }
                },
            }
            i = i + 1;
        }
        let mut j: usize = 0;
        while j < other.map.entries.len()
            invariant
                j <= other.map.entries.len(),
                other.keys() == entry_keys(other.map.entries@),
                self@.dom() =~= self.map@.dom(),
                forall|a: int|
                    0 <= a < other.keys().len() ==> other@.contains_key(#[trigger] other.keys()[a]),
                forall|a: int| 0 <= a < j ==> self@.contains_key(#[trigger] other.keys()[a]),
            decreases other.map.entries.len() - j,
        {
            let ghost k = other.keys()[j as int];
            assert(other.map.entries@[j as int].0@ == k);
            if !self.map.contains_key(other.map.entries[j].0.as_str()) {
                assert(other@.contains_key(k) && !self@.contains_key(k));
                return false;
            }
            j = j + 1;
        }
        proof {
            assert forall|k: Seq<char>| self@.contains_key(k) implies other@.contains_key(k) && same(
                #[trigger] self@[k],
                other@[k],
            ) by {
                let a = self.keys().index_of(k);
                assert(self.keys()[a] == k);
            }
            assert forall|k: Seq<char>| other@.contains_key(k) implies self@.contains_key(k) by {
                let a = other.keys().index_of(k);
                assert(other.keys()[a] == k);
            }
            assert(self@.dom() =~= other@.dom());
        }
        true
    }
}

} // verus!
