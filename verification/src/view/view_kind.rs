//! What a view is an instance of: a tag or a component.

use vstd::prelude::*;

verus! {

/// The handle of a component type: a stable tag that tells the types
/// apart, and a name for display.
#[derive(Debug)]
pub struct ComponentRef {
    type_id: u64,
    name: String,
}

/// The kind of an element.
#[derive(Debug)]
pub enum ViewKind {
    String(String),
    Component(ComponentRef),
}

/// What a kind is, as mathematics.
pub enum KindModel {
    Tag(Seq<char>),
    Component(u64, Seq<char>),
}

/// Kinds are the same when they are the same tag, or components of the
/// same type; the name of a component plays no part.
pub open spec fn same_kind(a: KindModel, b: KindModel) -> bool {
    match a {
        KindModel::Tag(x) => b matches KindModel::Tag(y) && x == y,
        KindModel::Component(x, _) => b matches KindModel::Component(y, _) && x == y,
    }
}

impl ComponentRef {
    pub closed spec fn type_tag(self) -> u64 {
        self.type_id
    }

    pub closed spec fn name_text(self) -> Seq<char> {
        self.name@
    }

    pub fn new(type_id: u64, name: String) -> (component: Self)
        ensures
            component.type_tag() == type_id,
            component.name_text() == name@,
    {
        ComponentRef { type_id, name }
    }

    pub fn type_id(&self) -> (id: u64)
        ensures
            id == self.type_tag(),
    {
        self.type_id
    }

    pub fn name(&self) -> (name: &String)
        ensures
            name@ == self.name_text(),
    {
        &self.name
    }
}

impl Clone for ComponentRef {
    fn clone(&self) -> (r: Self)
        ensures
            r.type_tag() == self.type_tag(),
            r.name_text() == self.name_text(),
    {
        ComponentRef { type_id: self.type_id, name: self.name.clone() }
    }
}

impl ViewKind {
    pub open spec fn view(self) -> KindModel {
        match self {
            ViewKind::String(s) => KindModel::Tag(s@),
            ViewKind::Component(c) => KindModel::Component(c.type_tag(), c.name_text()),
        }
    }

    pub fn is_string(&self) -> (b: bool)
        ensures
            b == (self@ is Tag),
    {
        match self {
            ViewKind::String(_) => true,
            ViewKind::Component(_) => false,
        }
    }

    pub fn is_component(&self) -> (b: bool)
        ensures
            b == (self@ is Component),
    {
        match self {
            ViewKind::String(_) => false,
            ViewKind::Component(_) => true,
        }
    }

    /// The tag of the component type; a tag name has none.
    pub fn type_id(&self) -> (id: Option<u64>)
        ensures
            id == (match self@ {
                KindModel::Tag(_) => None,
                KindModel::Component(t, _) => Some(t),
            }),
    {
        match self {
            ViewKind::String(_) => None,
            ViewKind::Component(c) => Some(c.type_id()),
        }
    }

    /// The tag name of a kind that is one.
    pub fn take_string(self) -> (s: String)
        requires
            self@ is Tag,
        ensures
            self@ == KindModel::Tag(s@),
    {
        match self {
            ViewKind::String(s) => s,
            ViewKind::Component(c) => c.name,
        }
    }

    /// Whether two kinds are the same.
    pub fn same(&self, other: &ViewKind) -> (b: bool)
        ensures
            b == same_kind(self@, other@),
    {
        match self {
            ViewKind::String(a) => match other {
                ViewKind::String(b) => *a == *b,
                ViewKind::Component(_) => false,
            },
            ViewKind::Component(a) => match other {
                ViewKind::String(_) => false,
                ViewKind::Component(b) => a.type_id() == b.type_id(),
            },
        }
    }
}

impl Clone for ViewKind {
    fn clone(&self) -> (r: Self)
        ensures
            r@ == self@,
    {
        match self {
            ViewKind::String(s) => ViewKind::String(s.clone()),
            ViewKind::Component(c) => ViewKind::Component(c.clone()),
        }
    }
}

} // verus!
