//! The view: what should exist at one position of the tree.

use super::view_kind::{same_kind, ComponentRef, KindModel, ViewKind};
use crate::prop::{same_entries, Prop, PropView, Props};
use crate::utils::{key_text, opt_text};
use vstd::prelude::*;
use vstd::view::View as _;

verus! {

/// The children of an element.
pub type Children = Vec<View>;

/// A text or an element.
#[derive(Debug)]
pub enum View {
    Text(String),
    Data { kind: ViewKind, key: Option<String>, props: Props, children: Children },
}

/// What a view is, as mathematics.
pub enum ViewModel {
    Text(Seq<char>),
    Data {
        kind: KindModel,
        key: Option<Seq<char>>,
        props: Map<Seq<char>, PropView>,
        children: Seq<ViewModel>,
    },
}

/// The models of a sequence of views.
pub open spec fn view_models(views: Seq<View>) -> Seq<ViewModel>
    decreases views,
{
    Seq::new(
        views.len(),
        |i: int|
            if 0 <= i < views.len() {
                views[i].view()
            } else {
                ViewModel::Text(Seq::empty())
            },
    )
}

impl View {
    pub open spec fn view(self) -> ViewModel
        decreases self,
    {
        match self {
            View::Text(text) => ViewModel::Text(text@),
            View::Data { kind, key, props, children } => ViewModel::Data {
                kind: kind@,
                key: key_text(key),
                props: props@,
                children: view_models(children@),
            },
        }
    }

    /// The key of an element that has one.
    pub open spec fn spec_key(self) -> Option<Seq<char>> {
        match self {
            View::Text(_) => None,
            View::Data { key, .. } => key_text(key),
        }
    }
}

/// The key of a view model: a text has none.
pub open spec fn model_key(view: ViewModel) -> Option<Seq<char>> {
    match view {
        ViewModel::Text(_) => None,
        ViewModel::Data { key, .. } => key,
    }
}

/// Structural equality of views: kinds compare by tag or component type,
/// properties as property maps, children one by one.
pub open spec fn same_view(a: ViewModel, b: ViewModel) -> bool
    decreases a,
{
    match a {
        ViewModel::Text(x) => b matches ViewModel::Text(y) && x == y,
        ViewModel::Data { kind, key, props, children } => b matches ViewModel::Data {
            kind: kind2,
            key: key2,
            props: props2,
            children: children2,
        } && same_kind(kind, kind2) && key == key2 && same_entries(props, props2) && same_views(
            children,
            children2,
        ),
    }
}

/// Structural equality of two lists of views.
pub open spec fn same_views(x: Seq<ViewModel>, y: Seq<ViewModel>) -> bool
    decreases x,
{
    x.len() == y.len() && forall|i: int| 0 <= i < x.len() ==> same_view(#[trigger] x[i], y[i])
}

impl Clone for View {
    fn clone(&self) -> (r: Self)
        ensures
            r@ == self@,
        decreases self,
    {
        match self {
            View::Text(text) => View::Text(text.clone()),
            View::Data { kind, key, props, children } => {
                let key2 = match key {
                    Some(k) => Some(k.clone()),
                    None => None,
                };
                let copies = clone_views(children);
                View::Data { kind: kind.clone(), key: key2, props: props.clone(), children: copies }
            },
        }
    }
}

/// Copies a list of views.
pub fn clone_views(views: &Vec<View>) -> (copies: Vec<View>)
    ensures
        view_models(copies@) == view_models(views@),
        copies@.len() == views@.len(),
    decreases views,
{
    let mut copies: Vec<View> = Vec::new();
    let mut i: usize = 0;
    while i < views.len()
        invariant
            i <= views.len(),
            copies@.len() == i,
            forall|j: int| 0 <= j < i ==> #[trigger] copies@[j]@ == views@[j]@,
        decreases views.len() - i,
    {
        let copy = views[i].clone();
        copies.push(copy);
        i = i + 1;
    }
    assert forall|j: int| 0 <= j < views@.len() implies view_models(copies@)[j] == view_models(
        views@,
    )[j] by {
        assert(copies@[j]@ == views@[j]@);
    }
    assert(view_models(copies@) =~= view_models(views@));
    copies
}

impl View {
    /// An element of the given kind. A string under the name `key` among
    /// the properties becomes the key of the element.
    pub fn new(kind: ViewKind, props: Props, children: Children) -> (view: Self)
        ensures
            view@ matches ViewModel::Data { kind: k, key, props: p, children: c } && k == kind@
                && c == view_models(children@) && (match props@.get(seq!['k', 'e', 'y']) {
                Some(PropView::String(text)) => key == Some(text) && p == props@.remove(
                    seq!['k', 'e', 'y'],
                ),
                _ => key is None && p == props@,
            }),
    {
        proof {
            reveal_strlit("key");
            assert("key"@ =~= seq!['k', 'e', 'y']);
        }
        let mut props = props;
        let is_text = match props.find("key") {
            Some(prop) => prop.is_string(),
            None => false,
        };
        if is_text {
            let key = match props.remove("key") {
                Some(Prop::String(text)) => Some(text),
                _ => None,
            };
            View::Data { kind, key, props, children }
        } else {
            View::Data { kind, key: None, props, children }
        }
    }

    /// The empty text.
    pub fn new_empty() -> (view: Self)
        ensures
            view@ == ViewModel::Text(Seq::empty()),
    {
        View::Text(String::new())
    }

    pub fn new_text(text: &str) -> (view: Self)
        ensures
            view@ == ViewModel::Text(text@),
    {
        View::Text(String::from_str(text))
    }

    /// An element with the given tag, without key, properties or children.
    pub fn new_data(kind: &str) -> (view: Self)
        ensures
            view@ == (ViewModel::Data {
                kind: KindModel::Tag(kind@),
                key: None,
                props: Map::empty(),
                children: Seq::empty(),
            }),
    {
        let view = View::Data {
            kind: ViewKind::String(String::from_str(kind)),
            key: None,
            props: Props::new(),
            children: Vec::new(),
        };
        assert(view_models(Seq::<View>::empty()) =~= Seq::<ViewModel>::empty());
        view
    }

    /// A component, without key, properties or children.
    pub fn new_component(component: ComponentRef) -> (view: Self)
        ensures
            view@ == (ViewModel::Data {
                kind: KindModel::Component(component.type_tag(), component.name_text()),
                key: None,
                props: Map::empty(),
                children: Seq::empty(),
            }),
    {
        let view = View::Data {
            kind: ViewKind::Component(component),
            key: None,
            props: Props::new(),
            children: Vec::new(),
        };
        assert(view_models(Seq::<View>::empty()) =~= Seq::<ViewModel>::empty());
        view
    }

    pub fn is_text(&self) -> (b: bool)
        ensures
            b == (self@ is Text),
    {
        match self {
            View::Text(_) => true,
            View::Data { .. } => false,
        }
    }

    pub fn is_data(&self) -> (b: bool)
        ensures
            b == (self@ is Data),
    {
        match self {
            View::Text(_) => false,
            View::Data { .. } => true,
        }
    }

    pub fn kind(&self) -> (kind: Option<&ViewKind>)
        ensures
            match self@ {
                ViewModel::Text(_) => kind is None,
                ViewModel::Data { kind: k, .. } => kind matches Some(found) && found@ == k,
            },
    {
        match self {
            View::Text(_) => None,
            View::Data { kind, .. } => Some(kind),
        }
    }

    /// The tag of an element that has one.
    pub fn tag(&self) -> (tag: Option<&String>)
        ensures
            match self@ {
                ViewModel::Data { kind: KindModel::Tag(t), .. } => tag matches Some(found)
                    && found@ == t,
                _ => tag is None,
            },
    {
        match self {
            View::Data { kind: ViewKind::String(tag), .. } => Some(tag),
            _ => None,
        }
    }

    /// The component of an element that is one.
    pub fn component(&self) -> (component: Option<&ComponentRef>)
        ensures
            match self@ {
                ViewModel::Data { kind: KindModel::Component(id, name), .. } => component matches Some(
                    found,
                ) && found.type_tag() == id && found.name_text() == name,
                _ => component is None,
            },
    {
        match self {
            View::Data { kind: ViewKind::Component(component), .. } => Some(component),
            _ => None,
        }
    }

    /// Gives an element the key; a text stays as it is.
    pub fn set_key(&mut self, new_key: String)
        ensures
            match old(self)@ {
                ViewModel::Text(_) => final(self)@ == old(self)@,
                ViewModel::Data { kind, key, props, children } => final(self)@
                    == (ViewModel::Data { kind, key: Some(new_key@), props, children }),
            },
    {
        let mut taken = View::Text(String::new());
        std::mem::swap(self, &mut taken);
        match taken {
            View::Text(text) => {
                *self = View::Text(text);
            },
            View::Data { kind, key, props, children } => {
                *self = View::Data { kind, key: Some(new_key), props, children };
            },
        }
    }

    pub fn props(&self) -> (props: Option<&Props>)
        ensures
            match self@ {
                ViewModel::Text(_) => props is None,
                ViewModel::Data { props: p, .. } => props matches Some(found) && found@ == p,
            },
    {
        match self {
            View::Text(_) => None,
            View::Data { props, .. } => Some(props),
        }
    }

    pub fn children(&self) -> (children: Option<&Children>)
        ensures
            match self@ {
                ViewModel::Text(_) => children is None,
                ViewModel::Data { children: c, .. } => children matches Some(found) && view_models(
                    found@,
                ) == c,
            },
    {
        match self {
            View::Text(_) => None,
            View::Data { children, .. } => Some(children),
        }
    }

    /// The properties of an element, to change them.
    pub fn props_mut(&mut self) -> (props: Option<&mut Props>)
        ensures
            match old(self)@ {
                ViewModel::Text(_) => props is None && final(self)@ == old(self)@,
                ViewModel::Data { kind, key, props: held, children } => props matches Some(found)
                    && found@ == held && final(self)@ == (ViewModel::Data {
                    kind,
                    key,
                    props: final(found)@,
                    children,
                }),
            },
    {
        match self {
            View::Text(_) => None,
            View::Data { props, .. } => Some(props),
        }
    }

    /// The children of an element, to change them.
    pub fn children_mut(&mut self) -> (children: Option<&mut Children>)
        ensures
            match old(self)@ {
                ViewModel::Text(_) => children is None && final(self)@ == old(self)@,
                ViewModel::Data { kind, key, props, children: held } => children matches Some(
                    found,
                ) && view_models(found@) == held && final(self)@ == (ViewModel::Data {
                    kind,
                    key,
                    props,
                    children: view_models(final(found)@),
                }),
            },
    {
        match self {
            View::Text(_) => None,
            View::Data { children, .. } => Some(children),
        }
    }

    /// Sets a property of an element; a text stays as it is.
    pub fn insert_prop(&mut self, name: String, value: Prop)
        ensures
            match old(self)@ {
                ViewModel::Text(_) => final(self)@ == old(self)@,
                ViewModel::Data { kind, key, props, children } => final(self)@
                    == (ViewModel::Data { kind, key, props: props.insert(name@, value@), children }),
            },
    {
        let mut taken = View::Text(String::new());
        std::mem::swap(self, &mut taken);
        match taken {
            View::Text(text) => {
                *self = View::Text(text);
            },
            View::Data { kind, key, props, children } => {
                let mut props = props;
                props.insert(name, value);
                *self = View::Data { kind, key, props, children };
            },
        }
    }

    /// Appends a child to an element; a text stays as it is.
    pub fn push_child(&mut self, child: View)
        ensures
            match old(self)@ {
                ViewModel::Text(_) => final(self)@ == old(self)@,
                ViewModel::Data { kind, key, props, children } => final(self)@
                    == (ViewModel::Data { kind, key, props, children: children.push(child@) }),
            },
    {
        let mut taken = View::Text(String::new());
        std::mem::swap(self, &mut taken);
        match taken {
            View::Text(text) => {
                *self = View::Text(text);
            },
            View::Data { kind, key, props, children } => {
                let mut children = children;
                let ghost before = children@;
                children.push(child);
                assert(view_models(children@) =~= view_models(before).push(child@));
                *self = View::Data { kind, key, props, children };
            },
        }
    }

    /// A copy without the children.
    pub fn clone_no_children(&self) -> (copy: Self)
        ensures
            match self@ {
                ViewModel::Text(_) => copy@ == self@,
                ViewModel::Data { kind, key, props, children } => copy@ == (ViewModel::Data {
                    kind,
                    key,
                    props,
                    children: Seq::empty(),
                }),
            },
    {
        match self {
            View::Text(text) => View::Text(text.clone()),
            View::Data { kind, key, props, .. } => {
                let key2 = match key {
                    Some(k) => Some(k.clone()),
                    None => None,
                };
                assert(view_models(Seq::<View>::empty()) =~= Seq::<ViewModel>::empty());
                View::Data {
                    kind: kind.clone(),
                    key: key2,
                    props: props.clone(),
                    children: Vec::new(),
                }
            },
        }
    }

    /// The key of an element that has one.
    pub fn key(&self) -> (key: Option<&String>)
        ensures
            opt_text(key) == self.spec_key(),
            self.spec_key() == model_key(self@),
    {
        match self {
            View::Text(_) => None,
            View::Data { key, .. } => key.as_ref(),
        }
    }

    /// Structural equality.
    #[verifier::loop_isolation(false)]
    pub fn same(&self, other: &View) -> (b: bool)
        ensures
            b == same_view(self@, other@),
        decreases self,
    {
        match self {
            View::Text(x) => match other {
                View::Text(y) => *x == *y,
                View::Data { .. } => false,
            },
            View::Data { kind, key, props, children } => match other {
                View::Text(_) => false,
                View::Data { kind: kind2, key: key2, props: props2, children: children2 } => {
                    if !kind.same(kind2) {
                        return false;
                    }
                    if !same_key(key.as_ref(), key2.as_ref()) {
                        return false;
                    }
                    if !props.same(props2) {
                        return false;
                    }
                    if children.len() != children2.len() {
                        assert(!same_views(view_models(children@), view_models(children2@)));
                        return false;
                    }
                    let mut i: usize = 0;
                    while i < children.len()
                        invariant
                            i <= children.len(),
                            children.len() == children2.len(),
                            forall|j: int|
                                0 <= j < i ==> same_view(
                                    #[trigger] view_models(children@)[j],
                                    view_models(children2@)[j],
                                ),
                        decreases children.len() - i,
                    {
                        if !children[i].same(&children2[i]) {
                            assert(!same_view(
                                view_models(children@)[i as int],
                                view_models(children2@)[i as int],
                            ));
                            assert(!same_views(view_models(children@), view_models(children2@)));
                            return false;
                        }
                        i = i + 1;
                    }
                    assert(same_views(view_models(children@), view_models(children2@)));
                    true
                },
            },
        }
    }
}

/// Whether two optional keys are equal.
pub fn same_key(a: Option<&String>, b: Option<&String>) -> (r: bool)
    ensures
        r == (opt_text(a) == opt_text(b)),
{
    match a {
        Some(x) => match b {
            Some(y) => *x == *y,
            None => false,
        },
        None => match b {
            Some(_) => false,
            None => true,
        },
    }
}

} // verus!
