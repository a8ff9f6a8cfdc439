//! The wire form of a view.

use crate::prop::{json_entries, props_to_json, PropView, Props};
use crate::utils::key_text;
use crate::view::{view_models, KindModel, View, ViewKind, ViewModel};
use vstd::prelude::*;
use vstd::view::View as _;

verus! {

/// The text that opens the wire name of a component.
pub open spec fn component_open() -> Seq<char> {
    seq!['C', 'o', 'm', 'p', 'o', 'n', 'e', 'n', 't', '(']
}

/// The wire name of a kind: the tag itself, or the name of the component
/// in `Component(..)`.
pub open spec fn kind_text(kind: KindModel) -> Seq<char> {
    match kind {
        KindModel::Tag(tag) => tag,
        KindModel::Component(_, name) => component_open() + name + seq![')'],
    }
}

/// The wire form of a view: kinds by their wire names, properties without
/// their callables.
pub open spec fn raw(view: ViewModel) -> ViewModel
    decreases view, 1int,
{
    match view {
        ViewModel::Text(text) => ViewModel::Text(text),
        ViewModel::Data { kind, key, props, children } => ViewModel::Data {
            kind: KindModel::Tag(kind_text(kind)),
            key,
            props: json_entries(props),
            children: raw_all(children),
        },
    }
}

/// The wire forms of a list of views.
pub open spec fn raw_all(views: Seq<ViewModel>) -> Seq<ViewModel>
    decreases views, 0int,
{
    Seq::new(
        views.len(),
        |i: int|
            if 0 <= i < views.len() {
                raw(views[i])
            } else {
                ViewModel::Text(Seq::empty())
            },
    )
}

/// A view as it goes over the wire.
#[derive(Debug)]
pub enum RawView {
    Text(String),
    Data { kind: String, key: Option<String>, props: Props, children: Vec<RawView> },
}

/// The models of a list of wire views.
pub open spec fn raw_models(views: Seq<RawView>) -> Seq<ViewModel>
    decreases views,
{
    Seq::new(
        views.len(),
        |i: int|
            if 0 <= i < views.len() {
                views[i].view()
            } else {
                ViewModel::Text(Seq::empty())
            },
    )
}

impl RawView {
    pub open spec fn view(self) -> ViewModel
        decreases self,
    {
        match self {
            RawView::Text(text) => ViewModel::Text(text@),
            RawView::Data { kind, key, props, children } => ViewModel::Data {
                kind: KindModel::Tag(kind@),
                key: key_text(key),
                props: props@,
                children: raw_models(children@),
            },
        }
    }

    /// The wire form of `view`.
    #[verifier::loop_isolation(false)]
    pub fn from_view(view: &View) -> (wire: Self)
        ensures
            wire@ == raw(view@),
        decreases view,
    {
        match view {
            View::Text(text) => RawView::Text(text.clone()),
            View::Data { kind, key, props, children } => {
                let key2 = match key {
                    Some(k) => Some(k.clone()),
                    None => None,
                };
                let mut wires: Vec<RawView> = Vec::new();
                let mut i: usize = 0;
                while i < children.len()
                    invariant
                        i <= children.len(),
                        wires@.len() == i,
                        forall|j: int| 0 <= j < i ==> (#[trigger] wires@[j])@ == raw(children@[j]@),
                    decreases children.len() - i,
                {
                    wires.push(RawView::from_view(&children[i]));
                    i = i + 1;
                }
                proof {
                    assert(raw_models(wires@) =~= raw_all(view_models(children@)));
                }
                RawView::Data {
                    kind: kind.to_text(),
                    key: key2,
                    props: props_to_json(props),
                    children: wires,
                }
            },
        }
    }

    pub fn kind(&self) -> (kind: Option<&String>)
        ensures
            match self@ {
                ViewModel::Data { kind: KindModel::Tag(tag), .. } => kind matches Some(found)
                    && found@ == tag,
                _ => kind is None,
            },
    {
        match self {
            RawView::Text(_) => None,
            RawView::Data { kind, .. } => Some(kind),
        }
    }

    pub fn key(&self) -> (key: Option<&String>)
        ensures
            crate::utils::opt_text(key) == crate::view::model_key(self@),
    {
        match self {
            RawView::Text(_) => None,
            RawView::Data { key, .. } => key.as_ref(),
        }
    }

    pub fn props(&self) -> (props: Option<&Props>)
        ensures
            match self@ {
                ViewModel::Text(_) => props is None,
                ViewModel::Data { props: p, .. } => props matches Some(found) && found@ == p,
            },
    {
        match self {
            RawView::Text(_) => None,
            RawView::Data { props, .. } => Some(props),
        }
    }

    pub fn children(&self) -> (children: Option<&Vec<RawView>>)
        ensures
            match self@ {
                ViewModel::Text(_) => children is None,
                ViewModel::Data { children: c, .. } => children matches Some(found) && raw_models(
                    found@,
                ) == c,
            },
    {
        match self {
            RawView::Text(_) => None,
            RawView::Data { children, .. } => Some(children),
        }
    }
}

impl Clone for RawView {
    #[verifier::loop_isolation(false)]
    fn clone(&self) -> (r: Self)
        ensures
            r@ == self@,
        decreases self,
    {
        match self {
            RawView::Text(text) => RawView::Text(text.clone()),
            RawView::Data { kind, key, props, children } => {
                let key2 = match key {
                    Some(k) => Some(k.clone()),
                    None => None,
                };
                let mut copies: Vec<RawView> = Vec::new();
                let mut i: usize = 0;
                while i < children.len()
                    invariant
                        i <= children.len(),
                        copies@.len() == i,
                        forall|j: int| 0 <= j < i ==> (#[trigger] copies@[j])@ == children@[j]@,
                    decreases children.len() - i,
                {
                    copies.push(children[i].clone());
                    i = i + 1;
                }
                proof {
                    assert(raw_models(copies@) =~= raw_models(children@));
                }
                RawView::Data {
                    kind: kind.clone(),
                    key: key2,
                    props: props.clone(),
                    children: copies,
                }
            },
        }
    }
}

impl ViewKind {
    /// The wire name of the kind.
    pub fn to_text(&self) -> (text: String)
        ensures
            text@ == kind_text(self@),
    {
        match self {
            ViewKind::String(tag) => tag.clone(),
            ViewKind::Component(component) => {
                proof {
                    reveal_strlit("Component(");
                    reveal_strlit(")");
                }
                let text = String::from_str("Component(").concat(
                    component.name().as_str(),
                ).concat(")");
                assert(text@ =~= kind_text(self@));
                text
            },
        }
    }
}

} // verus!
