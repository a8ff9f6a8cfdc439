//! The live node at one position of the tree.

use super::instance::Instance;
use crate::prop::Props;
use crate::view::{same_kind, ComponentRef, KindModel, View, ViewModel};
use vstd::prelude::*;
use vstd::view::View as _;

verus! {

/// What a node is: a plain view, or a component with its state.
#[derive(Debug)]
pub enum NodeKind {
    View,
    Component { instance: Instance, next_state: Option<Props>, component: ComponentRef },
}

/// A mounted node: where it stands, the view it was made from, and what
/// it is.
#[derive(Debug)]
pub struct Node {
    pub index: usize,
    pub depth: usize,
    pub id: String,
    pub view: View,
    pub kind: NodeKind,
    pub parent_context: Props,
}

/// Whether a node made from `prev` can take `next` in place: both are
/// texts, or both are elements of the same kind and key.
pub open spec fn spec_should_update(prev: ViewModel, next: ViewModel) -> bool {
    match prev {
        ViewModel::Data { kind, key, .. } => next matches ViewModel::Data {
            kind: kind2,
            key: key2,
            ..
        } && same_kind(kind, kind2) && key == key2,
        ViewModel::Text(_) => next is Text,
    }
}

/// Whether a node takes `next` in place: the view it was made from allows
/// it, and the node is a component exactly when `next` is one.
pub open spec fn takes_in_place(node: Node, next: ViewModel) -> bool {
    spec_should_update(node.view@, next) && (node.kind is Component) == (next matches ViewModel::Data {
        kind: KindModel::Component(_, _),
        ..
    })
}

/// The state that a component takes at its next update: the pending one
/// where a change was requested, and else the one it has.
pub fn pending_state(state: &Props, pending: Option<Props>) -> (next: Props)
    ensures
        next@ == (match pending {
            Some(asked) => asked@,
            None => state@,
        }),
        pending matches Some(asked) ==> next == asked,
{
    match pending {
        Some(asked) => asked,
        None => state.clone(),
    }
}

impl Node {
    pub fn new(
        index: usize,
        depth: usize,
        id: String,
        view: View,
        kind: NodeKind,
        parent_context: Props,
    ) -> (node: Self)
        ensures
            node == (Node { index, depth, id, view, kind, parent_context }),
    {
        Node { index, depth, id, view, kind, parent_context }
    }

    /// Whether a node made from `prev_view` can take `next_view` in place.
    /// Where it cannot, the node is unmounted and a new one mounted.
    pub fn should_update(prev_view: &View, next_view: &View) -> (b: bool)
        ensures
            b == spec_should_update(prev_view@, next_view@),
    {
        match prev_view {
            View::Data { kind: prev_kind, key: prev_key, .. } => match next_view {
                View::Data { kind: next_kind, key: next_key, .. } => prev_kind.same(next_kind)
                    && crate::view::same_key(prev_key.as_ref(), next_key.as_ref()),
                View::Text(_) => false,
            },
            View::Text(_) => match next_view {
                View::Data { .. } => false,
                View::Text(_) => true,
            },
        }
    }

    /// Whether the node takes `next_view` in place. Where it does not, it
    /// is unmounted and a new node mounted for the view.
    pub fn takes(&self, next_view: &View) -> (b: bool)
        ensures
            b == takes_in_place(*self, next_view@),
    {
        Node::should_update(&self.view, next_view) && self.is_component()
            == next_view.component().is_some()
    }

    /// Whether the node is a component.
    pub fn is_component(&self) -> (b: bool)
        ensures
            b == (self.kind is Component),
    {
        match &self.kind {
            NodeKind::Component { .. } => true,
            NodeKind::View => false,
        }
    }
}

} // verus!
