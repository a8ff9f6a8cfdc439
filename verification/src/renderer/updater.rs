//! The address of a mounted component.

use crate::prop::{Prop, PropView, Props};
use crate::utils::decimal;
use vstd::prelude::*;

verus! {

/// The name under which a message carries the identifier of its component.
pub open spec fn component_id_name() -> Seq<char> {
    seq!['c', 'o', 'm', 'p', 'o', 'n', 'e', 'n', 't', '_', 'i', 'd']
}

/// The address of a mounted component: its identifier and the depth of its
/// layer. A request to change the state of the component names it.
#[derive(Debug)]
pub struct Updater {
    id: String,
    depth: usize,
}

impl Updater {
    pub closed spec fn spec_id(self) -> Seq<char> {
        self.id@
    }

    pub closed spec fn spec_depth(self) -> usize {
        self.depth
    }

    pub fn new(id: String, depth: usize) -> (updater: Self)
        ensures
            updater.spec_id() == id@,
            updater.spec_depth() == depth,
    {
        Updater { id, depth }
    }

    pub fn id(&self) -> (id: &String)
        ensures
            id@ == self.spec_id(),
    {
        &self.id
    }

    pub fn depth(&self) -> (depth: usize)
        ensures
            depth == self.spec_depth(),
    {
        self.depth
    }

    /// Whether two updaters address the same component.
    pub fn same(&self, other: &Updater) -> (b: bool)
        ensures
            b == (self.spec_id() == other.spec_id() && self.spec_depth() == other.spec_depth()),
    {
        self.id == other.id && self.depth == other.depth
    }

    /// The message with the identifier of the component under
    /// `component_id`.
    pub fn set_json_id(&self, json: Props) -> (message: Props)
        ensures
            message@ == json@.insert(component_id_name(), PropView::String(self.spec_id())),
    {
        proof {
            reveal_strlit("component_id");
            assert("component_id"@ =~= component_id_name());
        }
        let mut message = json;
        message.insert(String::from_str("component_id"), Prop::String(self.id.clone()));
        message
    }

    /// The updater in words: `Updater(id, depth)`.
    pub fn to_text(&self) -> (text: String)
        ensures
            text@ == seq!['U', 'p', 'd', 'a', 't', 'e', 'r', '('] + self.spec_id() + seq![',', ' ']
                + decimal(self.spec_depth() as nat) + seq![')'],
    {
        proof {
            reveal_strlit("Updater(");
            reveal_strlit(", ");
            reveal_strlit(")");
        }
        let depth = crate::utils::decimal_string(self.depth);
        let text = String::from_str("Updater(").concat(self.id.as_str()).concat(", ").concat(
            depth.as_str(),
        ).concat(")");
        assert(text@ =~= seq!['U', 'p', 'd', 'a', 't', 'e', 'r', '('] + self.spec_id() + seq![
            ',',
            ' ',
        ] + decimal(self.spec_depth() as nat) + seq![')']);
        text
    }
}

impl Clone for Updater {
    fn clone(&self) -> (r: Self)
        ensures
            r.spec_id() == self.spec_id(),
            r.spec_depth() == self.spec_depth(),
    {
        Updater { id: self.id.clone(), depth: self.depth }
    }
}

} // verus!
