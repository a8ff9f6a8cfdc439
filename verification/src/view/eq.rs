//! `==` on views: structural equality.

use super::view::{same_view, View};
use super::view_kind::{same_kind, ViewKind};
use vstd::prelude::*;
use vstd::std_specs::cmp::PartialEqSpecImpl;
use vstd::view::View as _;

verus! {

impl PartialEq for ViewKind {
    fn eq(&self, other: &ViewKind) -> (r: bool) {
        self.same(other)
    }
}

impl PartialEqSpecImpl for ViewKind {
    open spec fn obeys_eq_spec() -> bool {
        true
    }

    open spec fn eq_spec(&self, other: &ViewKind) -> bool {
        same_kind(self@, other@)
    }
}

impl PartialEq for View {
    fn eq(&self, other: &View) -> (r: bool) {
        self.same(other)
    }
}

impl PartialEqSpecImpl for View {
    open spec fn obeys_eq_spec() -> bool {
        true
    }

    open spec fn eq_spec(&self, other: &View) -> bool {
        same_view(self@, other@)
    }
}

} // verus!
