//! `==` on property values: structural equality.

use super::array::Array;
use super::prop::{same, same_entries, same_items, Prop};
use super::props::Props;
use vstd::prelude::*;
use vstd::std_specs::cmp::PartialEqSpecImpl;

verus! {

impl PartialEq for Prop {
    fn eq(&self, other: &Prop) -> (r: bool) {
        self.same(other)
    }
}

impl PartialEqSpecImpl for Prop {
    open spec fn obeys_eq_spec() -> bool {
        true
    }

    open spec fn eq_spec(&self, other: &Prop) -> bool {
        same(self@, other@)
    }
}

impl PartialEq for Array {
    fn eq(&self, other: &Array) -> (r: bool) {
        self.same(other)
    }
}

impl PartialEqSpecImpl for Array {
    open spec fn obeys_eq_spec() -> bool {
        true
    }

    open spec fn eq_spec(&self, other: &Array) -> bool {
        same_items(self@, other@)
    }
}

impl PartialEq for Props {
    fn eq(&self, other: &Props) -> (r: bool) {
        self.same(other)
    }
}

impl PartialEqSpecImpl for Props {
    open spec fn obeys_eq_spec() -> bool {
        true
    }

    open spec fn eq_spec(&self, other: &Props) -> bool {
        same_entries(self@, other@)
    }
}

} // verus!
