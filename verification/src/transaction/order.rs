//! The reordering of an element's children.

use crate::utils::key_text;
use vstd::prelude::*;

verus! {

/// The removes of an order, as mathematics: position and key.
pub open spec fn remove_models(removes: Seq<(usize, Option<String>)>) -> Seq<
    (int, Option<Seq<char>>),
> {
    Seq::new(removes.len(), |i: int| (removes[i].0 as int, key_text(removes[i].1)))
}

/// The inserts of an order, as mathematics: key and position.
pub open spec fn insert_models(inserts: Seq<(Option<String>, usize)>) -> Seq<
    (Option<Seq<char>>, int),
> {
    Seq::new(inserts.len(), |i: int| (key_text(inserts[i].0), inserts[i].1 as int))
}

/// Children to take out, each by its position at that moment and its key,
/// and children to put back in, each by its key and its final position.
#[derive(Debug)]
pub struct Order {
    removes: Vec<(usize, Option<String>)>,
    inserts: Vec<(Option<String>, usize)>,
}

impl Order {
    pub closed spec fn spec_removes(self) -> Seq<(usize, Option<String>)> {
        self.removes@
    }

    pub closed spec fn spec_inserts(self) -> Seq<(Option<String>, usize)> {
        self.inserts@
    }

    pub fn new(
        removes: Vec<(usize, Option<String>)>,
        inserts: Vec<(Option<String>, usize)>,
    ) -> (order: Self)
        ensures
            order.spec_removes() == removes@,
            order.spec_inserts() == inserts@,
    {
        Order { removes, inserts }
    }

    pub fn removes(&self) -> (removes: &[(usize, Option<String>)])
        ensures
            removes@ == self.spec_removes(),
    {
        self.removes.as_slice()
    }

    pub fn inserts(&self) -> (inserts: &[(Option<String>, usize)])
        ensures
            inserts@ == self.spec_inserts(),
    {
        self.inserts.as_slice()
    }

    /// Whether the order moves nothing.
    pub fn is_empty(&self) -> (b: bool)
        ensures
            b == (self.spec_removes().len() == 0 && self.spec_inserts().len() == 0),
    {
        self.removes.len() == 0 && self.inserts.len() == 0
    }
}

} // verus!
