//! Handles of callables.

use super::prop::Prop;
use super::props::Props;
use vstd::prelude::*;

verus! {

/// The handle of a callable that the embedding application owns. Two
/// handles are the same callable exactly when their identities agree.
#[derive(Clone, Copy, Debug)]
pub struct Function {
    id: u64,
}

impl Function {
    /// The identity.
    pub closed spec fn view(self) -> u64 {
        self.id
    }

    pub fn new(id: u64) -> (f: Self)
        ensures
            f@ == id,
    {
        Function { id }
    }

    pub fn id(&self) -> (id: u64)
        ensures
            id == self@,
    {
        self.id
    }

    /// Identity comparison.
    pub fn same(&self, other: &Function) -> (b: bool)
        ensures
            b == (self@ == other@),
    {
        self.id == other.id
    }
}

/// What calls the callables: the embedding application, which knows
/// the callable behind each handle.
pub trait Handlers {
    /// Calls `function` with the event and hands back what it returned.
    fn call(&mut self, function: &Function, event: &mut Props) -> Prop;
}

} // verus!
