//! One mutation of the rendered tree.

use super::order::Order;
use super::raw_view::RawView;
use crate::prop::Props;
use vstd::prelude::*;

verus! {

/// A mutation at one identifier.
///
/// `Mount` shows a tree for the first time. `Insert` puts a child with its
/// identifier at a position. `Replace` puts one view in the place of
/// another. `Order` reorders the children. `Props` carries the previous
/// properties and the patch to them, both in wire form.
#[derive(Debug)]
pub enum Patch {
    Mount(RawView),
    Insert(String, usize, RawView),
    Replace(RawView, RawView),
    Order(Order),
    Props(Props, Props),
}

impl Patch {
    pub fn is_mount(&self) -> (b: bool)
        ensures
            b == (self is Mount),
    {
        match self {
            Patch::Mount(_) => true,
            _ => false,
        }
    }

    pub fn is_insert(&self) -> (b: bool)
        ensures
            b == (self is Insert),
    {
        match self {
            Patch::Insert(_, _, _) => true,
            _ => false,
        }
    }

    pub fn is_replace(&self) -> (b: bool)
        ensures
            b == (self is Replace),
    {
        match self {
            Patch::Replace(_, _) => true,
            _ => false,
        }
    }

    pub fn is_order(&self) -> (b: bool)
        ensures
            b == (self is Order),
    {
        match self {
            Patch::Order(_) => true,
            _ => false,
        }
    }

    pub fn is_props(&self) -> (b: bool)
        ensures
            b == (self is Props),
    {
        match self {
            Patch::Props(_, _) => true,
            _ => false,
        }
    }
}

} // verus!
