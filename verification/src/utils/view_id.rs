//! Identifiers of tree positions.

use super::text::{decimal, decimal_string};
use vstd::prelude::*;

verus! {

/// The last segment of a child's identifier: its key, or its position
/// where it has none.
pub open spec fn spec_child_view_id(child_key: Option<Seq<char>>, index: nat) -> Seq<char> {
    match child_key {
        None => decimal(index),
        Some(key) => key,
    }
}

/// The identifier of a child: the parent's, a dot, and the child's segment.
pub open spec fn spec_view_id(parent_id: Seq<char>, child_key: Option<Seq<char>>, index: nat) -> Seq<
    char,
> {
    parent_id + seq!['.'] + spec_child_view_id(child_key, index)
}

/// The text of an optional string.
pub open spec fn key_text(key: Option<String>) -> Option<Seq<char>> {
    match key {
        Some(k) => Some(k@),
        None => None,
    }
}

/// The text of an optional reference to a string.
pub open spec fn opt_text(key: Option<&String>) -> Option<Seq<char>> {
    match key {
        Some(k) => Some(k@),
        None => None,
    }
}

pub fn view_id(parent_id: &str, child_key: Option<&String>, index: usize) -> (id: String)
    ensures
        id@ == spec_view_id(parent_id@, opt_text(child_key), index as nat),
{
    let child = child_view_id(child_key, index);
    proof {
        reveal_strlit(".");
    }
    let id = String::from_str(parent_id).concat(".").concat(child.as_str());
    assert(id@ =~= spec_view_id(parent_id@, opt_text(child_key), index as nat));
    id
}

pub fn child_view_id(child_key: Option<&String>, index: usize) -> (id: String)
    ensures
        id@ == spec_child_view_id(opt_text(child_key), index as nat),
{
    match child_key {
        None => decimal_string(index),
        Some(key) => key.clone(),
    }
}

} // verus!
