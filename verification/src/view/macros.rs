//! The steps by which a view is built from its parts: a stack of open
//! elements, the innermost on top.

use super::view::{View, ViewModel};
use super::view_kind::KindModel;
use crate::prop::{Prop, Props};
use vstd::prelude::*;
use vstd::view::View as _;

verus! {

/// The view that is left when everything is closed.
pub fn unwrap(stack: Vec<View>) -> (view: View)
    requires
        stack@.len() > 0,
    ensures
        view == stack@.last(),
{
    let mut stack = stack;
    match stack.pop() {
        Some(view) => view,
        None => View::new_empty(),
    }
}

/// Appends `child` to the element on top.
pub fn add_child(stack: &mut Vec<View>, child: View)
    requires
        old(stack)@.len() > 0,
        old(stack)@.last()@ is Data,
    ensures
        final(stack)@.len() == old(stack)@.len(),
        final(stack)@.drop_last() == old(stack)@.drop_last(),
        final(stack)@.last()@ == (ViewModel::Data {
            kind: old(stack)@.last()@->kind,
            key: old(stack)@.last()@->key,
            props: old(stack)@.last()@->props,
            children: old(stack)@.last()@->children.push(child@),
        }),
{
    let ghost before = stack@;
    match stack.pop() {
        Some(parent) => {
            let mut parent = parent;
            parent.push_child(child);
            stack.push(parent);
            assert(stack@.drop_last() =~= before.drop_last());
        },
        None => {},
    }
}

/// Sets a property of the element on top.
pub fn add_prop(stack: &mut Vec<View>, key: String, value: Prop)
    requires
        old(stack)@.len() > 0,
        old(stack)@.last()@ is Data,
    ensures
        final(stack)@.len() == old(stack)@.len(),
        final(stack)@.drop_last() == old(stack)@.drop_last(),
        final(stack)@.last()@ == (ViewModel::Data {
            kind: old(stack)@.last()@->kind,
            key: old(stack)@.last()@->key,
            props: old(stack)@.last()@->props.insert(key@, value@),
            children: old(stack)@.last()@->children,
        }),
{
    let ghost before = stack@;
    match stack.pop() {
        Some(parent) => {
            let mut parent = parent;
            parent.insert_prop(key, value);
            stack.push(parent);
            assert(stack@.drop_last() =~= before.drop_last());
        },
        None => {},
    }
}

/// Gives the element on top the key; a text on top stays as it is.
pub fn set_key(stack: &mut Vec<View>, key: String)
    requires
        old(stack)@.len() > 0,
    ensures
        final(stack)@.len() == old(stack)@.len(),
        final(stack)@.drop_last() == old(stack)@.drop_last(),
        match old(stack)@.last()@ {
            ViewModel::Text(_) => final(stack)@.last()@ == old(stack)@.last()@,
            ViewModel::Data { kind, key: _, props, children } => final(stack)@.last()@
                == (ViewModel::Data { kind, key: Some(key@), props, children }),
        },
{
    let ghost before = stack@;
    match stack.pop() {
        Some(parent) => {
            let mut parent = parent;
            parent.set_key(key);
            stack.push(parent);
            assert(stack@.drop_last() =~= before.drop_last());
        },
        None => {},
    }
}

/// Copies every entry of `props` into the properties of the element on
/// top.
pub fn extend(stack: &mut Vec<View>, props: &Props)
    requires
        old(stack)@.len() > 0,
        old(stack)@.last()@ is Data,
    ensures
        final(stack)@.len() == old(stack)@.len(),
        final(stack)@.drop_last() == old(stack)@.drop_last(),
        final(stack)@.last()@ == (ViewModel::Data {
            kind: old(stack)@.last()@->kind,
            key: old(stack)@.last()@->key,
            props: old(stack)@.last()@->props.union_prefer_right(props@),
            children: old(stack)@.last()@->children,
        }),
{
    let ghost before = stack@;
    match stack.pop() {
        Some(parent) => {
            match parent {
                View::Data { kind, key, props: held, children } => {
                    let mut held = held;
                    held.extend(props);
                    stack.push(View::Data { kind, key, props: held, children });
                },
                View::Text(text) => {
                    stack.push(View::Text(text));
                },
            }
            assert(stack@.drop_last() =~= before.drop_last());
        },
        None => {},
    }
}

/// Whether the view on top may be closed with the tag `end_tag`: it is an
/// element of that tag.
pub open spec fn closes(view: ViewModel, end_tag: Seq<char>) -> bool {
    view matches ViewModel::Data { kind: KindModel::Tag(tag), .. } && tag == end_tag
}

/// Whether the view on top may be closed as the component of type
/// `end_type_id`.
pub open spec fn closes_component(view: ViewModel, end_type_id: u64) -> bool {
    view matches ViewModel::Data { kind: KindModel::Component(id, _), .. } && id == end_type_id
}

/// The text of an optional tag.
pub open spec fn tag_text(end_tag: Option<&str>) -> Option<Seq<char>> {
    match end_tag {
        Some(tag) => Some(tag@),
        None => None,
    }
}

/// Moves the view on top into the children of the one below it; the last
/// view stays where it is.
fn close(stack: &mut Vec<View>)
    requires
        old(stack)@.len() > 0,
        old(stack)@.len() > 1 ==> old(stack)@[old(stack)@.len() - 2]@ is Data,
    ensures
        old(stack)@.len() == 1 ==> final(stack)@ == old(stack)@,
        old(stack)@.len() > 1 ==> {
            let parent = old(stack)@[old(stack)@.len() - 2]@;
            &&& final(stack)@.len() == old(stack)@.len() - 1
            &&& final(stack)@.drop_last() == old(stack)@.take(old(stack)@.len() - 2)
            &&& final(stack)@.last()@ == (ViewModel::Data {
                kind: parent->kind,
                key: parent->key,
                props: parent->props,
                children: parent->children.push(old(stack)@.last()@),
            })
        },
{
    let ghost before = stack@;
    match stack.pop() {
        Some(view) => {
            if stack.len() > 0 {
                assert(stack@.last() == before[before.len() - 2]);
                add_child(stack, view);
                assert(stack@.drop_last() =~= before.take(before.len() - 2));
            } else {
                stack.push(view);
                assert(stack@ =~= before);
            }
        },
        None => {},
    }
}

/// Closes the element on top: it becomes the last child of the element
/// below it, or stays as the result where it is the only one. Where
/// `end_tag` is given it names the tag of the element that is closed.
pub fn child_to_parent(stack: &mut Vec<View>, end_tag: Option<&str>)
    requires
        old(stack)@.len() > 0,
        tag_text(end_tag) matches Some(tag) ==> closes(old(stack)@.last()@, tag),
        old(stack)@.len() > 1 ==> old(stack)@[old(stack)@.len() - 2]@ is Data,
    ensures
        old(stack)@.len() == 1 ==> final(stack)@ == old(stack)@,
        old(stack)@.len() > 1 ==> {
            let parent = old(stack)@[old(stack)@.len() - 2]@;
            &&& final(stack)@.len() == old(stack)@.len() - 1
            &&& final(stack)@.drop_last() == old(stack)@.take(old(stack)@.len() - 2)
            &&& final(stack)@.last()@ == (ViewModel::Data {
                kind: parent->kind,
                key: parent->key,
                props: parent->props,
                children: parent->children.push(old(stack)@.last()@),
            })
        },
{
    close(stack);
}

/// Closes the component on top, which is of the type `end_type_id`.
pub fn child_to_parent_component(stack: &mut Vec<View>, end_type_id: u64)
    requires
        old(stack)@.len() > 0,
        closes_component(old(stack)@.last()@, end_type_id),
        old(stack)@.len() > 1 ==> old(stack)@[old(stack)@.len() - 2]@ is Data,
    ensures
        old(stack)@.len() == 1 ==> final(stack)@ == old(stack)@,
        old(stack)@.len() > 1 ==> {
            let parent = old(stack)@[old(stack)@.len() - 2]@;
            &&& final(stack)@.len() == old(stack)@.len() - 1
            &&& final(stack)@.drop_last() == old(stack)@.take(old(stack)@.len() - 2)
            &&& final(stack)@.last()@ == (ViewModel::Data {
                kind: parent->kind,
                key: parent->key,
                props: parent->props,
                children: parent->children.push(old(stack)@.last()@),
            })
        },
{
    close(stack);
}

/// Whether the view on top is an element with the tag `end_tag`.
pub fn can_close(stack: &Vec<View>, end_tag: &str) -> (b: bool)
    ensures
        b == (stack@.len() > 0 && closes(stack@.last()@, end_tag@)),
{
    if stack.len() == 0 {
        return false;
    }
    match stack[stack.len() - 1].tag() {
        Some(tag) => crate::utils::str_same(tag.as_str(), end_tag),
        None => false,
    }
}

/// Whether the view on top is a component of the type `end_type_id`.
pub fn can_close_component(stack: &Vec<View>, end_type_id: u64) -> (b: bool)
    ensures
        b == (stack@.len() > 0 && closes_component(stack@.last()@, end_type_id)),
{
    if stack.len() == 0 {
        return false;
    }
    match stack[stack.len() - 1].component() {
        Some(component) => component.type_id() == end_type_id,
        None => false,
    }
}

} // verus!
