//! What holds of every update of the children of an element.

use super::node::{takes_in_place, Node};
use super::patches::{new_slots, props_changed};
use super::queue::StateTransform;
use super::renderer::{component_free, fits, Renderer};
use super::tree::{child_at, shown_from};
use crate::diff::{distinct_keys, lemma_key_preserved, spec_diff_children, view_keys, Key};
use crate::transaction::{raw, Transaction};
use crate::view::{
    model_key, same_kind, same_view, view_models, Component, View, ViewModel,
};
use vstd::view::View as _;
use vstd::prelude::*;

verus! {

/// The keys of a list of view models.
pub open spec fn model_keys(views: Seq<ViewModel>) -> Seq<Key> {
    Seq::new(views.len(), |i: int| model_key(views[i]))
}

/// The keys of a list of views are those of their models.
pub proof fn lemma_model_keys(views: Seq<View>)
    ensures
        view_keys(views) == model_keys(view_models(views)),
{
    assert(view_keys(views) =~= model_keys(view_models(views)));
}

/// Key preservation: where a key stands in both lists of children, and on
/// elements of the same kind, the new child is diffed against the old one
/// at its old position, and the node that was mounted for the old child
/// takes it in place: it is not unmounted and mounted anew. This holds
/// whatever stands around the two.
pub proof fn lemma_keyed_child_updates_in_place(
    prev: Seq<ViewModel>,
    next: Seq<ViewModel>,
    i: int,
    j: int,
    node: Node,
)
    requires
        distinct_keys(model_keys(next)),
        0 <= i < prev.len(),
        0 <= j < next.len(),
        model_key(prev[i]) is Some,
        model_key(prev[i]) == model_key(next[j]),
        same_kind(prev[i]->kind, next[j]->kind),
        node.view@ == prev[i],
        node.kind is Component == (prev[i]->kind is Component),
    ensures
        ({
            let d = spec_diff_children(model_keys(prev), model_keys(next));
            &&& i < d.slots.len()
            &&& d.slots[i] == Some(j)
            &&& takes_in_place(node, next[j])
        }),
{
    let pk = model_keys(prev);
    let nk = model_keys(next);
    assert(pk[i] == nk[j]);
    lemma_key_preserved(pk, nk, i, j);
    let d = spec_diff_children(pk, nk);
    let m = d.slots[i]->0;
    assert(nk[m] == nk[j]);
    if m < j {
        assert(nk[m] != nk[j]);
    }
    if j < m {
        assert(nk[j] != nk[m]);
    }
}

/// Key preservation in the registry: where the node under `id` takes
/// `next` in place as an element, its children stand apart, and a key
/// stands in both lists of children, nothing is recorded as removed for
/// the old child of that key; and where it had a node and the pass goes
/// down to it, the same node stands there afterwards, with the new child
/// of that key for its view where that holds no component and the pass
/// reaches all its levels.
pub proof fn lemma_keyed_child_keeps_its_node<C: Component, T: StateTransform>(
    before: Renderer<C, T>,
    after: Renderer<C, T>,
    now: Transaction,
    id: Seq<char>,
    depth: usize,
    next: ViewModel,
    shown: View,
    i: int,
    j: int,
)
    requires
        Renderer::<C, T>::received(before, after, now, id, depth, next, Some(shown)),
        Renderer::<C, T>::plain_update(
            before.spec_nodes().node_at(id, depth as int),
            next,
            before.spec_limit(),
        ),
        Renderer::<C, T>::apart(
            before.spec_nodes(),
            id,
            before.spec_nodes().node_at(id, depth as int)->0.view@->children,
            next->children,
            spec_diff_children(
                model_keys(before.spec_nodes().node_at(id, depth as int)->0.view@->children),
                model_keys(next->children),
            ).slots,
        ),
        distinct_keys(model_keys(next->children)),
        0 <= i < before.spec_nodes().node_at(id, depth as int)->0.view@->children.len(),
        0 <= j < next->children.len(),
        model_key(before.spec_nodes().node_at(id, depth as int)->0.view@->children[i]) is Some,
        model_key(before.spec_nodes().node_at(id, depth as int)->0.view@->children[i])
            == model_key(next->children[j]),
    ensures
        ({
            let prev = before.spec_nodes().node_at(id, depth as int)->0.view@->children;
            let at = child_at(id, prev, i);
            let held = before.spec_nodes().node_at(at, 0);
            let kept = after.spec_nodes().node_at(at, 0);
            &&& !now.removed().contains_key(at)
            &&& held is None ==> kept is None
            &&& held is Some && before.spec_limit() > 1 ==> {
                &&& kept is Some
                &&& kept->0.kind is View
                &&& kept->0.index == held->0.index
                &&& kept->0.id == held->0.id
                &&& component_free(next->children[j]) && fits(
                    next->children[j],
                    (before.spec_limit() - 1) as nat,
                ) ==> kept->0.view@ == next->children[j]
            }
        }),
{
    let prev = before.spec_nodes().node_at(id, depth as int)->0.view@->children;
    let pk = model_keys(prev);
    let nk = model_keys(next->children);
    assert(pk[i] == nk[j]);
    lemma_key_preserved(pk, nk, i, j);
    let slots = spec_diff_children(pk, nk).slots;
    let m = slots[i]->0;
    assert(nk[m] == nk[j]);
    if m < j {
        assert(nk[m] != nk[j]);
    }
    if j < m {
        assert(nk[j] != nk[m]);
    }
    assert(Renderer::<C, T>::child_settled(
        before.spec_nodes(),
        after.spec_nodes(),
        Map::empty(),
        now,
        id,
        prev,
        next->children,
        slots,
        i,
        (before.spec_limit() - 1) as nat,
        true,
    ));
}

/// A child that went is unmounted and recorded: where the node under
/// `id` takes `next` in place as an element, its children stand apart,
/// and the diff leaves the slot of an old child empty, no node stands
/// under the identifier of that child afterwards; and where one stood
/// there, what it rendered is recorded as removed under that identifier.
pub proof fn lemma_child_that_went_is_removed<C: Component, T: StateTransform>(
    before: Renderer<C, T>,
    after: Renderer<C, T>,
    now: Transaction,
    id: Seq<char>,
    depth: usize,
    next: ViewModel,
    shown: View,
    i: int,
)
    requires
        Renderer::<C, T>::received(before, after, now, id, depth, next, Some(shown)),
        Renderer::<C, T>::plain_update(
            before.spec_nodes().node_at(id, depth as int),
            next,
            before.spec_limit(),
        ),
        Renderer::<C, T>::apart(
            before.spec_nodes(),
            id,
            before.spec_nodes().node_at(id, depth as int)->0.view@->children,
            next->children,
            spec_diff_children(
                model_keys(before.spec_nodes().node_at(id, depth as int)->0.view@->children),
                model_keys(next->children),
            ).slots,
        ),
        0 <= i < before.spec_nodes().node_at(id, depth as int)->0.view@->children.len(),
        i < spec_diff_children(
            model_keys(before.spec_nodes().node_at(id, depth as int)->0.view@->children),
            model_keys(next->children),
        ).slots.len(),
        spec_diff_children(
            model_keys(before.spec_nodes().node_at(id, depth as int)->0.view@->children),
            model_keys(next->children),
        ).slots[i] is None,
    ensures
        ({
            let prev = before.spec_nodes().node_at(id, depth as int)->0.view@->children;
            let at = child_at(id, prev, i);
            &&& after.spec_nodes().node_at(at, 0) is None
            &&& before.spec_nodes().node_at(at, 0) is Some ==> now.removed().contains_key(at)
                && now.removed()[at]@ == raw(shown_from(before.spec_nodes(), at, 0)->0@)
            &&& before.spec_nodes().node_at(at, 0) is None ==> !now.removed().contains_key(at)
        }),
{
    let prev = before.spec_nodes().node_at(id, depth as int)->0.view@->children;
    let slots = spec_diff_children(model_keys(prev), model_keys(next->children)).slots;
    assert(Renderer::<C, T>::child_settled(
        before.spec_nodes(),
        after.spec_nodes(),
        Map::empty(),
        now,
        id,
        prev,
        next->children,
        slots,
        i,
        (before.spec_limit() - 1) as nat,
        true,
    ));
}

/// A child without a node that changed is replaced: where the node under
/// `id` takes `next` in place as an element, its children stand apart,
/// and an old child that has no node, as a text has none, stays in its
/// slot, the patches under the identifier of the new child are one
/// `Replace` patch from the old child to the new one if the two differ,
/// and none if they do not.
pub proof fn lemma_changed_child_is_replaced<C: Component, T: StateTransform>(
    before: Renderer<C, T>,
    after: Renderer<C, T>,
    now: Transaction,
    id: Seq<char>,
    depth: usize,
    next: ViewModel,
    shown: View,
    i: int,
)
    requires
        Renderer::<C, T>::received(before, after, now, id, depth, next, Some(shown)),
        Renderer::<C, T>::plain_update(
            before.spec_nodes().node_at(id, depth as int),
            next,
            before.spec_limit(),
        ),
        Renderer::<C, T>::apart(
            before.spec_nodes(),
            id,
            before.spec_nodes().node_at(id, depth as int)->0.view@->children,
            next->children,
            spec_diff_children(
                model_keys(before.spec_nodes().node_at(id, depth as int)->0.view@->children),
                model_keys(next->children),
            ).slots,
        ),
        0 <= i < before.spec_nodes().node_at(id, depth as int)->0.view@->children.len(),
        i < spec_diff_children(
            model_keys(before.spec_nodes().node_at(id, depth as int)->0.view@->children),
            model_keys(next->children),
        ).slots.len(),
        spec_diff_children(
            model_keys(before.spec_nodes().node_at(id, depth as int)->0.view@->children),
            model_keys(next->children),
        ).slots[i] is Some,
        before.spec_nodes().node_at(
            child_at(id, before.spec_nodes().node_at(id, depth as int)->0.view@->children, i),
            0,
        ) is None,
    ensures
        ({
            let prev = before.spec_nodes().node_at(id, depth as int)->0.view@->children;
            let slots = spec_diff_children(model_keys(prev), model_keys(next->children)).slots;
            let to = Renderer::<C, T>::new_at(id, next->children, slots, i);
            let patches = now.patches_at(to);
            if same_view(prev[i], next->children[slots[i]->0]) {
                patches.len() == 0
            } else {
                &&& patches.len() == 1
                &&& patches[0] is Replace
                &&& patches[0]->Replace_0@ == raw(prev[i])
                &&& patches[0]->Replace_1@ == raw(next->children[slots[i]->0])
            }
        }),
{
    let prev = before.spec_nodes().node_at(id, depth as int)->0.view@->children;
    let slots = spec_diff_children(model_keys(prev), model_keys(next->children)).slots;
    assert(Renderer::<C, T>::child_settled(
        before.spec_nodes(),
        after.spec_nodes(),
        Map::empty(),
        now,
        id,
        prev,
        next->children,
        slots,
        i,
        (before.spec_limit() - 1) as nat,
        true,
    ));
}

/// A node of another kind or key is replaced: where the node under `id`
/// does not take `next` in place, the transaction of the pass holds at
/// `id` one `Replace` patch, from what was rendered there to what is
/// rendered now, and records no removal.
pub proof fn lemma_node_that_cannot_take_is_replaced<C: Component, T: StateTransform>(
    before: Renderer<C, T>,
    after: Renderer<C, T>,
    now: Transaction,
    id: Seq<char>,
    depth: usize,
    next: ViewModel,
    shown: View,
)
    requires
        Renderer::<C, T>::received(before, after, now, id, depth, next, Some(shown)),
        before.spec_nodes().node_at(id, depth as int) is Some,
        before.spec_limit() > 0,
        !takes_in_place(before.spec_nodes().node_at(id, depth as int)->0, next),
    ensures
        now.patches_at(id).len() == 1,
        now.patches_at(id)[0] is Replace,
        now.patches_at(id)[0]->Replace_0@ == raw(shown_from(before.spec_nodes(), id, depth as int)->0@),
        now.patches_at(id)[0]->Replace_1@ == raw(shown@),
        component_free(next) ==> shown@ == next,
        !now.removed().contains_key(id),
{
}

/// The patches of an element's update: where the node under `id` takes
/// `next` in place as an element, the pass adds at `id` one `Insert`
/// patch for each new child, then a `Props` patch if and only if the
/// properties changed, then an `Order` patch if and only if the diff of
/// the children has moves; and no other patch.
pub proof fn lemma_update_patches<C: Component, T: StateTransform>(
    before: Renderer<C, T>,
    after: Renderer<C, T>,
    now: Transaction,
    id: Seq<char>,
    depth: usize,
    next: ViewModel,
    shown: View,
)
    requires
        Renderer::<C, T>::received(before, after, now, id, depth, next, Some(shown)),
        Renderer::<C, T>::plain_update(
            before.spec_nodes().node_at(id, depth as int),
            next,
            before.spec_limit(),
        ),
    ensures
        ({
            let held = before.spec_nodes().node_at(id, depth as int)->0.view@;
            let moves = spec_diff_children(model_keys(held->children), model_keys(next->children));
            let fresh = new_slots(moves.slots, held->children.len() as int);
            let changed = props_changed(held->props, next->props);
            let moving = moves.removes.len() != 0 || moves.inserts.len() != 0;
            let patches = now.patches_at(id);
            &&& forall|k: int| 0 <= k < fresh.len() ==> (#[trigger] patches[k]) is Insert
            &&& changed <==> exists|k: int| 0 <= k < patches.len() && (#[trigger] patches[k]) is Props
            &&& moving <==> exists|k: int| 0 <= k < patches.len() && (#[trigger] patches[k]) is Order
            &&& forall|k: int, l: int|
                0 <= k < l < patches.len() ==> !((#[trigger] patches[k]) is Props
                    && (#[trigger] patches[l]) is Props) && !(patches[k] is Order && patches[l]
                    is Order)
        }),
{
    let held = before.spec_nodes().node_at(id, depth as int)->0.view@;
    let moves = spec_diff_children(model_keys(held->children), model_keys(next->children));
    let fresh = new_slots(moves.slots, held->children.len() as int);
    let changed = props_changed(held->props, next->props);
    let moving = moves.removes.len() != 0 || moves.inserts.len() != 0;
    let patches = now.patches_at(id);
    let none = Seq::<crate::transaction::Patch>::empty();
    assert(patches.skip(0) =~= patches);
    assert forall|k: int| 0 <= k < fresh.len() implies (#[trigger] patches[k]) is Insert by {
        assert(patches.skip(none.len() as int)[k] is Insert);
    }
    if changed {
        assert(patches[fresh.len() as int] is Props);
    }
    if moving {
        assert(patches[patches.len() - 1] is Order);
    }
}

} // verus!
