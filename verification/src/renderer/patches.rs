//! The patches of an update: those that the update of an element adds at
//! its identifier, and the one that stands for a node put in the place of
//! another.

use super::laws::model_keys;
use super::renderer::component_free;
use super::nodes::Nodes;
use super::tree::{below, present};
use crate::diff::{diff_props_object, spec_diff_children, spec_diff_object, ChildDiff};
use crate::prop::{json_entries, props_to_json, PropView, Props};
use crate::transaction::{insert_models, raw, remove_models, Order, Patch, Transaction};
use crate::utils::spec_view_id;
use crate::view::{model_key, ViewModel};
use vstd::prelude::*;

verus! {

/// Whether `after` holds the removals of `before` and no other, but for
/// identifiers below `id`.
pub open spec fn removals_kept(after: Transaction, before: Transaction, id: Seq<char>) -> bool {
    forall|at: Seq<char>|
        #![trigger after.removed().contains_key(at)]
        !below(id, at) ==> after.removed().contains_key(at) == before.removed().contains_key(at)
            && (before.removed().contains_key(at) ==> after.removed()[at] == before.removed()[at])
}

/// Whether `after` holds at every identifier that is not under `id` the
/// patches of `before`.
pub open spec fn patches_kept(after: Transaction, before: Transaction, id: Seq<char>) -> bool {
    forall|at: Seq<char>|
        !crate::utils::spec_is_ancestor(id, at) ==> #[trigger] after.patches_at(at)
            == before.patches_at(at)
}

/// Whether `after` is `before` and one `Replace` patch that carries the
/// wire forms of `gone` and of `shown`.
pub open spec fn replaces(
    after: Seq<Patch>,
    before: Seq<Patch>,
    gone: ViewModel,
    shown: ViewModel,
) -> bool {
    &&& after.len() == before.len() + 1
    &&& after.take(before.len() as int) == before
    &&& after.last() is Replace
    &&& after.last()->Replace_0@ == raw(gone)
    &&& after.last()->Replace_1@ == raw(shown)
}

/// The slots at or after `from` that hold a child, in rising order. With
/// the number of the old children for `from`, they are the slots of the
/// children that are new.
pub open spec fn new_slots(slots: Seq<Option<int>>, from: int) -> Seq<int>
    decreases slots.len(),
{
    if slots.len() == 0 {
        Seq::empty()
    } else {
        let rest = new_slots(slots.drop_last(), from);
        if slots.len() - 1 >= from && slots.last() is Some {
            rest.push(slots.len() - 1)
        } else {
            rest
        }
    }
}

/// No slot is new among as many slots as there were children.
pub proof fn lemma_no_new_slot(slots: Seq<Option<int>>, from: int)
    requires
        slots.len() <= from,
    ensures
        new_slots(slots, from).len() == 0,
    decreases slots.len(),
{
    if slots.len() != 0 {
        lemma_no_new_slot(slots.drop_last(), from);
    }
}

/// Whether the nodes of the children of `next` that stand in the slots
/// `fresh` are mounted under `id`, each under the identifier that its
/// slot gives it, as far as a pass of depth `fuel` reaches.
pub open spec fn children_present(
    nodes: Nodes,
    id: Seq<char>,
    next: Seq<ViewModel>,
    slots: Seq<Option<int>>,
    fresh: Seq<int>,
    fuel: nat,
) -> bool {
    forall|k: int|
        0 <= k < fresh.len() ==> present(
            nodes,
            spec_view_id(id, model_key(next[slots[#[trigger] fresh[k]]->0]), fresh[k] as nat),
            0,
            next[slots[fresh[k]]->0],
            fuel,
        )
}

/// Whether a patch inserts `child` at `slot` under `id`: it is an `Insert`
/// with the identifier of the child and the slot, and where the child
/// holds no component it carries its wire form.
pub open spec fn inserts_child(patch: Patch, id: Seq<char>, child: ViewModel, slot: int) -> bool {
    &&& patch is Insert
    &&& patch->Insert_0@ == spec_view_id(id, model_key(child), slot as nat)
    &&& patch->Insert_1 == slot
    &&& component_free(child) ==> patch->Insert_2@ == raw(child)
}

/// Whether `gained` begins with one `Insert` patch for each of the slots
/// `fresh`, in their order, each for the child of `next` that the slot
/// holds.
pub open spec fn inserts_listed(
    gained: Seq<Patch>,
    id: Seq<char>,
    next: Seq<ViewModel>,
    slots: Seq<Option<int>>,
    fresh: Seq<int>,
) -> bool {
    &&& gained.len() >= fresh.len()
    &&& forall|k: int|
        0 <= k < fresh.len() ==> inserts_child(
            #[trigger] gained[k],
            id,
            next[slots[fresh[k]]->0],
            fresh[k],
        )
}

/// Whether `after` is `before` and what the update of an element under
/// `id` adds there, and nothing else: one `Insert` patch for each new
/// child, in the order of the slots; then one `Props` patch if and only
/// if the properties changed; then one `Order` patch if and only if the
/// diff of the children has moves.
pub open spec fn element_patches(
    after: Seq<Patch>,
    before: Seq<Patch>,
    id: Seq<char>,
    prev_props: Map<Seq<char>, PropView>,
    next_props: Map<Seq<char>, PropView>,
    prev: Seq<ViewModel>,
    next: Seq<ViewModel>,
) -> bool {
    let moves = spec_diff_children(model_keys(prev), model_keys(next));
    let fresh = new_slots(moves.slots, prev.len() as int);
    let changed: int = if props_changed(prev_props, next_props) {
        1
    } else {
        0
    };
    let moving: int = if moves.removes.len() != 0 || moves.inserts.len() != 0 {
        1
    } else {
        0
    };
    &&& after.len() == before.len() + fresh.len() + changed + moving
    &&& after.take(before.len() as int) == before
    &&& inserts_listed(after.skip(before.len() as int), id, next, moves.slots, fresh)
    &&& ends_as_element(after, prev_props, next_props, moves)
}

/// Whether the properties changed: the patch between them has an entry.
pub open spec fn props_changed(
    prev: Map<Seq<char>, PropView>,
    next: Map<Seq<char>, PropView>,
) -> bool {
    !(spec_diff_object(prev, next).dom() =~= Set::empty())
}

/// Whether the order moves anything.
pub open spec fn order_moves(order: Order) -> bool {
    !(order.spec_removes().len() == 0 && order.spec_inserts().len() == 0)
}

/// Whether the patches at an identifier end as the update of an element
/// ends them: where the properties changed, with a `Props` patch that
/// carries the previous properties and the patch to them in wire form; and
/// after it, where the diff of the children has moves, with an `Order`
/// patch that carries them.
pub open spec fn ends_as_element(
    patches: Seq<Patch>,
    prev: Map<Seq<char>, PropView>,
    next: Map<Seq<char>, PropView>,
    moves: ChildDiff,
) -> bool {
    let moving = moves.removes.len() != 0 || moves.inserts.len() != 0;
    let behind: int = if moving {
        1
    } else {
        0
    };
    &&& moving ==> patches.len() >= 1 && patches.last() is Order && remove_models(
        patches.last()->Order_0.spec_removes(),
    ) == moves.removes && insert_models(patches.last()->Order_0.spec_inserts()) == moves.inserts
    &&& props_changed(prev, next) ==> patches.len() >= 1 + behind && patches[patches.len() - 1
        - behind] is Props && patches[patches.len() - 1 - behind]->Props_0@ == json_entries(prev)
        && patches[patches.len() - 1 - behind]->Props_1@ == json_entries(
        spec_diff_object(prev, next),
    )
}

/// Appends to the patches at `id` what the update of an element there ends
/// with: a `Props` patch where the properties changed, carrying the
/// previous properties and the patch to them in wire form, and then an
/// `Order` patch where the order moves anything. Nothing else changes.
pub fn emit_element_patches(
    transaction: &mut Transaction,
    id: &str,
    prev_props: &Props,
    next_props: &Props,
    order: Order,
)
    ensures
        ({
            let before = old(transaction).patches_at(id@);
            let after = final(transaction).patches_at(id@);
            let changed = props_changed(prev_props@, next_props@);
            let moves = order_moves(order);
            &&& after.len() == before.len() + (if changed {
                1nat
            } else {
                0nat
            }) + (if moves {
                1nat
            } else {
                0nat
            })
            &&& after.take(before.len() as int) == before
            &&& changed ==> after[before.len() as int] is Props && after[before.len() as int]->Props_0@
                == json_entries(prev_props@) && after[before.len() as int]->Props_1@
                == json_entries(spec_diff_object(prev_props@, next_props@))
            &&& moves ==> after.last() == Patch::Order(order)
        }),
        final(transaction).same_but_patches_at(*old(transaction), id@),
{
    let ghost before = transaction.patches_at(id@);
    match diff_props_object(prev_props, next_props) {
        Some(patch) => {
            transaction.props(id, props_to_json(prev_props), props_to_json(&patch));
        },
        None => {},
    }
    let ghost middle = transaction.patches_at(id@);
    if !order.is_empty() {
        transaction.order(id, order);
    }
    proof {
        assert(middle.take(before.len() as int) =~= before);
        assert(transaction.patches_at(id@).take(before.len() as int) =~= before);
    }
}

} // verus!
