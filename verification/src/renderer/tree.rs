//! What the registry holds of a tree: where the children of an element
//! stand, which of its nodes are mounted, and which node shows what is
//! rendered under an identifier.

use super::events::binds;
use super::node::Node;
use super::nodes::Nodes;
use super::renderer::component_free;
use crate::event_manager::EventManager;
use crate::transaction::Transaction;
use crate::utils::{
    lemma_ancestor_reflexive, lemma_ancestor_transitive, lemma_appended_is_below,
    spec_is_ancestor, spec_view_id,
};
use crate::view::{model_key, View, ViewModel};
use vstd::prelude::*;

verus! {

/// The identifier of child `i` of an element under `id`.
pub open spec fn child_at(id: Seq<char>, children: Seq<ViewModel>, i: int) -> Seq<char> {
    spec_view_id(id, model_key(children[i]), i as nat)
}

/// Whether mounting `view` at `depth` with a pass of depth `fuel` renders
/// a component: the view is one, and the pass can go a layer deeper.
pub open spec fn expands(view: ViewModel, depth: int, fuel: nat) -> bool {
    view matches ViewModel::Data { kind, .. } && kind is Component && fuel > 0 && depth
        < usize::MAX - 1
}

/// Whether the nodes of `view` are mounted under `id` at `depth` as far
/// as a pass of depth `fuel` reaches: the node of the view itself, and
/// under an element with a tag the nodes of every child that is an
/// element, each under its own identifier.
pub open spec fn present(nodes: Nodes, id: Seq<char>, depth: int, view: ViewModel, fuel: nat) -> bool
    decreases fuel,
{
    &&& nodes.node_at(id, depth) is Some
    &&& view matches ViewModel::Data { kind, children, .. } ==> kind is Tag && fuel > 0
        ==> forall|i: int|
        0 <= i < children.len() && (#[trigger] children[i]) is Data ==> present(
            nodes,
            child_at(id, children, i),
            0,
            children[i],
            (fuel - 1) as nat,
        )
}

/// Whether every node of `before` is mounted in `after` too.
pub open spec fn keeps_nodes(after: Nodes, before: Nodes) -> bool {
    forall|at: Seq<char>, d: int| #[trigger]
        after.node_at(at, d) is None ==> before.node_at(at, d) is None
}

/// Whether every node of `after` was mounted in `before` already.
pub open spec fn adds_no_node(after: Nodes, before: Nodes) -> bool {
    forall|at: Seq<char>, d: int| #[trigger]
        after.node_at(at, d) is Some ==> before.node_at(at, d) is Some
}

/// A tree whose nodes are mounted stays mounted where no node goes.
pub proof fn lemma_present_stays(
    before: Nodes,
    after: Nodes,
    id: Seq<char>,
    depth: int,
    view: ViewModel,
    fuel: nat,
)
    requires
        present(before, id, depth, view, fuel),
        keeps_nodes(after, before),
    ensures
        present(after, id, depth, view, fuel),
    decreases fuel,
{
    if after.node_at(id, depth) is None {
        assert(before.node_at(id, depth) is None);
    }
    match view {
        ViewModel::Data { kind, children, .. } => {
            if kind is Tag && fuel > 0 {
                assert forall|i: int|
                    0 <= i < children.len() && (#[trigger] children[i]) is Data implies present(
                    after,
                    child_at(id, children, i),
                    0,
                    children[i],
                    (fuel - 1) as nat,
                ) by {
                    lemma_present_stays(
                        before,
                        after,
                        child_at(id, children, i),
                        0,
                        children[i],
                        (fuel - 1) as nat,
                    );
                }
            }
        },
        ViewModel::Text(_) => {},
    }
}

/// The node that shows what is rendered under `id` from depth `d` down:
/// the first that is no component, or that has no layer below it.
pub open spec fn shown_node(nodes: Nodes, id: Seq<char>, d: int) -> Option<Node>
    decreases usize::MAX - d,
{
    match nodes.node_at(id, d) {
        None => None,
        Some(node) => if node.kind is Component && 0 <= d < usize::MAX && nodes.node_at(
            id,
            d + 1,
        ) is Some {
            shown_node(nodes, id, d + 1)
        } else {
            Some(node)
        },
    }
}

/// The view that is rendered under `id` from depth `d` down: that of the
/// node that shows it.
pub open spec fn shown_from(nodes: Nodes, id: Seq<char>, d: int) -> Option<View> {
    match shown_node(nodes, id, d) {
        Some(node) => Some(node.view),
        None => None,
    }
}

/// What is shown under an identifier from a depth down rests on the
/// layers from that depth down alone.
pub proof fn lemma_shown_agrees(a: Nodes, b: Nodes, id: Seq<char>, d: int)
    requires
        forall|deeper: int| deeper >= d ==> #[trigger] a.node_at(id, deeper) == b.node_at(id, deeper),
    ensures
        shown_node(a, id, d) == shown_node(b, id, d),
    decreases usize::MAX - d,
{
    assert(a.node_at(id, d) == b.node_at(id, d));
    assert(a.node_at(id, d + 1) == b.node_at(id, d + 1));
    match a.node_at(id, d) {
        None => {},
        Some(node) => {
            if node.kind is Component && 0 <= d < usize::MAX && a.node_at(id, d + 1) is Some {
                lemma_shown_agrees(a, b, id, d + 1);
            }
        },
    }
}

/// Something is shown exactly where a node is mounted.
pub proof fn lemma_shown_where_mounted(nodes: Nodes, id: Seq<char>, d: int)
    ensures
        shown_node(nodes, id, d) is Some == nodes.node_at(id, d) is Some,
    decreases usize::MAX - d,
{
    match nodes.node_at(id, d) {
        None => {},
        Some(node) => {
            if node.kind is Component && 0 <= d < usize::MAX && nodes.node_at(id, d + 1) is Some {
                lemma_shown_where_mounted(nodes, id, d + 1);
            }
        },
    }
}

/// Whether `at` stands below `id` in the tree and is not `id` itself.
pub open spec fn below(id: Seq<char>, at: Seq<char>) -> bool {
    spec_is_ancestor(id, at) && at != id
}

/// What stands under a child stands below its parent.
pub proof fn lemma_under_child(id: Seq<char>, segment: Seq<char>)
    ensures
        forall|at: Seq<char>| #[trigger]
            spec_is_ancestor(id + seq!['.'] + segment, at) ==> below(id, at),
{
    let child = id + seq!['.'] + segment;
    lemma_appended_is_below(id, segment);
    assert forall|at: Seq<char>| #[trigger] spec_is_ancestor(child, at) implies below(id, at) by {
        lemma_ancestor_transitive(id, child, at);
        assert(at.len() >= child.len());
        assert(child.len() > id.len());
    }
}

/// The identifier of a child does not stand above that of its parent.
pub proof fn lemma_child_not_above(id: Seq<char>, segment: Seq<char>)
    ensures
        !spec_is_ancestor(id + seq!['.'] + segment, id),
{
    assert((id + seq!['.'] + segment).len() > id.len());
}

/// What stands under one of two identifiers of which neither stands above
/// the other does not stand under the other one.
pub proof fn lemma_apart_below(a: Seq<char>, b: Seq<char>, at: Seq<char>)
    requires
        !spec_is_ancestor(a, b),
        !spec_is_ancestor(b, a),
        spec_is_ancestor(a, at),
    ensures
        !spec_is_ancestor(b, at),
{
    if spec_is_ancestor(b, at) {
        if a.len() <= b.len() {
            assert(a =~= b.subrange(0, a.len() as int));
            if a.len() < b.len() {
                assert(b[a.len() as int] == at[a.len() as int]);
            }
        } else {
            assert(b =~= a.subrange(0, b.len() as int));
            assert(a[b.len() as int] == at[b.len() as int]);
        }
    }
}

/// Whether two registries hold the same nodes under `id` and below it.
pub open spec fn same_under(a: Nodes, b: Nodes, id: Seq<char>) -> bool {
    forall|at: Seq<char>, d: int|
        spec_is_ancestor(id, at) ==> #[trigger] a.node_at(at, d) == b.node_at(at, d)
}

/// Whether every event that `before` notes as unregistered is noted so
/// in `after` too.
pub open spec fn flags_stay(after: Transaction, before: Transaction) -> bool {
    forall|at: Seq<char>, name: Seq<char>|
        before.event_flag(at, name) == Some(false) ==> #[trigger] after.event_flag(at, name)
            == Some(false)
}

/// Whether the children of the elements that are mounted under `id` from
/// `depth` down stand apart, as far as a pass of depth `fuel` goes: of
/// the children of one element, none stands under the identifier of
/// another.
pub open spec fn spread(nodes: Nodes, id: Seq<char>, depth: int, fuel: nat) -> bool
    decreases fuel, usize::MAX - depth,
{
    match nodes.node_at(id, depth) {
        None => true,
        Some(node) => if node.kind is Component {
            0 <= depth < usize::MAX ==> spread(nodes, id, depth + 1, fuel)
        } else {
            node.view@ is Data && fuel > 0 ==> {
                &&& forall|i: int, j: int|
                    0 <= i < node.view@->children.len() && 0 <= j < node.view@->children.len() && i
                        != j ==> !spec_is_ancestor(
                        #[trigger] child_at(id, node.view@->children, i),
                        #[trigger] child_at(id, node.view@->children, j),
                    )
                &&& forall|i: int|
                    0 <= i < node.view@->children.len() ==> spread(
                        nodes,
                        #[trigger] child_at(id, node.view@->children, i),
                        0,
                        (fuel - 1) as nat,
                    )
            }
        },
    }
}

/// Whether no handler that `before` lacks stands in `after`.
pub open spec fn handlers_go(after: EventManager, before: EventManager) -> bool {
    forall|name: Seq<char>, at: Seq<char>|
        before.handler(name, at) is None ==> #[trigger] after.handler(name, at) is None
}

/// Whether what `nodes` held mounted under `id` from `depth` down is
/// unmounted, as far as a pass of depth `fuel` goes: none of its nodes
/// stands in `left`; no binding of its elements has a handler in
/// `events`; and each of them is noted as unregistered in the
/// transaction. This holds of the element that was shown there, and of
/// what was mounted under its children.
pub open spec fn unmounted(
    nodes: Nodes,
    left: Nodes,
    events: EventManager,
    transaction: Transaction,
    id: Seq<char>,
    depth: int,
    fuel: nat,
) -> bool
    decreases fuel, usize::MAX - depth,
{
    match nodes.node_at(id, depth) {
        None => true,
        Some(node) => left.node_at(id, depth) is None && if node.kind is Component {
            0 <= depth < usize::MAX ==> unmounted(
                nodes,
                left,
                events,
                transaction,
                id,
                depth + 1,
                fuel,
            )
        } else {
            node.view@ is Data ==> {
                &&& forall|name: Seq<char>|
                    #![trigger events.handler(name, id)]
                    #![trigger transaction.event_flag(id, name)]
                    binds(node.view@->props, name) ==> events.handler(name, id) is None
                        && transaction.event_flag(id, name) == Some(false)
                &&& fuel > 0 ==> forall|i: int|
                    0 <= i < node.view@->children.len() ==> unmounted(
                        nodes,
                        left,
                        events,
                        transaction,
                        #[trigger] child_at(id, node.view@->children, i),
                        0,
                        (fuel - 1) as nat,
                    )
            }
        },
    }
}

/// Whether the children stand apart rests on what is mounted under the
/// identifier from the depth down, and below it.
pub proof fn lemma_spread_rests(a: Nodes, b: Nodes, id: Seq<char>, depth: int, fuel: nat)
    requires
        spread(a, id, depth, fuel),
        forall|d: int| d >= depth ==> #[trigger] a.node_at(id, d) == b.node_at(id, d),
        forall|at: Seq<char>, d: int| below(id, at) ==> #[trigger] a.node_at(at, d) == b.node_at(at, d),
    ensures
        spread(b, id, depth, fuel),
    decreases fuel, usize::MAX - depth,
{
    assert(a.node_at(id, depth) == b.node_at(id, depth));
    match a.node_at(id, depth) {
        None => {},
        Some(node) => {
            if node.kind is Component {
                if 0 <= depth < usize::MAX {
                    lemma_spread_rests(a, b, id, depth + 1, fuel);
                }
            } else if node.view@ is Data && fuel > 0 {
                let children = node.view@->children;
                assert forall|i: int| 0 <= i < children.len() implies spread(
                    b,
                    #[trigger] child_at(id, children, i),
                    0,
                    (fuel - 1) as nat,
                ) by {
                    let child = child_at(id, children, i);
                    lemma_under_child(id, crate::utils::spec_child_view_id(
                        crate::view::model_key(children[i]),
                        i as nat,
                    ));
                    lemma_ancestor_reflexive(child);
                    assert forall|at: Seq<char>, d: int| below(child, at) implies #[trigger] a.node_at(
                        at,
                        d,
                    ) == b.node_at(at, d) by {
                        assert(spec_is_ancestor(child, at));
                    }
                    lemma_spread_rests(a, b, child, 0, (fuel - 1) as nat);
                }
            }
        },
    }
}

/// Whether a tree is unmounted rests on what was mounted under the
/// identifier from the depth down, and below it; and it stays so where
/// no node comes, no handler comes, and no note of an unregistered event
/// goes.
pub proof fn lemma_unmounted_rests(
    a: Nodes,
    left: Nodes,
    events: EventManager,
    was: Transaction,
    b: Nodes,
    later: Nodes,
    later_events: EventManager,
    now: Transaction,
    id: Seq<char>,
    depth: int,
    fuel: nat,
)
    requires
        unmounted(a, left, events, was, id, depth, fuel),
        flags_stay(now, was),
        adds_no_node(later, left),
        handlers_go(later_events, events),
        forall|d: int| d >= depth ==> #[trigger] a.node_at(id, d) == b.node_at(id, d),
        forall|at: Seq<char>, d: int| below(id, at) ==> #[trigger] a.node_at(at, d) == b.node_at(at, d),
    ensures
        unmounted(b, later, later_events, now, id, depth, fuel),
    decreases fuel, usize::MAX - depth,
{
    assert(a.node_at(id, depth) == b.node_at(id, depth));
    match a.node_at(id, depth) {
        None => {},
        Some(node) => {
            if later.node_at(id, depth) is Some {
                assert(left.node_at(id, depth) is Some);
            }
            if node.kind is Component {
                if 0 <= depth < usize::MAX {
                    lemma_unmounted_rests(
                        a,
                        left,
                        events,
                        was,
                        b,
                        later,
                        later_events,
                        now,
                        id,
                        depth + 1,
                        fuel,
                    );
                }
            } else if node.view@ is Data {
                let children = node.view@->children;
                assert forall|name: Seq<char>|
                    #![trigger later_events.handler(name, id)]
                    #![trigger now.event_flag(id, name)]
                    binds(node.view@->props, name) implies later_events.handler(name, id) is None
                    && now.event_flag(id, name) == Some(false) by {
                    assert(events.handler(name, id) is None);
                    assert(was.event_flag(id, name) == Some(false));
                }
                if fuel > 0 {
                    assert forall|i: int| 0 <= i < children.len() implies unmounted(
                        b,
                        later,
                        later_events,
                        now,
                        #[trigger] child_at(id, children, i),
                        0,
                        (fuel - 1) as nat,
                    ) by {
                        let child = child_at(id, children, i);
                        lemma_under_child(id, crate::utils::spec_child_view_id(
                            crate::view::model_key(children[i]),
                            i as nat,
                        ));
                        lemma_ancestor_reflexive(child);
                        assert forall|at: Seq<char>, d: int| below(child, at) implies #[trigger] a.node_at(
                            at,
                            d,
                        ) == b.node_at(at, d) by {
                            assert(spec_is_ancestor(child, at));
                        }
                        lemma_unmounted_rests(
                            a,
                            left,
                            events,
                            was,
                            b,
                            later,
                            later_events,
                            now,
                            child,
                            0,
                            (fuel - 1) as nat,
                        );
                    }
                }
            }
        },
    }
}

/// Whether the children of the elements of `view` stand apart when it
/// is mounted under `id`, as far as a pass of depth `fuel` goes: of the
/// children of one element that are elements, none stands under the
/// identifier of another.
pub open spec fn apart_tree(id: Seq<char>, view: ViewModel, fuel: nat) -> bool
    decreases fuel,
{
    view is Data && fuel > 0 ==> {
        &&& forall|i: int, j: int|
            0 <= i < view->children.len() && 0 <= j < view->children.len() && i != j
                && view->children[i] is Data && view->children[j] is Data ==> !spec_is_ancestor(
                #[trigger] child_at(id, view->children, i),
                #[trigger] child_at(id, view->children, j),
            )
        &&& forall|i: int|
            0 <= i < view->children.len() && (#[trigger] view->children[i]) is Data ==> apart_tree(
                child_at(id, view->children, i),
                view->children[i],
                (fuel - 1) as nat,
            )
    }
}

/// Whether `view`, which holds no component, stands mounted under `id`
/// at `depth` as far as a pass of depth `fuel` reaches: its node holds
/// it; the bindings of an element are registered and noted in the
/// transaction; and every child that is an element stands mounted
/// under its own identifier in the same way.
pub open spec fn mounted_tree(
    nodes: Nodes,
    events: EventManager,
    transaction: Transaction,
    id: Seq<char>,
    depth: int,
    view: ViewModel,
    fuel: nat,
) -> bool
    decreases fuel,
{
    &&& nodes.node_at(id, depth) is Some
    &&& nodes.node_at(id, depth)->0.kind is View
    &&& nodes.node_at(id, depth)->0.view@ == view
    &&& view is Data ==> {
        &&& forall|name: Seq<char>|
            #![trigger events.handler(name, id)]
            #![trigger transaction.event_flag(id, name)]
            binds(view->props, name) ==> events.handler(name, id) == Some(
                view->props[name]->Function_0,
            ) && transaction.event_flag(id, name) == Some(true)
        &&& fuel > 0 ==> forall|i: int|
            0 <= i < view->children.len() && (#[trigger] view->children[i]) is Data
                ==> mounted_tree(
                nodes,
                events,
                transaction,
                child_at(id, view->children, i),
                0,
                view->children[i],
                (fuel - 1) as nat,
            )
    }
}

/// Whether the registries and the notes of events of a transaction agree
/// under `id` and below it.
pub open spec fn agree_under(
    nodes: Nodes,
    events: EventManager,
    transaction: Transaction,
    other_nodes: Nodes,
    other_events: EventManager,
    other: Transaction,
    id: Seq<char>,
) -> bool {
    &&& same_under(nodes, other_nodes, id)
    &&& forall|name: Seq<char>, at: Seq<char>|
        spec_is_ancestor(id, at) ==> #[trigger] events.handler(name, at) == other_events.handler(
            name,
            at,
        )
    &&& forall|at: Seq<char>, name: Seq<char>|
        spec_is_ancestor(id, at) ==> #[trigger] transaction.event_flag(at, name)
            == other.event_flag(at, name)
}

/// Whether a view stands mounted under an identifier rests on what the
/// registries and the notes of events hold under the identifier and
/// below it.
pub proof fn lemma_mounted_rests(
    nodes: Nodes,
    events: EventManager,
    transaction: Transaction,
    other_nodes: Nodes,
    other_events: EventManager,
    other: Transaction,
    id: Seq<char>,
    depth: int,
    view: ViewModel,
    fuel: nat,
)
    requires
        mounted_tree(nodes, events, transaction, id, depth, view, fuel),
        agree_under(other_nodes, other_events, other, nodes, events, transaction, id),
    ensures
        mounted_tree(other_nodes, other_events, other, id, depth, view, fuel),
    decreases fuel,
{
    lemma_ancestor_reflexive(id);
    assert(other_nodes.node_at(id, depth) == nodes.node_at(id, depth));
    if view is Data {
        assert forall|name: Seq<char>|
            #![trigger other_events.handler(name, id)]
            #![trigger other.event_flag(id, name)]
            binds(view->props, name) implies other_events.handler(name, id) == Some(
            view->props[name]->Function_0,
        ) && other.event_flag(id, name) == Some(true) by {
            assert(other_events.handler(name, id) == events.handler(name, id));
            assert(other.event_flag(id, name) == transaction.event_flag(id, name));
        }
        if fuel > 0 {
            assert forall|i: int|
                0 <= i < view->children.len() && (#[trigger] view->children[i])
                    is Data implies mounted_tree(
                other_nodes,
                other_events,
                other,
                child_at(id, view->children, i),
                0,
                view->children[i],
                (fuel - 1) as nat,
            ) by {
                let child = child_at(id, view->children, i);
                lemma_appended_is_below(id, crate::utils::spec_child_view_id(
                    crate::view::model_key(view->children[i]),
                    i as nat,
                ));
                assert forall|at: Seq<char>| #[trigger] spec_is_ancestor(child, at) implies spec_is_ancestor(
                    id,
                    at,
                ) by {
                    lemma_ancestor_transitive(id, child, at);
                }
                lemma_mounted_rests(
                    nodes,
                    events,
                    transaction,
                    other_nodes,
                    other_events,
                    other,
                    child,
                    0,
                    view->children[i],
                    (fuel - 1) as nat,
                );
            }
        }
    }
}

/// Whether a view stands mounted under an identifier at a depth rests
/// on the node at that depth, on what the registry of nodes holds below
/// the identifier, and on the handlers and the notes of events under it.
pub proof fn lemma_mounted_layer_rests(
    nodes: Nodes,
    events: EventManager,
    transaction: Transaction,
    other_nodes: Nodes,
    other_events: EventManager,
    other: Transaction,
    id: Seq<char>,
    depth: int,
    view: ViewModel,
    fuel: nat,
)
    requires
        mounted_tree(nodes, events, transaction, id, depth, view, fuel),
        other_nodes.node_at(id, depth) == nodes.node_at(id, depth),
        forall|at: Seq<char>, d: int|
            below(id, at) ==> #[trigger] other_nodes.node_at(at, d) == nodes.node_at(at, d),
        forall|name: Seq<char>, at: Seq<char>|
            spec_is_ancestor(id, at) ==> #[trigger] other_events.handler(name, at)
                == events.handler(name, at),
        forall|at: Seq<char>, name: Seq<char>|
            spec_is_ancestor(id, at) ==> #[trigger] other.event_flag(at, name)
                == transaction.event_flag(at, name),
    ensures
        mounted_tree(other_nodes, other_events, other, id, depth, view, fuel),
{
    lemma_ancestor_reflexive(id);
    if view is Data {
        assert forall|name: Seq<char>|
            #![trigger other_events.handler(name, id)]
            #![trigger other.event_flag(id, name)]
            binds(view->props, name) implies other_events.handler(name, id) == Some(
            view->props[name]->Function_0,
        ) && other.event_flag(id, name) == Some(true) by {
            assert(other_events.handler(name, id) == events.handler(name, id));
            assert(other.event_flag(id, name) == transaction.event_flag(id, name));
        }
        if fuel > 0 {
            assert forall|i: int|
                0 <= i < view->children.len() && (#[trigger] view->children[i])
                    is Data implies mounted_tree(
                other_nodes,
                other_events,
                other,
                child_at(id, view->children, i),
                0,
                view->children[i],
                (fuel - 1) as nat,
            ) by {
                let child = child_at(id, view->children, i);
                lemma_under_child(id, crate::utils::spec_child_view_id(
                    crate::view::model_key(view->children[i]),
                    i as nat,
                ));
                assert forall|at: Seq<char>| #[trigger] spec_is_ancestor(child, at) implies below(
                    id,
                    at,
                ) && spec_is_ancestor(id, at) by {}
                lemma_mounted_rests(
                    nodes,
                    events,
                    transaction,
                    other_nodes,
                    other_events,
                    other,
                    child,
                    0,
                    view->children[i],
                    (fuel - 1) as nat,
                );
            }
        }
    }
}

/// Whether what a component rendered, `made`, stands under `id` at
/// `depth`, the layer below the component: its nodes are mounted; where
/// it holds no component, it is what is `shown`; and where its children
/// stand apart besides, it stands mounted with all that is below it.
pub open spec fn rendered_below(
    nodes: Nodes,
    events: EventManager,
    transaction: Transaction,
    id: Seq<char>,
    depth: int,
    made: ViewModel,
    fuel: nat,
    shown: ViewModel,
) -> bool {
    &&& present(nodes, id, depth, made, fuel)
    &&& component_free(made) ==> shown == made
    &&& component_free(made) && apart_tree(id, made, fuel) ==> mounted_tree(
        nodes,
        events,
        transaction,
        id,
        depth,
        made,
        fuel,
    )
}

} // verus!
