//! The renderer: mounts a view tree, keeps it in step with state changes
//! and hands out one transaction per pass.

use super::events::{apply_bindings, binds, selected};
use super::instance::Instance;
use super::laws::{lemma_model_keys, model_keys};
use super::node::{pending_state, takes_in_place, Node, NodeKind};
use super::nodes::Nodes;
use super::patches::{
    children_present, element_patches, emit_element_patches, ends_as_element, inserts_child,
    inserts_listed, lemma_no_new_slot, new_slots, patches_kept, props_changed, removals_kept,
    replaces,
};
use super::queue::{Message, Queue, StateTransform};
use super::root_ids::RootIds;
use super::tree::{
    adds_no_node, apart_tree, below, child_at, expands, flags_stay, handlers_go, keeps_nodes,
    lemma_apart_below, lemma_child_not_above, lemma_mounted_layer_rests, lemma_mounted_rests,
    lemma_present_stays, rendered_below,
    lemma_shown_agrees, lemma_shown_where_mounted, lemma_spread_rests, lemma_unmounted_rests,
    lemma_under_child, mounted_tree, present, same_under, shown_from, shown_node, spread,
    unmounted,
};
use super::updater::Updater;
use crate::diff::{
    diff_children, filled, lemma_filled_prefix, lemma_filled_step, places,
    position_models, spec_diff_children, view_keys,
};
use crate::event_manager::EventManager;
use crate::prop::{PropView, Props};
use crate::transaction::{insert_models, raw, remove_models, Patch, RawView, Transaction};
use crate::utils::{
    decimal, decimal_string, lemma_ancestor_reflexive, lemma_ancestor_transitive,
    lemma_appended_is_below, opt_text, parent_id, spec_child_view_id, spec_is_ancestor,
    spec_parent_id, spec_view_id, view_id,
};
use crate::view::{
    model_key, same_view, view_models, Children, Component, ComponentRef, View, ViewModel,
};
use vstd::prelude::*;
use vstd::view::View as _;

verus! {

/// The identifier of the root with the given number: a dot and the number.
pub open spec fn spec_root_id(root_index: nat) -> Seq<char> {
    seq!['.'] + decimal(root_index)
}

/// Whether a view holds no component: it is a text, or an element with a
/// tag whose children hold none.
pub open spec fn component_free(view: ViewModel) -> bool
    decreases view,
{
    match view {
        ViewModel::Text(_) => true,
        ViewModel::Data { kind, children, .. } => kind is Tag && forall|i: int|
            0 <= i < children.len() ==> component_free(#[trigger] children[i]),
    }
}

/// Whether a pass of the given depth reaches every level of a view.
pub open spec fn fits(view: ViewModel, fuel: nat) -> bool
    decreases fuel,
{
    fuel > 0 && match view {
        ViewModel::Text(_) => true,
        ViewModel::Data { children, .. } => forall|i: int|
            0 <= i < children.len() ==> fits(#[trigger] children[i], (fuel - 1) as nat),
    }
}

/// Whether the registries hold outside the subtree of `id` what they held
/// before.
pub open spec fn same_outside(
    nodes: Nodes,
    events: EventManager,
    nodes_before: Nodes,
    events_before: EventManager,
    id: Seq<char>,
) -> bool {
    &&& forall|at: Seq<char>, d: int|
        !spec_is_ancestor(id, at) ==> #[trigger] nodes.node_at(at, d) == nodes_before.node_at(
            at,
            d,
        )
    &&& forall|name: Seq<char>, at: Seq<char>|
        !spec_is_ancestor(id, at) ==> #[trigger] events.handler(name, at)
            == events_before.handler(name, at)
}

/// Whether the registries hold what they held before, outside the
/// subtree of `id` and at everything that is not below the parent of
/// `id`.
pub open spec fn same_around(
    nodes: Nodes,
    events: EventManager,
    nodes_before: Nodes,
    events_before: EventManager,
    id: Seq<char>,
) -> bool {
    &&& forall|at: Seq<char>, d: int|
        !spec_is_ancestor(id, at) && !below(spec_parent_id(id), at) ==> #[trigger] nodes.node_at(
            at,
            d,
        ) == nodes_before.node_at(at, d)
    &&& forall|name: Seq<char>, at: Seq<char>|
        !spec_is_ancestor(id, at) && !below(spec_parent_id(id), at) ==> #[trigger] events.handler(
            name,
            at,
        ) == events_before.handler(name, at)
}

/// Whether the transaction notes outside the subtree of `id` the events
/// that it noted before.
pub open spec fn same_events_outside(
    transaction: Transaction,
    before: Transaction,
    id: Seq<char>,
) -> bool {
    forall|at: Seq<char>, name: Seq<char>|
        !spec_is_ancestor(id, at) ==> #[trigger] transaction.event_flag(at, name)
            == before.event_flag(at, name)
}

/// What lies outside the subtree of an identifier lies outside the
/// subtree of everything below it.
proof fn lemma_outside(id: Seq<char>, below: Seq<char>)
    requires
        spec_is_ancestor(id, below),
    ensures
        forall|at: Seq<char>| !spec_is_ancestor(id, at) ==> !(#[trigger] spec_is_ancestor(below, at)),
{
    assert forall|at: Seq<char>| !spec_is_ancestor(id, at) implies !(#[trigger] spec_is_ancestor(
        below,
        at,
    )) by {
        if spec_is_ancestor(below, at) {
            lemma_ancestor_transitive(id, below, at);
        }
    }
}

/// A renderer of one tree. `C` are the components of the application,
/// `T` the changes of state that it requests.
pub struct Renderer<C, T> {
    root_id: String,
    root_index: usize,
    nodes: Nodes,
    event_manager: EventManager,
    queue: Queue<T>,
    components: C,
    limit: usize,
}

impl<C: Component, T: StateTransform> Renderer<C, T> {
    /// The identifier of the root of the tree.
    pub closed spec fn spec_id(self) -> Seq<char> {
        self.root_id@
    }

    /// The components of the application.
    pub closed spec fn spec_components(self) -> C {
        self.components
    }

    /// The number of the root.
    pub closed spec fn spec_index(self) -> usize {
        self.root_index
    }

    /// The registry of mounted nodes.
    pub closed spec fn spec_nodes(self) -> Nodes {
        self.nodes
    }

    /// The registry of event handlers.
    pub closed spec fn spec_events(self) -> EventManager {
        self.event_manager
    }

    /// The waiting requests.
    pub closed spec fn spec_queue(self) -> Seq<Message<T>> {
        self.queue@
    }

    /// How deep a pass goes.
    pub closed spec fn spec_limit(self) -> usize {
        self.limit
    }

    /// A renderer for the root with the given number, with nothing
    /// mounted. Its passes go as deep as a tree can be.
    pub fn new(root_index: usize, components: C) -> (renderer: Self)
        ensures
            renderer.spec_id() == spec_root_id(root_index as nat),
            renderer.spec_index() == root_index,
            renderer.spec_nodes().spec_is_empty(),
            renderer.spec_events().spec_is_empty(),
            renderer.spec_queue().len() == 0,
            renderer.spec_limit() == usize::MAX,
    {
        proof {
            reveal_strlit(".");
        }
        let number = decimal_string(root_index);
        let root_id = String::from_str(".").concat(number.as_str());
        assert(root_id@ =~= spec_root_id(root_index as nat));
        Renderer {
            root_id,
            root_index,
            nodes: Nodes::new(),
            event_manager: EventManager::new(),
            queue: Queue::new(),
            components,
            limit: usize::MAX,
        }
    }

    /// A renderer for the root with the next number of `ids`, with
    /// nothing mounted.
    pub fn with_ids(ids: &mut RootIds, components: C) -> (renderer: Self)
        ensures
            renderer.spec_id() == spec_root_id(old(ids).spec_upcoming() as nat),
            renderer.spec_index() == old(ids).spec_upcoming(),
            renderer.spec_nodes().spec_is_empty(),
            renderer.spec_events().spec_is_empty(),
            renderer.spec_queue().len() == 0,
            renderer.spec_limit() == usize::MAX,
            final(ids).spec_upcoming() == (if old(ids).spec_upcoming() == usize::MAX {
                0
            } else {
                old(ids).spec_upcoming() + 1
            }),
    {
        let index = ids.next();
        Self::new(index, components)
    }

    /// Sets how many levels deep a pass goes: below that, views are taken
    /// as they are.
    pub fn set_limit(&mut self, limit: usize)
        ensures
            final(self).spec_limit() == limit,
            final(self).spec_id() == old(self).spec_id(),
            final(self).spec_nodes() == old(self).spec_nodes(),
            final(self).spec_events() == old(self).spec_events(),
            final(self).spec_queue() == old(self).spec_queue(),
    {
        self.limit = limit;
    }

    pub fn root_id(&self) -> (id: &String)
        ensures
            id@ == self.spec_id(),
    {
        &self.root_id
    }

    pub fn root_index(&self) -> (index: usize)
        ensures
            index == self.spec_index(),
    {
        self.root_index
    }

    pub fn event_manager(&self) -> (manager: &EventManager)
        ensures
            *manager == self.spec_events(),
    {
        &self.event_manager
    }

    pub fn nodes(&self) -> (nodes: &Nodes)
        ensures
            *nodes == self.spec_nodes(),
    {
        &self.nodes
    }

    /// The components of the application.
    pub fn components(&self) -> (components: &C)
        ensures
            *components == self.spec_components(),
    {
        &self.components
    }

    /// The components of the application, to change them.
    pub fn components_mut(&mut self) -> (components: &mut C)
        ensures
            *components == old(self).spec_components(),
            final(self).spec_components() == *final(components),
            final(self).spec_id() == old(self).spec_id(),
            final(self).spec_nodes() == old(self).spec_nodes(),
            final(self).spec_events() == old(self).spec_events(),
            final(self).spec_queue() == old(self).spec_queue(),
    {
        &mut self.components
    }

    /// Mounts `view` under `id` at `depth` with everything below it, and
    /// returns what was rendered there. A component is rendered and what
    /// it renders mounted one layer deeper; an element has its event
    /// bindings registered and its children mounted. `fuel` bounds how
    /// deep this goes: below that, views are taken as they are.
    ///
    /// The node under `id` at `depth` then holds `view` where it was
    /// rendered as a component, and else what was rendered. The bindings
    /// of an element stand in the event registry and are noted in the
    /// transaction; the nodes of its children are mounted, each with what
    /// is below it. No node that was mounted goes. A view without
    /// components whose children stand apart then stands mounted with all
    /// that is below it: each node holds its view, and each binding is
    /// registered and noted. Whatever a component rendered stands so one
    /// layer deeper.
    fn mount_node(
        &mut self,
        index: usize,
        depth: usize,
        id: &str,
        view: &View,
        parent_context: &Props,
        fuel: usize,
        transaction: &mut Transaction,
    ) -> (rendered: View)
        requires
            depth < usize::MAX,
        ensures
            final(self).nodes.node_at(id@, depth as int) matches Some(node) && (node.kind
                is Component) == expands(view@, depth as int, fuel as nat) && node.view@ == (if expands(
                view@,
                depth as int,
                fuel as nat,
            ) {
                view@
            } else {
                rendered@
            }),
            component_free(view@) ==> rendered@ == view@,
            view@ is Data && !expands(view@, depth as int, fuel as nat) ==> forall|name: Seq<char>|
                #![trigger final(self).event_manager.handler(name, id@)]
                #![trigger final(transaction).event_flag(id@, name)]
                binds(view@->props, name) ==> final(self).event_manager.handler(name, id@) == Some(
                    view@->props[name]->Function_0,
                ) && final(transaction).event_flag(id@, name) == Some(true),
            keeps_nodes(final(self).nodes, old(self).nodes),
            present(final(self).nodes, id@, depth as int, view@, fuel as nat),
            component_free(view@) && apart_tree(id@, view@, fuel as nat) ==> mounted_tree(
                final(self).nodes,
                final(self).event_manager,
                *final(transaction),
                id@,
                depth as int,
                view@,
                fuel as nat,
            ),
            expands(view@, depth as int, fuel as nat) ==> exists|made: View| #[trigger]
                rendered_below(
                    final(self).nodes,
                    final(self).event_manager,
                    *final(transaction),
                    id@,
                    depth + 1,
                    made@,
                    (fuel - 1) as nat,
                    rendered@,
                ),
            same_outside(
                final(self).nodes,
                final(self).event_manager,
                old(self).nodes,
                old(self).event_manager,
                id@,
            ),
            same_events_outside(*final(transaction), *old(transaction), id@),
            final(self).root_id == old(self).root_id,
            final(self).queue == old(self).queue,
            final(self).limit == old(self).limit,
            forall|at: Seq<char>| #[trigger]
                final(transaction).patches_at(at) == old(transaction).patches_at(at),
            final(transaction).removed() == old(transaction).removed(),
        decreases fuel,
    {
        proof {
            lemma_ancestor_reflexive(id@);
        }
        let empty_props = Props::new();
        let empty_children: Children = Vec::new();
        let expand = match view.component() {
            Some(_) => fuel > 0 && depth < usize::MAX - 1,
            None => false,
        };
        if expand {
            let component = match view.component() {
                Some(component) => component.clone(),
                None => crate::view::ComponentRef::new(0, String::new()),
            };
            let props = match view.props() {
                Some(props) => props,
                None => &empty_props,
            };
            let children = match view.children() {
                Some(children) => children,
                None => &empty_children,
            };
            let declared = self.components.context(&component, props);
            let context = self.components.inherit_context(&component, declared, parent_context);
            let state = self.components.initial_state(&component, props);
            let instance = Instance::new(state, context, Updater::new(String::from_str(id), depth));
            let rendered_view = self.components.render(&component, &instance, props, children);
            let rendered = self.mount_node(
                index,
                depth + 1,
                id,
                &rendered_view,
                &instance.context,
                fuel - 1,
                transaction,
            );
            let ghost inner = self.nodes;
            let ghost made = rendered_view;
            self.components.will_mount(&component, &instance);
            let node = Node::new(
                index,
                depth,
                String::from_str(id),
                view.clone(),
                NodeKind::Component { instance, next_state: None, component },
                parent_context.clone(),
            );
            self.nodes.insert_at_depth(String::from_str(id), depth, node);
            proof {
                assert(expands(view@, depth as int, fuel as nat));
                lemma_present_stays(
                    inner,
                    self.nodes,
                    id@,
                    depth + 1,
                    made@,
                    (fuel - 1) as nat,
                );
                if component_free(made@) && apart_tree(id@, made@, (fuel - 1) as nat) {
                    assert forall|at: Seq<char>, d: int| below(id@, at) implies #[trigger] self.nodes.node_at(
                        at,
                        d,
                    ) == inner.node_at(at, d) by {}
                    lemma_mounted_layer_rests(
                        inner,
                        self.event_manager,
                        *transaction,
                        self.nodes,
                        self.event_manager,
                        *transaction,
                        id@,
                        depth + 1,
                        made@,
                        (fuel - 1) as nat,
                    );
                }
                assert(rendered_below(
                    self.nodes,
                    self.event_manager,
                    *transaction,
                    id@,
                    depth + 1,
                    made@,
                    (fuel - 1) as nat,
                    rendered@,
                ));
            }
            rendered
        } else {
            let rendered = match view {
                View::Text(_) => view.clone(),
                View::Data { kind, key, props, children } => {
                    apply_bindings(&mut self.event_manager, transaction, id, props, None, true);
                    let ghost deep = component_free(view@) && apart_tree(id@, view@, fuel as nat);
                    let mut mounted: Vec<View> = Vec::new();
                    let mut i: usize = 0;
                    while i < children.len()
                        invariant
                            i <= children.len(),
                            mounted@.len() == i,
                            view@ matches ViewModel::Data { children: c, .. } && c == view_models(
                                children@,
                            ),
                            view@->props == props@,
                            forall|name: Seq<char>|
                                binds(props@, name) ==> #[trigger] self.event_manager.handler(
                                    name,
                                    id@,
                                ) == Some(props@[name]->Function_0) && transaction.event_flag(
                                    id@,
                                    name,
                                ) == Some(true),
                            keeps_nodes(self.nodes, old(self).nodes),
                            deep == (component_free(view@) && apart_tree(id@, view@, fuel as nat)),
                            deep && fuel > 0 ==> forall|j: int|
                                0 <= j < i && (#[trigger] view_models(children@)[j]) is Data
                                    ==> mounted_tree(
                                    self.nodes,
                                    self.event_manager,
                                    *transaction,
                                    child_at(id@, view_models(children@), j),
                                    0,
                                    view_models(children@)[j],
                                    (fuel - 1) as nat,
                                ),
                            fuel > 0 ==> forall|j: int|
                                0 <= j < i && (#[trigger] view_models(children@)[j]) is Data
                                    ==> present(
                                    self.nodes,
                                    child_at(id@, view_models(children@), j),
                                    0,
                                    view_models(children@)[j],
                                    (fuel - 1) as nat,
                                ),
                            component_free(view@) ==> forall|j: int|
                                0 <= j < i ==> (#[trigger] mounted@[j])@ == children@[j]@,
                            same_outside(
                                self.nodes,
                                self.event_manager,
                                old(self).nodes,
                                old(self).event_manager,
                                id@,
                            ),
                            same_events_outside(*transaction, *old(transaction), id@),
                            self.root_id == old(self).root_id,
                            self.queue == old(self).queue,
                            self.limit == old(self).limit,
                            forall|at: Seq<char>| #[trigger]
                                transaction.patches_at(at) == old(transaction).patches_at(at),
                            transaction.removed() == old(transaction).removed(),
                        decreases children.len() - i,
                    {
                        let child = &children[i];
                        proof {
                            if component_free(view@) {
                                assert(component_free(view_models(children@)[i as int]));
                            }
                        }
                        if child.is_data() && fuel > 0 {
                            let child_key = child.key();
                            let child_id = view_id(id, child_key, i);
                            proof {
                                lemma_appended_is_below(
                                    id@,
                                    spec_child_view_id(opt_text(child_key), i as nat),
                                );
                                lemma_child_not_above(
                                    id@,
                                    spec_child_view_id(opt_text(child_key), i as nat),
                                );
                                lemma_outside(id@, child_id@);
                            }
                            let ghost held = self.nodes;
                            let ghost bound = self.event_manager;
                            let ghost noted = *transaction;
                            let shown = self.mount_node(
                                i,
                                0,
                                child_id.as_str(),
                                child,
                                parent_context,
                                fuel - 1,
                                transaction,
                            );
                            proof {
                                let models = view_models(children@);
                                if deep {
                                    let own = child_at(id@, models, i as int);
                                    assert(models[i as int] is Data);
                                    assert(apart_tree(own, models[i as int], (fuel - 1) as nat));
                                    assert forall|j: int|
                                        0 <= j < i && (#[trigger] models[j]) is Data implies mounted_tree(
                                        self.nodes,
                                        self.event_manager,
                                        *transaction,
                                        child_at(id@, models, j),
                                        0,
                                        models[j],
                                        (fuel - 1) as nat,
                                    ) by {
                                        let other = child_at(id@, models, j);
                                        assert(!spec_is_ancestor(
                                            child_at(id@, models, i as int),
                                            child_at(id@, models, j),
                                        ));
                                        assert(!spec_is_ancestor(
                                            child_at(id@, models, j),
                                            child_at(id@, models, i as int),
                                        ));
                                        assert forall|at: Seq<char>| #[trigger]
                                            spec_is_ancestor(other, at) implies !spec_is_ancestor(
                                            own,
                                            at,
                                        ) by {
                                            lemma_apart_below(other, own, at);
                                        }
                                        lemma_mounted_rests(
                                            held,
                                            bound,
                                            noted,
                                            self.nodes,
                                            self.event_manager,
                                            *transaction,
                                            other,
                                            0,
                                            models[j],
                                            (fuel - 1) as nat,
                                        );
                                    }
                                }
                                assert forall|j: int|
                                    0 <= j < i && (#[trigger] models[j]) is Data implies present(
                                    self.nodes,
                                    child_at(id@, models, j),
                                    0,
                                    models[j],
                                    (fuel - 1) as nat,
                                ) by {
                                    lemma_present_stays(
                                        held,
                                        self.nodes,
                                        child_at(id@, models, j),
                                        0,
                                        models[j],
                                        (fuel - 1) as nat,
                                    );
                                }
                            }
                            mounted.push(shown);
                        } else {
                            mounted.push(child.clone());
                        }
                        i = i + 1;
                    }
                    let key2 = match key {
                        Some(k) => Some(k.clone()),
                        None => None,
                    };
                    proof {
                        if component_free(view@) {
                            assert(view_models(mounted@) =~= view_models(children@));
                        }
                    }
                    View::Data {
                        kind: kind.clone(),
                        key: key2,
                        props: props.clone(),
                        children: mounted,
                    }
                },
            };
            let node = Node::new(
                index,
                depth,
                String::from_str(id),
                rendered.clone(),
                NodeKind::View,
                parent_context.clone(),
            );
            let ghost held = self.nodes;
            self.nodes.insert_at_depth(String::from_str(id), depth, node);
            proof {
                if view@ is Data && fuel > 0 && component_free(view@) && apart_tree(
                    id@,
                    view@,
                    fuel as nat,
                ) {
                    let models = view@->children;
                    assert forall|j: int|
                        0 <= j < models.len() && (#[trigger] models[j]) is Data implies mounted_tree(
                        self.nodes,
                        self.event_manager,
                        *transaction,
                        child_at(id@, models, j),
                        0,
                        models[j],
                        (fuel - 1) as nat,
                    ) by {
                        let other = child_at(id@, models, j);
                        lemma_child_not_above(id@, spec_child_view_id(model_key(models[j]), j as nat));
                        assert forall|at: Seq<char>| #[trigger]
                            spec_is_ancestor(other, at) implies at != id@ by {
                            if at == id@ {
                                assert(spec_is_ancestor(other, id@));
                            }
                        }
                        lemma_mounted_rests(
                            held,
                            self.event_manager,
                            *transaction,
                            self.nodes,
                            self.event_manager,
                            *transaction,
                            other,
                            0,
                            models[j],
                            (fuel - 1) as nat,
                        );
                    }
                }
                if view@ is Data && fuel > 0 {
                    let models = view@->children;
                    assert forall|j: int|
                        0 <= j < models.len() && (#[trigger] models[j]) is Data implies present(
                        self.nodes,
                        child_at(id@, models, j),
                        0,
                        models[j],
                        (fuel - 1) as nat,
                    ) by {
                        lemma_present_stays(
                            held,
                            self.nodes,
                            child_at(id@, models, j),
                            0,
                            models[j],
                            (fuel - 1) as nat,
                        );
                    }
                }
            }
            rendered
        }
    }

    /// Unmounts the node under `id` at `depth` with everything below it,
    /// children before parents, and returns what was rendered there: the
    /// view of the node that showed it. The event bindings of the elements
    /// are unregistered, and each is noted in the transaction. `fuel`
    /// bounds how many levels of children the pass goes down.
    ///
    /// No node is mounted by this. Where the node that showed what was
    /// rendered is an element, none of its bindings has a handler left,
    /// and no child has a node left. Where the children of the elements
    /// stand apart, all that was mounted there is unmounted: no node of it
    /// is left, and every binding of its elements is unregistered and
    /// noted so.
    fn unmount_node(
        &mut self,
        id: &str,
        depth: usize,
        fuel: usize,
        transaction: &mut Transaction,
    ) -> (r: Option<View>)
        ensures
            r == shown_from(old(self).nodes, id@, depth as int),
            r is Some == old(self).nodes.node_at(id@, depth as int) is Some,
            final(self).nodes.node_at(id@, depth as int) is None,
            adds_no_node(final(self).nodes, old(self).nodes),
            Self::taken_off(
                shown_node(old(self).nodes, id@, depth as int),
                id@,
                fuel,
                final(self).nodes,
                final(self).event_manager,
                *final(transaction),
            ),
            flags_stay(*final(transaction), *old(transaction)),
            handlers_go(final(self).event_manager, old(self).event_manager),
            spread(old(self).nodes, id@, depth as int, fuel as nat) ==> unmounted(
                old(self).nodes,
                final(self).nodes,
                final(self).event_manager,
                *final(transaction),
                id@,
                depth as int,
                fuel as nat,
            ),
            same_outside(
                final(self).nodes,
                final(self).event_manager,
                old(self).nodes,
                old(self).event_manager,
                id@,
            ),
            same_events_outside(*final(transaction), *old(transaction), id@),
            final(self).root_id == old(self).root_id,
            final(self).queue == old(self).queue,
            final(self).limit == old(self).limit,
            forall|at: Seq<char>| #[trigger]
                final(transaction).patches_at(at) == old(transaction).patches_at(at),
            final(transaction).removed() == old(transaction).removed(),
        decreases fuel, usize::MAX - depth,
    {
        proof {
            lemma_ancestor_reflexive(id@);
            lemma_shown_where_mounted(self.nodes, id@, depth as int);
        }
        let node = match self.nodes.take_at_depth(id, depth) {
            Some(node) => node,
            None => {
                return None;
            },
        };
        let ghost taken = node;
        let ghost steady = spread(old(self).nodes, id@, depth as int, fuel as nat);
        let Node { view, kind, .. } = node;
        let rendered = match kind {
            NodeKind::Component { instance, component, .. } => {
                let ghost held = self.nodes;
                proof {
                    lemma_shown_agrees(old(self).nodes, self.nodes, id@, depth + 1);
                    lemma_shown_where_mounted(self.nodes, id@, depth + 1);
                    if steady {
                        assert forall|at: Seq<char>, d: int| below(id@, at) implies #[trigger] old(
                            self,
                        ).nodes.node_at(at, d) == held.node_at(at, d) by {}
                        lemma_spread_rests(old(self).nodes, held, id@, depth + 1, fuel as nat);
                    }
                }
                let inner = self.unmount_node(id, depth + 1, fuel, transaction);
                proof {
                    if steady {
                        assert forall|at: Seq<char>, d: int| below(id@, at) implies #[trigger] held.node_at(
                            at,
                            d,
                        ) == old(self).nodes.node_at(at, d) by {}
                        lemma_unmounted_rests(
                            held,
                            self.nodes,
                            self.event_manager,
                            *transaction,
                            old(self).nodes,
                            self.nodes,
                            self.event_manager,
                            *transaction,
                            id@,
                            depth + 1,
                            fuel as nat,
                        );
                    }
                }
                let ghost undone = self.event_manager;
                self.components.will_unmount(&component, &instance);
                match inner {
                    Some(shown) => shown,
                    None => view,
                }
            },
            NodeKind::View => {
                match &view {
                    View::Data { props, children, .. } => {
                        apply_bindings(
                            &mut self.event_manager,
                            transaction,
                            id,
                            props,
                            None,
                            false,
                        );
                        let ghost kids = view_models(children@);
                        proof {
                            assert forall|j: int| 0 <= j < kids.len() implies #[trigger] same_under(
                                self.nodes,
                                old(self).nodes,
                                child_at(id@, kids, j),
                            ) by {
                                lemma_under_child(
                                    id@,
                                    spec_child_view_id(model_key(kids[j]), j as nat),
                                );
                            }
                        }
                        let mut i: usize = 0;
                        while i < children.len()
                            invariant
                                i <= children.len(),
                                view@ matches ViewModel::Data { children: c, .. } && c
                                    == view_models(children@),
                                view@->props == props@,
                                kids == view_models(children@),
                                old(self).nodes.node_at(id@, depth as int) == Some(taken),
                                taken.view == view,
                                taken.kind is View,
                                steady == spread(old(self).nodes, id@, depth as int, fuel as nat),
                                flags_stay(*transaction, *old(transaction)),
                                handlers_go(self.event_manager, old(self).event_manager),
                                self.nodes.node_at(id@, depth as int) is None,
                                steady && fuel > 0 ==> forall|j: int|
                                    0 <= j < i ==> unmounted(
                                        old(self).nodes,
                                        self.nodes,
                                        self.event_manager,
                                        *transaction,
                                        #[trigger] child_at(id@, kids, j),
                                        0,
                                        (fuel - 1) as nat,
                                    ),
                                steady ==> forall|j: int|
                                    i <= j < kids.len() ==> #[trigger] same_under(
                                        self.nodes,
                                        old(self).nodes,
                                        child_at(id@, kids, j),
                                    ),
                                forall|name: Seq<char>|
                                    #![trigger self.event_manager.handler(name, id@)]
                                    #![trigger transaction.event_flag(id@, name)]
                                    binds(props@, name) ==> self.event_manager.handler(name, id@)
                                        is None && transaction.event_flag(id@, name) == Some(false),
                                adds_no_node(self.nodes, old(self).nodes),
                                fuel > 0 ==> forall|j: int|
                                    0 <= j < i ==> #[trigger] self.nodes.node_at(
                                        child_at(id@, view_models(children@), j),
                                        0,
                                    ) is None,
                                same_outside(
                                    self.nodes,
                                    self.event_manager,
                                    old(self).nodes,
                                    old(self).event_manager,
                                    id@,
                                ),
                                same_events_outside(*transaction, *old(transaction), id@),
                                self.root_id == old(self).root_id,
                                self.queue == old(self).queue,
                                self.limit == old(self).limit,
                                forall|at: Seq<char>| #[trigger]
                                    transaction.patches_at(at) == old(transaction).patches_at(at),
                                transaction.removed() == old(transaction).removed(),
                            decreases children.len() - i,
                        {
                            if fuel > 0 {
                                let child_key = children[i].key();
                                let child_id = view_id(id, child_key, i);
                                proof {
                                    lemma_appended_is_below(
                                        id@,
                                        spec_child_view_id(
                                            opt_text(child_key),
                                            i as nat,
                                        ),
                                    );
                                    lemma_child_not_above(
                                        id@,
                                        spec_child_view_id(
                                            opt_text(child_key),
                                            i as nat,
                                        ),
                                    );
                                    lemma_outside(id@, child_id@);
                                }
                                let ghost held = self.nodes;
                                let ghost bound = self.event_manager;
                                let ghost was = *transaction;
                                let ghost own = child_at(id@, kids, i as int);
                                proof {
                                    lemma_ancestor_reflexive(own);
                                    if steady {
                                        assert(spread(
                                            old(self).nodes,
                                            child_at(id@, kids, i as int),
                                            0,
                                            (fuel - 1) as nat,
                                        ));
                                        assert(same_under(held, old(self).nodes, own));
                                        assert forall|at: Seq<char>, d: int|
                                            below(own, at) implies #[trigger] old(self).nodes.node_at(
                                            at,
                                            d,
                                        ) == held.node_at(at, d) by {
                                            assert(held.node_at(at, d) == old(self).nodes.node_at(
                                                at,
                                                d,
                                            ));
                                        }
                                        assert forall|d: int| d >= 0 implies #[trigger] old(
                                            self,
                                        ).nodes.node_at(own, d) == held.node_at(own, d) by {
                                            assert(held.node_at(own, d) == old(self).nodes.node_at(
                                                own,
                                                d,
                                            ));
                                        }
                                        lemma_spread_rests(
                                            old(self).nodes,
                                            held,
                                            own,
                                            0,
                                            (fuel - 1) as nat,
                                        );
                                    }
                                }
                                let _ = self.unmount_node(
                                    child_id.as_str(),
                                    0,
                                    fuel - 1,
                                    transaction,
                                );
                                proof {
                                    if steady {
                                        assert forall|at: Seq<char>, d: int|
                                            below(own, at) implies #[trigger] held.node_at(at, d)
                                            == old(self).nodes.node_at(at, d) by {}
                                        lemma_unmounted_rests(
                                            held,
                                            self.nodes,
                                            self.event_manager,
                                            *transaction,
                                            old(self).nodes,
                                            self.nodes,
                                            self.event_manager,
                                            *transaction,
                                            own,
                                            0,
                                            (fuel - 1) as nat,
                                        );
                                        assert forall|j: int| 0 <= j < i implies unmounted(
                                            old(self).nodes,
                                            self.nodes,
                                            self.event_manager,
                                            *transaction,
                                            #[trigger] child_at(id@, kids, j),
                                            0,
                                            (fuel - 1) as nat,
                                        ) by {
                                            lemma_unmounted_rests(
                                                old(self).nodes,
                                                held,
                                                bound,
                                                was,
                                                old(self).nodes,
                                                self.nodes,
                                                self.event_manager,
                                                *transaction,
                                                child_at(id@, kids, j),
                                                0,
                                                (fuel - 1) as nat,
                                            );
                                        }
                                        assert forall|j: int|
                                            i < j < kids.len() implies #[trigger] same_under(
                                            self.nodes,
                                            old(self).nodes,
                                            child_at(id@, kids, j),
                                        ) by {
                                            let other = child_at(id@, kids, j);
                                            assert(same_under(held, old(self).nodes, other));
                                            assert(!spec_is_ancestor(
                                                child_at(id@, kids, i as int),
                                                child_at(id@, kids, j),
                                            ));
                                            assert(!spec_is_ancestor(
                                                child_at(id@, kids, j),
                                                child_at(id@, kids, i as int),
                                            ));
                                            assert forall|at: Seq<char>, d: int|
                                                spec_is_ancestor(other, at)
                                                    implies #[trigger] self.nodes.node_at(at, d) == old(
                                                self,
                                            ).nodes.node_at(at, d) by {
                                                lemma_apart_below(other, own, at);
                                                assert(held.node_at(at, d) == old(self).nodes.node_at(
                                                    at,
                                                    d,
                                                ));
                                            }
                                        }
                                    }
                                }
                            }
                            i = i + 1;
                        }
                        proof {
                            if steady {
                                assert(taken.view@->children == kids);
                                assert(unmounted(
                                    old(self).nodes,
                                    self.nodes,
                                    self.event_manager,
                                    *transaction,
                                    id@,
                                    depth as int,
                                    fuel as nat,
                                ));
                            }
                        }
                    },
                    View::Text(_) => {},
                }
                view
            },
        };
        let ghost left = self.nodes;
        let _ = self.nodes.remove_at_depth(id, depth);
        proof {
            if steady {
                lemma_unmounted_rests(
                    old(self).nodes,
                    left,
                    self.event_manager,
                    *transaction,
                    old(self).nodes,
                    self.nodes,
                    self.event_manager,
                    *transaction,
                    id@,
                    depth as int,
                    fuel as nat,
                );
            }
        }
        Some(rendered)
    }

    /// Whether the node that showed what was rendered under `id` is taken
    /// off: where it is an element, none of its bindings has a handler
    /// left, each is noted as unregistered, and with a pass that goes down
    /// no child has a node left.
    pub open spec fn taken_off(
        shown: Option<Node>,
        id: Seq<char>,
        fuel: usize,
        nodes: Nodes,
        events: EventManager,
        transaction: Transaction,
    ) -> bool {
        let held = shown->0.view@;
        shown is Some && shown->0.kind is View && held is Data ==> {
            &&& forall|name: Seq<char>|
                #![trigger events.handler(name, id)]
                #![trigger transaction.event_flag(id, name)]
                binds(held->props, name) ==> events.handler(name, id) is None
                    && transaction.event_flag(id, name) == Some(false)
            &&& fuel > 0 ==> forall|i: int|
                0 <= i < held->children.len() ==> #[trigger] nodes.node_at(
                    child_at(id, held->children, i),
                    0,
                ) is None
        }
    }

    /// What is rendered under `id` from `depth` down: a copy of the view of
    /// the first layer that is no component, or that has no layer below
    /// it; none where no node is mounted under `id` at `depth`.
    fn rendered_view(&self, id: &str, depth: usize) -> (r: Option<View>)
        ensures
            match shown_from(self.nodes, id@, depth as int) {
                Some(view) => r matches Some(copy) && copy@ == view@,
                None => r is None,
            },
    {
        let first = match self.nodes.get_at_depth(id, depth) {
            Some(node) => node,
            None => {
                return None;
            },
        };
        let mut shown = first.view.clone();
        let mut deeper = first.is_component();
        let mut d: usize = depth;
        while deeper && d < usize::MAX
            invariant
                depth <= d,
                self.nodes.node_at(id@, d as int) is Some,
                shown@ == self.nodes.node_at(id@, d as int)->0.view@,
                deeper ==> self.nodes.node_at(id@, d as int)->0.kind is Component,
                !deeper ==> shown_from(self.nodes, id@, d as int) == Some(
                    self.nodes.node_at(id@, d as int)->0.view,
                ),
                shown_from(self.nodes, id@, depth as int) == shown_from(self.nodes, id@, d as int),
            decreases
                    (if deeper {
                        usize::MAX - d + 1
                    } else {
                        0
                    }),
        {
            match self.nodes.get_at_depth(id, d + 1) {
                Some(node) => {
                    d = d + 1;
                    shown = node.view.clone();
                    deeper = node.is_component();
                },
                None => {
                    deeper = false;
                },
            }
        }
        Some(shown)
    }

    /// The identifier under which the node for `next` is mounted that
    /// takes the place of a node under `id` with the given index: that of
    /// the child of the same parent with the key of `next`, or else with
    /// the index.
    pub open spec fn replaced_at(id: Seq<char>, next: ViewModel, index: usize) -> Seq<char> {
        spec_view_id(spec_parent_id(id), model_key(next), index as nat)
    }

    /// Whether `after` is the node `before` once it has taken `next` in
    /// place: it stands where it stood, it is a component if it was one,
    /// and it holds `next` as a component and else what is `shown`. A
    /// component is the same component, and no change of its state is
    /// pending.
    pub open spec fn kept_in_place(
        after: Option<Node>,
        before: Node,
        next: ViewModel,
        shown: ViewModel,
    ) -> bool {
        &&& after matches Some(node)
        &&& after->0.index == before.index
        &&& after->0.depth == before.depth
        &&& after->0.id == before.id
        &&& after->0.parent_context == before.parent_context
        &&& (after->0.kind is Component) == (before.kind is Component)
        &&& before.kind is Component ==> after->0.kind->next_state is None && after->0.kind->component
            == before.kind->component
        &&& after->0.view@ == (if before.kind is Component {
            next
        } else {
            shown
        })
    }

    /// Whether the bindings at `id` stand as the update of an element
    /// from `prev` to `next` leaves them: a binding of `next` under a name
    /// where `prev` held nothing is registered and noted, and a binding of
    /// `prev` under a name where `next` holds nothing is unregistered and
    /// noted.
    pub open spec fn rebound(
        events: EventManager,
        transaction: Transaction,
        id: Seq<char>,
        prev: Map<Seq<char>, PropView>,
        next: Map<Seq<char>, PropView>,
    ) -> bool {
        &&& forall|name: Seq<char>|
            #![trigger events.handler(name, id)]
            #![trigger transaction.event_flag(id, name)]
            selected(next, Some(prev), name) ==> events.handler(name, id) == Some(
                next[name]->Function_0,
            ) && transaction.event_flag(id, name) == Some(true)
        &&& forall|name: Seq<char>|
            #![trigger events.handler(name, id)]
            #![trigger transaction.event_flag(id, name)]
            selected(prev, Some(next), name) ==> events.handler(name, id) is None
                && transaction.event_flag(id, name) == Some(false)
    }

    /// Unmounts the node under `id` at `depth` and mounts one for
    /// `next_view` in its place, under the identifier that the key of
    /// `next_view` gives it. The patches at `id` gain one `Replace` patch,
    /// from what was rendered there to what is rendered now; nothing is
    /// recorded as removed. A view without components whose children
    /// stand apart then stands mounted with all that is below it. Returns
    /// what is rendered now.
    fn replace_node(
        &mut self,
        id: &str,
        depth: usize,
        next_view: &View,
        fuel: usize,
        transaction: &mut Transaction,
    ) -> (shown: View)
        requires
            old(self).nodes.node_at(id@, depth as int) is Some,
            depth < usize::MAX,
        ensures
            replaces(
                final(transaction).patches_at(id@),
                old(transaction).patches_at(id@),
                shown_from(old(self).nodes, id@, depth as int)->0@,
                shown@,
            ),
            forall|at: Seq<char>|
                at != id@ ==> #[trigger] final(transaction).patches_at(at) == old(
                    transaction,
                ).patches_at(at),
            final(transaction).removed() == old(transaction).removed(),
            component_free(next_view@) ==> shown@ == next_view@,
            present(
                final(self).nodes,
                Self::replaced_at(
                    id@,
                    next_view@,
                    old(self).nodes.node_at(id@, depth as int)->0.index,
                ),
                depth as int,
                next_view@,
                fuel as nat,
            ),
            component_free(next_view@) && apart_tree(
                Self::replaced_at(
                    id@,
                    next_view@,
                    old(self).nodes.node_at(id@, depth as int)->0.index,
                ),
                next_view@,
                fuel as nat,
            ) ==> mounted_tree(
                final(self).nodes,
                final(self).event_manager,
                *final(transaction),
                Self::replaced_at(
                    id@,
                    next_view@,
                    old(self).nodes.node_at(id@, depth as int)->0.index,
                ),
                depth as int,
                next_view@,
                fuel as nat,
            ),
            same_around(
                final(self).nodes,
                final(self).event_manager,
                old(self).nodes,
                old(self).event_manager,
                id@,
            ),
            final(self).root_id == old(self).root_id,
            final(self).queue == old(self).queue,
            final(self).limit == old(self).limit,
    {
        proof {
            lemma_ancestor_reflexive(id@);
            lemma_shown_where_mounted(self.nodes, id@, depth as int);
        }
        let index: usize = match self.nodes.get_at_depth(id, depth) {
            Some(node) => node.index,
            None => 0,
        };
        let parent_context: Props = match self.nodes.get_at_depth(id, depth) {
            Some(node) => node.parent_context.clone(),
            None => Props::new(),
        };
        let gone = self.unmount_node(id, depth, fuel, transaction);
        let parent = parent_id(id);
        let next_key = next_view.key();
        let new_id = view_id(parent.as_str(), next_key, index);
        proof {
            lemma_under_child(parent@, spec_child_view_id(opt_text(next_key), index as nat));
        }
        let shown = self.mount_node(
            index,
            depth,
            new_id.as_str(),
            next_view,
            &parent_context,
            fuel,
            transaction,
        );
        let ghost before = transaction.patches_at(id@);
        let ghost noted = *transaction;
        match gone {
            Some(old_view) => {
                transaction.replace(
                    id,
                    RawView::from_view(&old_view),
                    RawView::from_view(&shown),
                );
            },
            None => {},
        }
        proof {
            assert(transaction.patches_at(id@).take(before.len() as int) =~= before);
            if component_free(next_view@) && apart_tree(new_id@, next_view@, fuel as nat) {
                lemma_mounted_rests(
                    self.nodes,
                    self.event_manager,
                    noted,
                    self.nodes,
                    self.event_manager,
                    *transaction,
                    new_id@,
                    depth as int,
                    next_view@,
                    fuel as nat,
                );
            }
        }
        shown
    }

    /// What a component shows once it has rendered `rendered`: what the
    /// layer below it shows, or what it rendered where there is none.
    pub open spec fn shown_of(inner: Option<View>, rendered: View) -> View {
        match inner {
            Some(shown) => shown,
            None => rendered,
        }
    }

    /// Finishes the update of the component under `id` at `depth` once it
    /// is known whether it renders again, and returns what is rendered
    /// under it then, with the instance in its new state.
    ///
    /// A component that does not render again leaves the registries and
    /// the transaction as they are: what is rendered is what the layer
    /// below it showed before, or `next_view` where there is none. One
    /// that does is told so, rendered in its new state, and the layer
    /// below it brought in step with what it rendered, by a pass of depth
    /// `fuel`: whatever it rendered, the registries and the transaction
    /// stand as the update of that layer with it leaves them.
    fn settle_component(
        &mut self,
        id: &str,
        depth: usize,
        next_view: &View,
        component: &ComponentRef,
        instance: Instance,
        next_state: Props,
        render_again: bool,
        fuel: usize,
        transaction: &mut Transaction,
    ) -> (r: (View, Instance))
        requires
            depth < usize::MAX,
        ensures
            r.1.state == next_state,
            r.1.context == instance.context,
            r.1.updater == instance.updater,
            !render_again ==> {
                &&& *final(transaction) == *old(transaction)
                &&& final(self).nodes == old(self).nodes
                &&& final(self).event_manager == old(self).event_manager
                &&& r.0@ == (match shown_from(old(self).nodes, id@, depth + 1) {
                    Some(view) => view@,
                    None => next_view@,
                })
            },
            render_again ==> exists|rendered: View, inner: Option<View>|
                {
                    &&& Self::updated(
                        *old(self),
                        *final(self),
                        old(transaction).patches_at(id@),
                        old(transaction).removed(),
                        *final(transaction) == *old(transaction),
                        Self::clean_below(*old(transaction), id@),
                        *final(transaction),
                        id@,
                        (depth + 1) as usize,
                        rendered@,
                        fuel,
                        inner,
                    )
                    &&& inner is Some == old(self).nodes.node_at(id@, depth + 1) is Some
                    &&& r.0 == #[trigger] Self::shown_of(inner, rendered)
                },
            same_around(
                final(self).nodes,
                final(self).event_manager,
                old(self).nodes,
                old(self).event_manager,
                id@,
            ),
            patches_kept(*final(transaction), *old(transaction), id@),
            removals_kept(*final(transaction), *old(transaction), id@),
            final(self).root_id == old(self).root_id,
            final(self).queue == old(self).queue,
            final(self).limit == old(self).limit,
        decreases fuel, 1nat,
    {
        let empty_props = Props::new();
        let empty_children: Children = Vec::new();
        let next_props = match next_view.props() {
            Some(props) => props,
            None => &empty_props,
        };
        let next_children = match next_view.children() {
            Some(children) => children,
            None => &empty_children,
        };
        let mut instance = instance;
        if render_again {
            self.components.will_update(component, &instance);
        }
        instance.state = next_state;
        let shown = if render_again {
            let rendered = self.components.render(component, &instance, next_props, next_children);
            let ghost mid = *self;
            let ghost made = rendered;
            let inner = self.update_node(id, depth + 1, &rendered, fuel, transaction);
            proof {
                assert(mid.nodes == old(self).nodes);
                assert(mid.event_manager == old(self).event_manager);
                assert(Self::updated(
                    mid,
                    *self,
                    old(transaction).patches_at(id@),
                    old(transaction).removed(),
                    *transaction == *old(transaction),
                    Self::clean_below(*old(transaction), id@),
                    *transaction,
                    id@,
                    (depth + 1) as usize,
                    made@,
                    fuel,
                    inner,
                ));
                assert(Self::updated(
                    *old(self),
                    *self,
                    old(transaction).patches_at(id@),
                    old(transaction).removed(),
                    *transaction == *old(transaction),
                    Self::clean_below(*old(transaction), id@),
                    *transaction,
                    id@,
                    (depth + 1) as usize,
                    made@,
                    fuel,
                    inner,
                ));
            }
            let ghost below_it = inner;
            let shown = match inner {
                Some(shown) => shown,
                None => rendered,
            };
            proof {
                assert(shown == Self::shown_of(below_it, made));
            }
            shown
        } else {
            match self.rendered_view(id, depth + 1) {
                Some(shown) => shown,
                None => next_view.clone(),
            }
        };
        (shown, instance)
    }

    /// Brings one slot of the children of the element under `id` in step:
    /// `prev_child` is the child that stood there, `next_child` the one
    /// that stands there now. Returns what is rendered for the new child.
    ///
    /// A new child is mounted under its identifier and inserted by an
    /// `Insert` patch at `id`. A child that went is unmounted and, where a
    /// node was mounted for it, recorded as removed with what was rendered
    /// there. A child that stays has its node brought in step with the
    /// new view; where it has no node and the views differ, a `Replace`
    /// patch at its identifier says so.
    fn settle_slot(
        &mut self,
        id: &str,
        slot: usize,
        prev_child: Option<&View>,
        next_child: Option<&View>,
        parent_context: &Props,
        fuel: usize,
        transaction: &mut Transaction,
    ) -> (shown: Option<View>)
        ensures
            shown is Some == next_child is Some,
            next_child is Some && component_free(next_child->0@) && fits(
                next_child->0@,
                fuel as nat,
            ) ==> shown->0@ == next_child->0@,
            same_outside(
                final(self).nodes,
                final(self).event_manager,
                old(self).nodes,
                old(self).event_manager,
                id@,
            ),
            patches_kept(*final(transaction), *old(transaction), id@),
            removals_kept(*final(transaction), *old(transaction), id@),
            final(self).root_id == old(self).root_id,
            final(self).queue == old(self).queue,
            final(self).limit == old(self).limit,
            !(prev_child is None && next_child is Some) ==> final(transaction).patches_at(id@)
                == old(transaction).patches_at(id@),
            prev_child is None && next_child is None ==> final(self).unchanged(*old(self))
                && *final(transaction) == *old(transaction),
            prev_child is None && next_child is Some ==> Self::child_came(
                *old(self),
                *final(self),
                *old(transaction),
                *final(transaction),
                id@,
                slot,
                next_child->0@,
                shown->0@,
                fuel,
            ),
            prev_child is Some && next_child is None ==> Self::child_went(
                *old(self),
                *final(self),
                *old(transaction),
                *final(transaction),
                spec_view_id(id@, model_key(prev_child->0@), slot as nat),
                fuel,
            ),
            prev_child is Some && next_child is Some ==> Self::child_stayed(
                *old(self),
                *final(self),
                *old(transaction),
                *final(transaction),
                spec_view_id(id@, model_key(prev_child->0@), slot as nat),
                spec_view_id(id@, model_key(next_child->0@), slot as nat),
                prev_child->0@,
                next_child->0@,
                shown->0@,
                fuel,
            ),
        decreases fuel, 1nat,
    {
        match next_child {
            Some(next) => {
                let next_key = next.key();
                let next_id = view_id(id, next_key, slot);
                proof {
                    let segment = spec_child_view_id(opt_text(next_key), slot as nat);
                    lemma_appended_is_below(id@, segment);
                    lemma_child_not_above(id@, segment);
                    lemma_under_child(id@, segment);
                    lemma_outside(id@, next_id@);
                }
                match prev_child {
                    Some(prev) => {
                        let prev_key = prev.key();
                        let prev_id = view_id(id, prev_key, slot);
                        proof {
                            let segment = spec_child_view_id(opt_text(prev_key), slot as nat);
                            lemma_appended_is_below(id@, segment);
                            lemma_child_not_above(id@, segment);
                            lemma_under_child(id@, segment);
                            lemma_outside(id@, prev_id@);
                            lemma_outside(id@, spec_parent_id(prev_id@));
                            lemma_ancestor_reflexive(prev_id@);
                        }
                        match self.update_node(prev_id.as_str(), 0, next, fuel, transaction) {
                            Some(shown) => Some(shown),
                            None => {
                                let ghost before = transaction.patches_at(next_id@);
                                if !prev.same(next) {
                                    transaction.replace(
                                        next_id.as_str(),
                                        RawView::from_view(prev),
                                        RawView::from_view(next),
                                    );
                                }
                                proof {
                                    assert(transaction.patches_at(next_id@).take(
                                        before.len() as int,
                                    ) =~= before);
                                }
                                Some(next.clone())
                            },
                        }
                    },
                    None => {
                        let ghost before = transaction.patches_at(id@);
                        let shown = self.mount_node(
                            slot,
                            0,
                            next_id.as_str(),
                            next,
                            parent_context,
                            fuel,
                            transaction,
                        );
                        let ghost noted = *transaction;
                        transaction.insert(
                            id,
                            next_id.as_str(),
                            slot,
                            RawView::from_view(&shown),
                        );
                        proof {
                            assert(transaction.patches_at(id@).take(before.len() as int)
                                =~= before);
                            if component_free(next@) && apart_tree(next_id@, next@, fuel as nat) {
                                lemma_mounted_rests(
                                    self.nodes,
                                    self.event_manager,
                                    noted,
                                    self.nodes,
                                    self.event_manager,
                                    *transaction,
                                    next_id@,
                                    0,
                                    next@,
                                    fuel as nat,
                                );
                            }
                        }
                        Some(shown)
                    },
                }
            },
            None => {
                match prev_child {
                    Some(prev) => {
                        let prev_key = prev.key();
                        let prev_id = view_id(id, prev_key, slot);
                        proof {
                            let segment = spec_child_view_id(opt_text(prev_key), slot as nat);
                            lemma_appended_is_below(id@, segment);
                            lemma_child_not_above(id@, segment);
                            lemma_under_child(id@, segment);
                            lemma_outside(id@, prev_id@);
                            lemma_ancestor_reflexive(prev_id@);
                            lemma_shown_where_mounted(self.nodes, prev_id@, 0);
                        }
                        match self.unmount_node(prev_id.as_str(), 0, fuel, transaction) {
                            Some(gone) => {
                                transaction.remove(prev_id.as_str(), RawView::from_view(&gone));
                            },
                            None => {},
                        }
                    },
                    None => {},
                }
                None
            },
        }
    }

    /// Whether a new child came to slot `slot` of the element under `id`:
    /// the patches at `id` gained one `Insert` patch for it, with what is
    /// rendered for it in wire form; its nodes are mounted under its
    /// identifier, and it stands mounted with all that is below it where
    /// it holds no component and its children stand apart; no node went,
    /// nothing is recorded as removed, and nothing changed in the
    /// registries but under its identifier.
    pub open spec fn child_came(
        before: Self,
        after: Self,
        was: Transaction,
        now: Transaction,
        id: Seq<char>,
        slot: usize,
        next: ViewModel,
        shown: ViewModel,
        fuel: usize,
    ) -> bool {
        let had = was.patches_at(id);
        let has = now.patches_at(id);
        &&& has.len() == had.len() + 1
        &&& has.take(had.len() as int) == had
        &&& inserts_child(has.last(), id, next, slot as int)
        &&& has.last()->Insert_2@ == raw(shown)
        &&& present(
            after.spec_nodes(),
            spec_view_id(id, model_key(next), slot as nat),
            0,
            next,
            fuel as nat,
        )
        &&& keeps_nodes(after.spec_nodes(), before.spec_nodes())
        &&& now.removed() == was.removed()
        &&& forall|other: Seq<char>|
            other != id ==> #[trigger] now.patches_at(other) == was.patches_at(other)
        &&& same_outside(
            after.spec_nodes(),
            after.spec_events(),
            before.spec_nodes(),
            before.spec_events(),
            spec_view_id(id, model_key(next), slot as nat),
        )
        &&& same_events_outside(now, was, spec_view_id(id, model_key(next), slot as nat))
        &&& component_free(next) && apart_tree(
            spec_view_id(id, model_key(next), slot as nat),
            next,
            fuel as nat,
        ) ==> mounted_tree(
            after.spec_nodes(),
            after.spec_events(),
            now,
            spec_view_id(id, model_key(next), slot as nat),
            0,
            next,
            fuel as nat,
        )
    }

    /// Whether the child under `at` went: no node is left under `at`, and
    /// none was mounted; where a node was mounted there, what it rendered
    /// is recorded as removed under `at`, and else nothing is; the
    /// bindings of an element that stood there are unregistered; no
    /// patch was added; and nothing changed in the registries but under
    /// `at`.
    pub open spec fn child_went(
        before: Self,
        after: Self,
        was: Transaction,
        now: Transaction,
        at: Seq<char>,
        fuel: usize,
    ) -> bool {
        &&& after.spec_nodes().node_at(at, 0) is None
        &&& adds_no_node(after.spec_nodes(), before.spec_nodes())
        &&& forall|other: Seq<char>| #[trigger] now.patches_at(other) == was.patches_at(other)
        &&& match shown_from(before.spec_nodes(), at, 0) {
            Some(view) => now.removed().contains_key(at) && now.removed()[at]@ == raw(view@)
                && forall|other: Seq<char>|
                other != at ==> (#[trigger] now.removed().contains_key(other))
                    == was.removed().contains_key(other) && (was.removed().contains_key(other)
                    ==> now.removed()[other] == was.removed()[other]),
            None => now.removed() == was.removed(),
        }
        &&& same_outside(
            after.spec_nodes(),
            after.spec_events(),
            before.spec_nodes(),
            before.spec_events(),
            at,
        )
        &&& Self::taken_off(
            shown_node(before.spec_nodes(), at, 0),
            at,
            fuel,
            after.spec_nodes(),
            after.spec_events(),
            now,
        )
    }

    /// Whether the child under `at` stayed and took `next`. Where no node
    /// is mounted for it, the registries are as they were, and the
    /// patches under `to`, the identifier of the new child, gained a
    /// `Replace` patch from `prev` to `next` if and only if the two
    /// differ. Where a node is mounted that takes `next` in place, and
    /// the pass goes that deep, it is the same node afterwards, and
    /// nothing is recorded as removed at `at` or above it.
    pub open spec fn child_stayed(
        before: Self,
        after: Self,
        was: Transaction,
        now: Transaction,
        at: Seq<char>,
        to: Seq<char>,
        prev: ViewModel,
        next: ViewModel,
        shown: ViewModel,
        fuel: usize,
    ) -> bool {
        let node = before.spec_nodes().node_at(at, 0);
        &&& node is None ==> {
            &&& after.unchanged(before)
            &&& now.removed() == was.removed()
            &&& shown == next
            &&& forall|other: Seq<char>|
                other != to ==> #[trigger] now.patches_at(other) == was.patches_at(other)
            &&& if same_view(prev, next) {
                now.patches_at(to) == was.patches_at(to)
            } else {
                replaces(now.patches_at(to), was.patches_at(to), prev, next)
            }
        }
        &&& node is Some ==> removals_kept(now, was, at) && patches_kept(now, was, at)
        &&& node is Some && fuel == 0 ==> after.unchanged(before) && now.removed() == was.removed()
        &&& node is Some && fuel > 0 && takes_in_place(node->0, next) ==> {
            &&& Self::kept_in_place(after.spec_nodes().node_at(at, 0), node->0, next, shown)
            &&& node->0.kind is View ==> same_outside(
                after.spec_nodes(),
                after.spec_events(),
                before.spec_nodes(),
                before.spec_events(),
                at,
            )
        }
    }

    /// Whether a node, where there is one, takes `next` in place and is
    /// no component.
    pub open spec fn calm(node: Option<Node>, next: ViewModel) -> bool {
        node is Some ==> node->0.kind is View && takes_in_place(node->0, next)
    }

    /// The identifier of the new child that slot `t` holds.
    pub open spec fn new_at(
        id: Seq<char>,
        next: Seq<ViewModel>,
        slots: Seq<Option<int>>,
        t: int,
    ) -> Seq<char> {
        spec_view_id(id, model_key(next[slots[t]->0]), t as nat)
    }

    /// Whether the children of the element under `id` stand apart, so
    /// that what is done for one does not reach another: no old child
    /// stands under the identifier of another old child or of a new one;
    /// every old child that stays and has a node takes its new view in
    /// place and is no component; and of the children that stay, no two
    /// come to stand under one identifier, and none comes to stand under
    /// the old identifier of another.
    pub open spec fn apart(
        nodes: Nodes,
        id: Seq<char>,
        prev: Seq<ViewModel>,
        next: Seq<ViewModel>,
        slots: Seq<Option<int>>,
    ) -> bool {
        &&& forall|u: int, t: int|
            0 <= u < prev.len() && 0 <= t < prev.len() && u != t ==> !spec_is_ancestor(
                #[trigger] child_at(id, prev, u),
                #[trigger] child_at(id, prev, t),
            )
        &&& forall|u: int, t: int|
            prev.len() <= u < slots.len() && slots[u] is Some && 0 <= t < prev.len()
                ==> !spec_is_ancestor(
                #[trigger] Self::new_at(id, next, slots, u),
                #[trigger] child_at(id, prev, t),
            )
        &&& forall|u: int|
            0 <= u < prev.len() && u < slots.len() && slots[u] is Some ==> Self::calm(
                #[trigger] nodes.node_at(child_at(id, prev, u), 0),
                next[slots[u]->0],
            )
        &&& forall|u: int, t: int|
            0 <= u < prev.len() && 0 <= t < prev.len() && u != t && u < slots.len() && t
                < slots.len() && slots[u] is Some && slots[t] is Some ==> #[trigger] Self::new_at(
                id,
                next,
                slots,
                u,
            ) != #[trigger] Self::new_at(id, next, slots, t) && !spec_is_ancestor(
                child_at(id, prev, u),
                Self::new_at(id, next, slots, t),
            )
    }

    /// Whether the old child in slot `t` of the element under `id` is
    /// settled by a pass that goes `fuel` levels down from the children.
    ///
    /// A child that went has no node left; where it had one, what it
    /// rendered is recorded as removed under its identifier, and else
    /// nothing is recorded there. A child that stays has nothing recorded
    /// as removed under its identifier; where it had a node, it is the
    /// same node afterwards, and it holds the new view where that holds
    /// no component and the pass reaches all its levels. Where it had
    /// none, as a text has none, and the transaction was `clean`, that is
    /// held no patch below `id` before the pass, the patches under the
    /// identifier of the new child are one `Replace` patch from the old
    /// child to the new one if the two differ, and none if they do not.
    pub open spec fn child_settled(
        nodes_before: Nodes,
        nodes_after: Nodes,
        lost: Map<Seq<char>, RawView>,
        now: Transaction,
        id: Seq<char>,
        prev: Seq<ViewModel>,
        next: Seq<ViewModel>,
        slots: Seq<Option<int>>,
        t: int,
        fuel: nat,
        clean: bool,
    ) -> bool {
        let at = child_at(id, prev, t);
        let node = nodes_before.node_at(at, 0);
        let after = nodes_after.node_at(at, 0);
        match slots[t] {
            None => {
                &&& after is None
                &&& node is Some ==> now.removed().contains_key(at) && now.removed()[at]@ == raw(
                    shown_from(nodes_before, at, 0)->0@,
                )
                &&& node is None ==> now.removed().contains_key(at) == lost.contains_key(at)
            },
            Some(j) => {
                &&& now.removed().contains_key(at) == lost.contains_key(at)
                &&& node is None ==> after is None
                &&& node is None && clean ==> (if same_view(prev[t], next[j]) {
                    now.patches_at(Self::new_at(id, next, slots, t)).len() == 0
                } else {
                    replaces(
                        now.patches_at(Self::new_at(id, next, slots, t)),
                        Seq::empty(),
                        prev[t],
                        next[j],
                    )
                })
                &&& node is Some && fuel > 0 ==> {
                    &&& after is Some
                    &&& after->0.kind is View
                    &&& after->0.index == node->0.index
                    &&& after->0.id == node->0.id
                    &&& after->0.parent_context == node->0.parent_context
                    &&& component_free(next[j]) && fits(next[j], fuel) ==> after->0.view@ == next[j]
                }
            },
        }
    }

    /// Whether the slots before `upto` are settled, and nothing has
    /// touched the old children of the slots from `upto` on.
    pub open spec fn settled_upto(
        nodes_before: Nodes,
        nodes: Nodes,
        lost: Map<Seq<char>, RawView>,
        now: Transaction,
        id: Seq<char>,
        prev: Seq<ViewModel>,
        next: Seq<ViewModel>,
        slots: Seq<Option<int>>,
        upto: int,
        fuel: nat,
        first: Transaction,
    ) -> bool {
        &&& forall|t: int|
            upto <= t < prev.len() && t < slots.len() && slots[t] is Some ==> now.patches_at(
                #[trigger] Self::new_at(id, next, slots, t),
            ) == first.patches_at(Self::new_at(id, next, slots, t))
        &&& forall|t: int, d: int|
            upto <= t < prev.len() ==> #[trigger] nodes.node_at(child_at(id, prev, t), d)
                == nodes_before.node_at(child_at(id, prev, t), d)
        &&& forall|t: int|
            upto <= t < prev.len() ==> now.removed().contains_key(#[trigger] child_at(id, prev, t))
                == lost.contains_key(child_at(id, prev, t))
        &&& forall|t: int|
            0 <= t < upto && t < prev.len() && t < slots.len() ==> #[trigger] Self::child_settled(
                nodes_before,
                nodes,
                lost,
                now,
                id,
                prev,
                next,
                slots,
                t,
                fuel,
                Self::clean_below(first, id),
            )
    }

    /// Whether the new children of the element under `id` stand apart:
    /// none comes to stand under the identifier of another.
    pub open spec fn new_apart(
        id: Seq<char>,
        next: Seq<ViewModel>,
        slots: Seq<Option<int>>,
        from: int,
    ) -> bool {
        forall|u: int, t: int|
            from <= u < slots.len() && from <= t < slots.len() && u != t && slots[u] is Some
                && slots[t] is Some ==> !spec_is_ancestor(
                #[trigger] Self::new_at(id, next, slots, u),
                #[trigger] Self::new_at(id, next, slots, t),
            )
    }

    /// Whether the new child in slot `t` of the element under `id`, where
    /// it holds no component and its children stand apart, stands mounted
    /// under its identifier with all that is below it.
    pub open spec fn new_mounted(
        nodes: Nodes,
        events: EventManager,
        transaction: Transaction,
        id: Seq<char>,
        next: Seq<ViewModel>,
        slots: Seq<Option<int>>,
        t: int,
        fuel: nat,
    ) -> bool {
        component_free(next[slots[t]->0]) && apart_tree(
            Self::new_at(id, next, slots, t),
            next[slots[t]->0],
            fuel,
        ) ==> mounted_tree(
            nodes,
            events,
            transaction,
            Self::new_at(id, next, slots, t),
            0,
            next[slots[t]->0],
            fuel,
        )
    }

    /// Whether the new children in the slots from `from` up to `upto`
    /// stand mounted.
    pub open spec fn new_mounted_upto(
        nodes: Nodes,
        events: EventManager,
        transaction: Transaction,
        id: Seq<char>,
        next: Seq<ViewModel>,
        slots: Seq<Option<int>>,
        from: int,
        upto: int,
        fuel: nat,
    ) -> bool {
        forall|t: int|
            from <= t < upto && t < slots.len() && slots[t] is Some ==> #[trigger] Self::new_mounted(
                nodes,
                events,
                transaction,
                id,
                next,
                slots,
                t,
                fuel,
            )
    }

    /// New children that stand mounted stay so where the registries and
    /// the notes of events change under `id` itself alone, or under
    /// another new child that stands apart from them.
    proof fn lemma_new_mounted_rests(
        nodes: Nodes,
        events: EventManager,
        was: Transaction,
        after_nodes: Nodes,
        after_events: EventManager,
        now: Transaction,
        id: Seq<char>,
        next: Seq<ViewModel>,
        slots: Seq<Option<int>>,
        from: int,
        upto: int,
        fuel: nat,
        but: Option<Seq<char>>,
    )
        requires
            Self::new_mounted_upto(nodes, events, was, id, next, slots, from, upto, fuel),
            forall|t: int|
                from <= t < upto && t < slots.len() && slots[t] is Some && but is Some
                    ==> !spec_is_ancestor(#[trigger] Self::new_at(id, next, slots, t), but->0)
                    && !spec_is_ancestor(but->0, Self::new_at(id, next, slots, t)),
            forall|at: Seq<char>, d: int|
                (but is Some ==> !spec_is_ancestor(but->0, at)) && at != id
                    ==> #[trigger] after_nodes.node_at(at, d) == nodes.node_at(at, d),
            forall|name: Seq<char>, at: Seq<char>|
                (but is Some ==> !spec_is_ancestor(but->0, at)) && at != id
                    ==> #[trigger] after_events.handler(name, at) == events.handler(name, at),
            forall|at: Seq<char>, name: Seq<char>|
                (but is Some ==> !spec_is_ancestor(but->0, at)) && at != id
                    ==> #[trigger] now.event_flag(at, name) == was.event_flag(at, name),
        ensures
            Self::new_mounted_upto(
                after_nodes,
                after_events,
                now,
                id,
                next,
                slots,
                from,
                upto,
                fuel,
            ),
    {
        assert forall|t: int|
            from <= t < upto && t < slots.len() && slots[t] is Some implies #[trigger] Self::new_mounted(
            after_nodes,
            after_events,
            now,
            id,
            next,
            slots,
            t,
            fuel,
        ) by {
            let to = Self::new_at(id, next, slots, t);
            assert(Self::new_mounted(nodes, events, was, id, next, slots, t, fuel));
            if component_free(next[slots[t]->0]) && apart_tree(to, next[slots[t]->0], fuel) {
                lemma_child_not_above(
                    id,
                    spec_child_view_id(model_key(next[slots[t]->0]), t as nat),
                );
                assert forall|at: Seq<char>| #[trigger] spec_is_ancestor(to, at) implies at != id
                    && (but is Some ==> !spec_is_ancestor(but->0, at)) by {
                    if but is Some {
                        lemma_apart_below(to, but->0, at);
                    }
                }
                lemma_mounted_rests(
                    nodes,
                    events,
                    was,
                    after_nodes,
                    after_events,
                    now,
                    to,
                    0,
                    next[slots[t]->0],
                    fuel,
                );
            }
        }
    }

    /// Whether a transaction holds no patch below `id`.
    pub open spec fn clean_below(transaction: Transaction, id: Seq<char>) -> bool {
        forall|at: Seq<char>| below(id, at) ==> (#[trigger] transaction.patches_at(at)).len() == 0
    }

    /// One more slot is settled once `settle_slot` has served it, where
    /// the children stand apart.
    proof fn lemma_slot_settles(
        before: Self,
        after: Self,
        was: Transaction,
        now: Transaction,
        nodes_before: Nodes,
        lost: Map<Seq<char>, RawView>,
        id: Seq<char>,
        prev: Seq<ViewModel>,
        next: Seq<ViewModel>,
        slots: Seq<Option<int>>,
        u: int,
        fuel: usize,
        shown: Option<ViewModel>,
        first: Transaction,
    )
        requires
            Self::apart(nodes_before, id, prev, next, slots),
            0 <= u < slots.len(),
            Self::settled_upto(
                nodes_before,
                before.nodes,
                lost,
                was,
                id,
                prev,
                next,
                slots,
                u,
                fuel as nat,
                first,
            ),
            slots[u] is Some ==> 0 <= slots[u]->0 < next.len(),
            slots[u] is Some && component_free(next[slots[u]->0]) && fits(
                next[slots[u]->0],
                fuel as nat,
            ) ==> shown->0 == next[slots[u]->0],
            u >= prev.len() && slots[u] is Some ==> Self::child_came(
                before,
                after,
                was,
                now,
                id,
                u as usize,
                next[slots[u]->0],
                shown->0,
                fuel,
            ),
            u >= prev.len() && slots[u] is None ==> after.unchanged(before) && now == was,
            u < prev.len() && slots[u] is None ==> Self::child_went(
                before,
                after,
                was,
                now,
                child_at(id, prev, u),
                fuel,
            ),
            u < prev.len() && slots[u] is Some ==> Self::child_stayed(
                before,
                after,
                was,
                now,
                child_at(id, prev, u),
                Self::new_at(id, next, slots, u),
                prev[u],
                next[slots[u]->0],
                shown->0,
                fuel,
            ),
            0 <= u <= usize::MAX,
        ensures
            Self::settled_upto(
                nodes_before,
                after.nodes,
                lost,
                now,
                id,
                prev,
                next,
                slots,
                u + 1,
                fuel as nat,
                first,
            ),
    {
        let own = child_at(id, prev, u);
        let clean = Self::clean_below(first, id);
        lemma_ancestor_reflexive(own);
        // The patches under the new identifiers of the other children
        // that stay are left alone.
        assert forall|t: int|
            0 <= t < prev.len() && t < slots.len() && slots[t] is Some && t != u implies now.patches_at(
            #[trigger] Self::new_at(id, next, slots, t),
        ) == was.patches_at(Self::new_at(id, next, slots, t)) by {
            let to = Self::new_at(id, next, slots, t);
            lemma_child_not_above(
                id,
                spec_child_view_id(model_key(next[slots[t]->0]), t as nat),
            );
            lemma_ancestor_reflexive(id);
            assert(to != id);
            if u < prev.len() && slots[u] is Some {
                assert(Self::new_at(id, next, slots, u) != Self::new_at(id, next, slots, t));
                assert(!spec_is_ancestor(child_at(id, prev, u), Self::new_at(id, next, slots, t)));
            }
        }
        assert forall|t: int|
            u + 1 <= t < prev.len() && t < slots.len() && slots[t] is Some implies now.patches_at(
            #[trigger] Self::new_at(id, next, slots, t),
        ) == first.patches_at(Self::new_at(id, next, slots, t)) by {
            assert(was.patches_at(Self::new_at(id, next, slots, t)) == first.patches_at(
                Self::new_at(id, next, slots, t),
            ));
        }
        // What the pass of this slot reaches: the old child of the slot, or
        // the new one where there was none.
        assert forall|t: int| 0 <= t < prev.len() && t != u implies {
            &&& forall|d: int| #[trigger]
                after.nodes.node_at(child_at(id, prev, t), d) == before.nodes.node_at(
                    child_at(id, prev, t),
                    d,
                )
            &&& now.removed().contains_key(child_at(id, prev, t)) == was.removed().contains_key(
                child_at(id, prev, t),
            )
            &&& was.removed().contains_key(child_at(id, prev, t)) ==> now.removed()[child_at(
                id,
                prev,
                t,
            )] == was.removed()[child_at(id, prev, t)]
        } by {
            let other = child_at(id, prev, t);
            lemma_ancestor_reflexive(other);
            if u < prev.len() {
                assert(!spec_is_ancestor(child_at(id, prev, u), child_at(id, prev, t)));
                assert(other != own);
                assert(!below(own, other));
                if slots[u] is Some {
                    let node = before.nodes.node_at(own, 0);
                    assert(node == nodes_before.node_at(own, 0));
                    if node is Some {
                        assert(Self::calm(nodes_before.node_at(child_at(id, prev, u), 0), next[slots[u]->0]));
                    }
                }
            } else if slots[u] is Some {
                assert(!spec_is_ancestor(Self::new_at(id, next, slots, u), child_at(id, prev, t)));
            }
        }
        assert forall|t: int, d: int| u + 1 <= t < prev.len() implies #[trigger] after.nodes.node_at(
            child_at(id, prev, t),
            d,
        ) == nodes_before.node_at(child_at(id, prev, t), d) by {
            assert(before.nodes.node_at(child_at(id, prev, t), d) == nodes_before.node_at(
                child_at(id, prev, t),
                d,
            ));
        }
        assert forall|t: int| 0 <= t < u + 1 && t < prev.len() && t < slots.len()
            implies #[trigger] Self::child_settled(
            nodes_before,
            after.nodes,
            lost,
            now,
            id,
            prev,
            next,
            slots,
            t,
            fuel as nat,
            clean,
        ) by {
            if t < u {
                assert(Self::child_settled(
                    nodes_before,
                    before.nodes,
                    lost,
                    was,
                    id,
                    prev,
                    next,
                    slots,
                    t,
                    fuel as nat,
                    clean,
                ));
                if slots[t] is Some {
                    assert(now.patches_at(Self::new_at(id, next, slots, t)) == was.patches_at(
                        Self::new_at(id, next, slots, t),
                    ));
                }
                assert(after.nodes.node_at(child_at(id, prev, t), 0) == before.nodes.node_at(
                    child_at(id, prev, t),
                    0,
                ));
            } else {
                assert(forall|d: int| #[trigger]
                    before.nodes.node_at(own, d) == nodes_before.node_at(own, d));
                lemma_shown_agrees(before.nodes, nodes_before, own, 0);
                lemma_shown_where_mounted(before.nodes, own, 0);
                assert(was.removed().contains_key(own) == lost.contains_key(own));
                assert(!below(own, own));
                let node = nodes_before.node_at(own, 0);
                if slots[u] is Some && node is Some {
                    assert(Self::calm(nodes_before.node_at(child_at(id, prev, u), 0), next[slots[u]->0]));
                }
                if slots[u] is Some && node is None && clean {
                    let to = Self::new_at(id, next, slots, u);
                    lemma_under_child(
                        id,
                        spec_child_view_id(model_key(next[slots[u]->0]), u as nat),
                    );
                    lemma_ancestor_reflexive(to);
                    assert(below(id, to));
                    assert(was.patches_at(to) == first.patches_at(to));
                    assert(first.patches_at(to) =~= Seq::<Patch>::empty());
                }
            }
        }
    }

    /// Brings the node under `id` at `depth` in step with `next_view` and
    /// returns what is rendered there then; does nothing where no node is
    /// mounted there, and nothing with a pass of no depth.
    ///
    /// A node of another kind or key is unmounted and a new one mounted in
    /// its place, with a `Replace` patch. A component merges its pending
    /// state, asks whether to render again, and updates what it renders
    /// one layer deeper. An element diffs its children and its
    /// properties: a child in both lists is updated, a new one mounted
    /// with an `Insert` patch, one that went unmounted and recorded as
    /// removed; then follow the `Props` patch and the `Order` patch where
    /// there is something to say. The children are kept in the order of
    /// the new list.
    #[verifier::rlimit(100)]
    fn update_node(
        &mut self,
        id: &str,
        depth: usize,
        next_view: &View,
        fuel: usize,
        transaction: &mut Transaction,
    ) -> (r: Option<View>)
        ensures
            r is Some == old(self).nodes.node_at(id@, depth as int) is Some,
            component_free(next_view@) && fits(next_view@, fuel as nat) && r is Some ==> r->0@
                == next_view@,
            Self::updated(
                *old(self),
                *final(self),
                old(transaction).patches_at(id@),
                old(transaction).removed(),
                *final(transaction) == *old(transaction),
                Self::clean_below(*old(transaction), id@),
                *final(transaction),
                id@,
                depth,
                next_view@,
                fuel,
                r,
            ),
            same_around(
                final(self).nodes,
                final(self).event_manager,
                old(self).nodes,
                old(self).event_manager,
                id@,
            ),
            patches_kept(*final(transaction), *old(transaction), id@),
            removals_kept(*final(transaction), *old(transaction), id@),
            final(self).root_id == old(self).root_id,
            final(self).queue == old(self).queue,
            final(self).limit == old(self).limit,
            old(self).nodes.node_at(id@, depth as int) is None ==> {
                &&& forall|at: Seq<char>, d: int| #[trigger]
                    final(self).nodes.node_at(at, d) == old(self).nodes.node_at(at, d)
                &&& final(self).event_manager == old(self).event_manager
                &&& *final(transaction) == *old(transaction)
            },
        decreases fuel, 0nat,
    {
        proof {
            lemma_ancestor_reflexive(id@);
        }
        let node = match self.nodes.take_at_depth(id, depth) {
            Some(node) => node,
            None => {
                return None;
            },
        };
        let ghost found = node;
        if fuel == 0 {
            let shown = node.view.clone();
            self.nodes.insert_at_depth(String::from_str(id), depth, node);
            return Some(shown);
        }
        if !node.takes(next_view) {
            self.nodes.insert_at_depth(String::from_str(id), depth, node);
            proof {
                lemma_shown_agrees(old(self).nodes, self.nodes, id@, depth as int);
            }
            let shown = self.replace_node(id, depth, next_view, fuel - 1, transaction);
            return Some(shown);
        }
        let empty_props = Props::new();
        let empty_children: Children = Vec::new();
        let ghost exact = component_free(next_view@) && fits(next_view@, fuel as nat);
        let Node { index, depth: at_depth, id: own_id, view: prev_view, kind, parent_context } =
            node;
        match kind {
            NodeKind::Component { instance, next_state, component } => {
                let next_state = pending_state(&instance.state, next_state);
                let next_props = match next_view.props() {
                    Some(props) => props,
                    None => &empty_props,
                };
                let next_children = match next_view.children() {
                    Some(children) => children,
                    None => &empty_children,
                };
                let prev_props = match prev_view.props() {
                    Some(props) => props,
                    None => &empty_props,
                };
                let prev_children = match prev_view.children() {
                    Some(children) => children,
                    None => &empty_children,
                };
                if !prev_view.same(next_view) {
                    self.components.receive_props(
                        &component,
                        &instance,
                        &next_state,
                        next_props,
                        next_children,
                    );
                }
                let render_again = self.components.should_update(
                    &component,
                    &instance.state,
                    prev_props,
                    prev_children,
                    &next_state,
                    next_props,
                    next_children,
                );
                let (shown, instance) = self.settle_component(
                    id,
                    depth,
                    next_view,
                    &component,
                    instance,
                    next_state,
                    render_again,
                    fuel - 1,
                    transaction,
                );
                let node = Node::new(
                    index,
                    at_depth,
                    own_id,
                    next_view.clone(),
                    NodeKind::Component { instance, next_state: None, component },
                    parent_context,
                );
                self.nodes.insert_at_depth(String::from_str(id), depth, node);
                Some(shown)
            },
            NodeKind::View => {
                let shown = match next_view {
                    View::Text(_) => next_view.clone(),
                    View::Data {
                        kind: next_kind,
                        key: next_key,
                        props: next_props,
                        children: next_children,
                    } => {
                        let prev_props = match prev_view.props() {
                            Some(props) => props,
                            None => &empty_props,
                        };
                        let prev_children = match prev_view.children() {
                            Some(children) => children,
                            None => &empty_children,
                        };
                        let children_diff = diff_children(
                            prev_children.as_slice(),
                            next_children.as_slice(),
                        );
                        let ghost slots = spec_diff_children(
                            view_keys(prev_children@),
                            view_keys(next_children@),
                        ).slots;
                        let ghost before = transaction.patches_at(id@);
                        let ghost models = view_models(next_children@);
                        let ghost olds = view_models(prev_children@);
                        let ghost lost = transaction.removed();
                        let ghost from = prev_children@.len() as int;
                        let ghost steady = Self::apart(old(self).nodes, id@, olds, models, slots);
                        let ghost roomy = Self::new_apart(id@, models, slots, from);
                        proof {
                            lemma_model_keys(prev_children@);
                            lemma_model_keys(next_children@);
                            assert forall|t: int, d: int|
                                0 <= t < olds.len() implies #[trigger] self.nodes.node_at(
                                child_at(id@, olds, t),
                                d,
                            ) == old(self).nodes.node_at(child_at(id@, olds, t), d) by {
                                lemma_child_not_above(
                                    id@,
                                    spec_child_view_id(model_key(olds[t]), t as nat),
                                );
                            }
                        }
                        let mut shown_at: Vec<Option<View>> = Vec::new();
                        while shown_at.len() < next_children.len()
                            invariant
                                shown_at@.len() <= next_children@.len(),
                                forall|j: int| 0 <= j < shown_at@.len() ==> shown_at@[j] is None,
                            decreases next_children@.len() - shown_at@.len(),
                        {
                            shown_at.push(None);
                        }
                        let mut cursor: usize = 0;
                        let mut slot: usize = 0;
                        proof {
                            assert(slots.take(0) =~= Seq::<Option<int>>::empty());
                            assert(transaction.patches_at(id@).take(before.len() as int)
                                =~= before);
                        }
                        while slot < children_diff.children.len()
                            invariant
                                slot <= children_diff.children@.len(),
                                shown_at@.len() == next_children@.len(),
                                fuel > 0,
                                exact == (component_free(next_view@) && fits(
                                    next_view@,
                                    fuel as nat,
                                )),
                                next_view@ matches ViewModel::Data { children: c, .. } && c
                                    == view_models(next_children@),
                                models == view_models(next_children@),
                                from == prev_children@.len(),
                                before == old(transaction).patches_at(id@),
                                places(children_diff.children@, next_children@, slots),
                                position_models(children_diff.indices@) == filled(slots),
                                cursor as int == filled(slots.take(slot as int)).len(),
                                exact ==> forall|j: int|
                                    0 <= j < shown_at@.len() && (#[trigger] shown_at@[j]) is Some
                                        ==> shown_at@[j]->0@ == next_children@[j]@,
                                transaction.patches_at(id@).len() == before.len() + new_slots(
                                    slots.take(slot as int),
                                    from,
                                ).len(),
                                transaction.patches_at(id@).take(before.len() as int) == before,
                                inserts_listed(
                                    transaction.patches_at(id@).skip(before.len() as int),
                                    id@,
                                    models,
                                    slots,
                                    new_slots(slots.take(slot as int), from),
                                ),
                                patches_kept(*transaction, *old(transaction), id@),
                                removals_kept(*transaction, *old(transaction), id@),
                                children_present(
                                    self.nodes,
                                    id@,
                                    models,
                                    slots,
                                    new_slots(slots.take(slot as int), from),
                                    (fuel - 1) as nat,
                                ),
                                olds == view_models(prev_children@),
                                lost == old(transaction).removed(),
                                roomy == Self::new_apart(id@, models, slots, from),
                                roomy ==> Self::new_mounted_upto(
                                    self.nodes,
                                    self.event_manager,
                                    *transaction,
                                    id@,
                                    models,
                                    slots,
                                    from,
                                    slot as int,
                                    (fuel - 1) as nat,
                                ),
                                steady == Self::apart(old(self).nodes, id@, olds, models, slots),
                                steady ==> Self::settled_upto(
                                    old(self).nodes,
                                    self.nodes,
                                    lost,
                                    *transaction,
                                    id@,
                                    olds,
                                    models,
                                    slots,
                                    slot as int,
                                    (fuel - 1) as nat,
                                    *old(transaction),
                                ),
                                same_outside(
                                    self.nodes,
                                    self.event_manager,
                                    old(self).nodes,
                                    old(self).event_manager,
                                    id@,
                                ),
                                self.root_id == old(self).root_id,
                                self.queue == old(self).queue,
                                self.limit == old(self).limit,
                            decreases children_diff.children@.len() - slot,
                        {
                            let next_child = children_diff.children[slot];
                            let prev_child = if slot < prev_children.len() {
                                Some(&prev_children[slot])
                            } else {
                                None
                            };
                            let ghost item = slots[slot as int];
                            let ghost had = transaction.patches_at(id@);
                            let ghost fresh = new_slots(slots.take(slot as int), from);
                            proof {
                                lemma_filled_step(slots, slot as int);
                                lemma_filled_prefix(slots, slot + 1);
                                assert(position_models(children_diff.indices@).len()
                                    == children_diff.indices@.len());
                                assert(slots.take(slot + 1).drop_last() =~= slots.take(
                                    slot as int,
                                ));
                                assert(slots.take(slot + 1).last() == item);
                                if item is Some {
                                    let j = item->0;
                                    let short = filled(slots.take(slot + 1));
                                    assert(short == filled(slots.take(slot as int)).push(j));
                                    assert(short[cursor as int] == j);
                                    assert(short[cursor as int] == filled(slots)[cursor as int]);
                                    assert(position_models(children_diff.indices@)[cursor as int]
                                        == j);
                                    assert(*next_child->0 == next_children@[j]);
                                    assert(next_child->0@ == models[j]);
                                    if exact {
                                        assert(component_free(view_models(next_children@)[j]));
                                        assert(fits(
                                            view_models(next_children@)[j],
                                            (fuel - 1) as nat,
                                        ));
                                    }
                                }
                            }
                            let ghost held = self.nodes;
                            let ghost stood = *self;
                            let ghost was = *transaction;
                            let settled = self.settle_slot(
                                id,
                                slot,
                                prev_child,
                                next_child,
                                &parent_context,
                                fuel - 1,
                                transaction,
                            );
                            proof {
                                assert forall|at: Seq<char>|
                                    #![trigger transaction.removed().contains_key(at)]
                                    !below(id@, at) implies transaction.removed().contains_key(at)
                                    == old(transaction).removed().contains_key(at) && (old(
                                    transaction,
                                ).removed().contains_key(at) ==> transaction.removed()[at] == old(
                                    transaction,
                                ).removed()[at]) by {
                                    assert(was.removed().contains_key(at) == old(
                                        transaction,
                                    ).removed().contains_key(at));
                                }
                                if roomy && slot >= from {
                                    if next_child is Some {
                                        let own = Self::new_at(id@, models, slots, slot as int);
                                        assert forall|t: int|
                                            from <= t < slot && t < slots.len() && slots[t]
                                                is Some implies !spec_is_ancestor(
                                            #[trigger] Self::new_at(id@, models, slots, t),
                                            own,
                                        ) && !spec_is_ancestor(
                                            own,
                                            Self::new_at(id@, models, slots, t),
                                        ) by {
                                            assert(!spec_is_ancestor(
                                                Self::new_at(id@, models, slots, t),
                                                Self::new_at(id@, models, slots, slot as int),
                                            ));
                                            assert(!spec_is_ancestor(
                                                Self::new_at(id@, models, slots, slot as int),
                                                Self::new_at(id@, models, slots, t),
                                            ));
                                        }
                                        Self::lemma_new_mounted_rests(
                                            stood.nodes,
                                            stood.event_manager,
                                            was,
                                            self.nodes,
                                            self.event_manager,
                                            *transaction,
                                            id@,
                                            models,
                                            slots,
                                            from,
                                            slot as int,
                                            (fuel - 1) as nat,
                                            Some(own),
                                        );
                                        assert(Self::new_mounted(
                                            self.nodes,
                                            self.event_manager,
                                            *transaction,
                                            id@,
                                            models,
                                            slots,
                                            slot as int,
                                            (fuel - 1) as nat,
                                        ));
                                    } else {
                                        Self::lemma_new_mounted_rests(
                                            stood.nodes,
                                            stood.event_manager,
                                            was,
                                            self.nodes,
                                            self.event_manager,
                                            *transaction,
                                            id@,
                                            models,
                                            slots,
                                            from,
                                            slot as int,
                                            (fuel - 1) as nat,
                                            None,
                                        );
                                    }
                                }
                                if steady {
                                    if slot < from {
                                        assert(prev_child->0@ == olds[slot as int]);
                                    }
                                    Self::lemma_slot_settles(
                                        stood,
                                        *self,
                                        was,
                                        *transaction,
                                        old(self).nodes,
                                        lost,
                                        id@,
                                        olds,
                                        models,
                                        slots,
                                        slot as int,
                                        (fuel - 1) as usize,
                                        if settled is Some {
                                            Some(settled->0@)
                                        } else {
                                            None
                                        },
                                        *old(transaction),
                                    );
                                }
                                let has = transaction.patches_at(id@);
                                let grown = new_slots(slots.take(slot + 1), from);
                                if prev_child is None && next_child is Some {
                                    assert(grown == fresh.push(slot as int));
                                    assert(has.take(before.len() as int) =~= had.take(
                                        before.len() as int,
                                    )) by {
                                        assert(has.take(had.len() as int) == had);
                                        assert forall|k: int| 0 <= k < before.len() implies has[k]
                                            == had[k] by {
                                            assert(has.take(had.len() as int)[k] == had[k]);
                                        }
                                    }
                                    assert forall|k: int| 0 <= k < grown.len() implies inserts_child(
                                        #[trigger] has.skip(before.len() as int)[k],
                                        id@,
                                        models[slots[grown[k]]->0],
                                        grown[k],
                                    ) by {
                                        if k < fresh.len() {
                                            assert(has.take(had.len() as int)[before.len() + k]
                                                == had[before.len() + k]);
                                            assert(has.skip(before.len() as int)[k] == had.skip(
                                                before.len() as int,
                                            )[k]);
                                        } else {
                                            assert(has.skip(before.len() as int)[k] == has.last());
                                        }
                                    }
                                    assert forall|k: int| 0 <= k < grown.len() implies present(
                                        self.nodes,
                                        spec_view_id(
                                            id@,
                                            model_key(models[slots[#[trigger] grown[k]]->0]),
                                            grown[k] as nat,
                                        ),
                                        0,
                                        models[slots[grown[k]]->0],
                                        (fuel - 1) as nat,
                                    ) by {
                                        if k < fresh.len() {
                                            assert(grown[k] == fresh[k]);
                                            lemma_present_stays(
                                                held,
                                                self.nodes,
                                                spec_view_id(
                                                    id@,
                                                    model_key(models[slots[fresh[k]]->0]),
                                                    fresh[k] as nat,
                                                ),
                                                0,
                                                models[slots[fresh[k]]->0],
                                                (fuel - 1) as nat,
                                            );
                                        }
                                    }
                                } else {
                                    assert(grown == fresh);
                                    if prev_child is Some {
                                        lemma_no_new_slot(slots.take(slot as int), from);
                                    } else {
                                        assert forall|k: int| 0 <= k < fresh.len() implies present(
                                            self.nodes,
                                            spec_view_id(
                                                id@,
                                                model_key(models[slots[#[trigger] fresh[k]]->0]),
                                                fresh[k] as nat,
                                            ),
                                            0,
                                            models[slots[fresh[k]]->0],
                                            (fuel - 1) as nat,
                                        ) by {
                                            lemma_present_stays(
                                                held,
                                                self.nodes,
                                                spec_view_id(
                                                    id@,
                                                    model_key(models[slots[fresh[k]]->0]),
                                                    fresh[k] as nat,
                                                ),
                                                0,
                                                models[slots[fresh[k]]->0],
                                                (fuel - 1) as nat,
                                            );
                                        }
                                    }
                                }
                            }
                            match settled {
                                Some(shown) => {
                                    if cursor < children_diff.indices.len() {
                                        let place = children_diff.indices[cursor];
                                        if place < shown_at.len() {
                                            let ghost held = shown_at@;
                                            let _ = shown_at.remove(place);
                                            shown_at.insert(place, Some(shown));
                                            assert(shown_at@ =~= held.update(
                                                place as int,
                                                Some(shown),
                                            ));
                                        }
                                        cursor = cursor + 1;
                                    }
                                },
                                None => {},
                            }
                            slot = slot + 1;
                        }
                        let ghost middle = transaction.patches_at(id@);
                        let ghost settled_tx = *transaction;
                        let ghost settled_events = self.event_manager;
                        let order = children_diff.into_order();
                        emit_element_patches(transaction, id, prev_props, next_props, order);
                        proof {
                            lemma_model_keys(prev_children@);
                            lemma_model_keys(next_children@);
                            assert(remove_models(order.spec_removes()).len()
                                == order.spec_removes().len());
                            assert(insert_models(order.spec_inserts()).len()
                                == order.spec_inserts().len());
                            assert(slots.take(slot as int) =~= slots);
                            let has = transaction.patches_at(id@);
                            let fresh = new_slots(slots, from);
                            assert(has.take(before.len() as int) =~= before) by {
                                assert forall|k: int| 0 <= k < before.len() implies has[k]
                                    == before[k] by {
                                    assert(has.take(middle.len() as int)[k] == middle[k]);
                                    assert(middle.take(before.len() as int)[k] == before[k]);
                                }
                            }
                            assert forall|k: int| 0 <= k < fresh.len() implies inserts_child(
                                #[trigger] has.skip(before.len() as int)[k],
                                id@,
                                models[slots[fresh[k]]->0],
                                fresh[k],
                            ) by {
                                assert(has.take(middle.len() as int)[before.len() + k]
                                    == middle[before.len() + k]);
                                assert(has.skip(before.len() as int)[k] == middle.skip(
                                    before.len() as int,
                                )[k]);
                            }
                            assert(ends_as_element(
                                has,
                                prev_props@,
                                next_props@,
                                spec_diff_children(
                                    view_keys(prev_children@),
                                    view_keys(next_children@),
                                ),
                            ));
                            assert(element_patches(
                                has,
                                before,
                                id@,
                                prev_props@,
                                next_props@,
                                view_models(prev_children@),
                                models,
                            ));
                            assert(children_present(
                                self.nodes,
                                id@,
                                models,
                                spec_diff_children(
                                    model_keys(view_models(prev_children@)),
                                    model_keys(models),
                                ).slots,
                                new_slots(slots, from),
                                (fuel - 1) as nat,
                            ));
                        }
                        apply_bindings(
                            &mut self.event_manager,
                            transaction,
                            id,
                            next_props,
                            Some(prev_props),
                            true,
                        );
                        apply_bindings(
                            &mut self.event_manager,
                            transaction,
                            id,
                            prev_props,
                            Some(next_props),
                            false,
                        );
                        proof {
                            if roomy {
                                Self::lemma_new_mounted_rests(
                                    self.nodes,
                                    settled_events,
                                    settled_tx,
                                    self.nodes,
                                    self.event_manager,
                                    *transaction,
                                    id@,
                                    models,
                                    slots,
                                    from,
                                    slots.len() as int,
                                    (fuel - 1) as nat,
                                    None,
                                );
                            }
                            if steady {
                                assert forall|t: int|
                                    0 <= t < olds.len() && t < slots.len()
                                        implies #[trigger] Self::child_settled(
                                    old(self).nodes,
                                    self.nodes,
                                    lost,
                                    *transaction,
                                    id@,
                                    olds,
                                    models,
                                    slots,
                                    t,
                                    (fuel - 1) as nat,
                                    Self::clean_below(*old(transaction), id@),
                                ) by {
                                    assert(Self::child_settled(
                                        old(self).nodes,
                                        self.nodes,
                                        lost,
                                        settled_tx,
                                        id@,
                                        olds,
                                        models,
                                        slots,
                                        t,
                                        (fuel - 1) as nat,
                                        Self::clean_below(*old(transaction), id@),
                                    ));
                                    if slots[t] is Some {
                                        lemma_child_not_above(
                                            id@,
                                            spec_child_view_id(
                                                model_key(models[slots[t]->0]),
                                                t as nat,
                                            ),
                                        );
                                        lemma_ancestor_reflexive(id@);
                                        assert(Self::new_at(id@, models, slots, t) != id@);
                                        assert(transaction.patches_at(
                                            Self::new_at(id@, models, slots, t),
                                        ) == settled_tx.patches_at(
                                            Self::new_at(id@, models, slots, t),
                                        ));
                                    }
                                }
                            }
                        }
                        let key2 = match next_key {
                            Some(k) => Some(k.clone()),
                            None => None,
                        };
                        let mut view_children: Vec<View> = Vec::new();
                        let mut place: usize = 0;
                        while place < next_children.len()
                            invariant
                                place <= next_children@.len(),
                                shown_at@.len() == next_children@.len(),
                                view_children@.len() == place,
                                exact ==> forall|j: int|
                                    0 <= j < shown_at@.len() && (#[trigger] shown_at@[j]) is Some
                                        ==> shown_at@[j]->0@ == next_children@[j]@,
                                exact ==> forall|j: int|
                                    0 <= j < place ==> (#[trigger] view_children@[j])@
                                        == next_children@[j]@,
                            decreases next_children@.len() - place,
                        {
                            match &shown_at[place] {
                                Some(shown) => {
                                    view_children.push(shown.clone());
                                },
                                None => {
                                    view_children.push(next_children[place].clone());
                                },
                            }
                            place = place + 1;
                        }
                        proof {
                            if exact {
                                assert(view_models(view_children@) =~= view_models(
                                    next_children@,
                                ));
                            }
                        }
                        View::Data {
                            kind: next_kind.clone(),
                            key: key2,
                            props: next_props.clone(),
                            children: view_children,
                        }
                    },
                };
                let node = Node::new(
                    index,
                    at_depth,
                    own_id,
                    shown.clone(),
                    NodeKind::View,
                    parent_context,
                );
                let ghost held = self.nodes;
                self.nodes.insert_at_depth(String::from_str(id), depth, node);
                proof {
                    if next_view@ is Data {
                        let next = next_view@->children;
                        let slots = spec_diff_children(
                            model_keys(found.view@->children),
                            model_keys(next),
                        ).slots;
                        let fresh = new_slots(slots, found.view@->children.len() as int);
                        let olds = found.view@->children;
                        if Self::new_apart(id@, next, slots, olds.len() as int) {
                            Self::lemma_new_mounted_rests(
                                held,
                                self.event_manager,
                                *transaction,
                                self.nodes,
                                self.event_manager,
                                *transaction,
                                id@,
                                next,
                                slots,
                                olds.len() as int,
                                slots.len() as int,
                                (fuel - 1) as nat,
                                None,
                            );
                        }
                        if Self::apart(old(self).nodes, id@, olds, next, slots) {
                            assert forall|t: int|
                                0 <= t < olds.len() && t < slots.len()
                                    implies #[trigger] Self::child_settled(
                                old(self).nodes,
                                self.nodes,
                                old(transaction).removed(),
                                *transaction,
                                id@,
                                olds,
                                next,
                                slots,
                                t,
                                (fuel - 1) as nat,
                                Self::clean_below(*old(transaction), id@),
                            ) by {
                                lemma_child_not_above(
                                    id@,
                                    spec_child_view_id(model_key(olds[t]), t as nat),
                                );
                                assert(Self::child_settled(
                                    old(self).nodes,
                                    held,
                                    old(transaction).removed(),
                                    *transaction,
                                    id@,
                                    olds,
                                    next,
                                    slots,
                                    t,
                                    (fuel - 1) as nat,
                                    Self::clean_below(*old(transaction), id@),
                                ));
                            }
                        }
                        assert forall|k: int| 0 <= k < fresh.len() implies present(
                            self.nodes,
                            spec_view_id(
                                id@,
                                model_key(next[slots[#[trigger] fresh[k]]->0]),
                                fresh[k] as nat,
                            ),
                            0,
                            next[slots[fresh[k]]->0],
                            (fuel - 1) as nat,
                        ) by {
                            lemma_present_stays(
                                held,
                                self.nodes,
                                spec_view_id(
                                    id@,
                                    model_key(next[slots[fresh[k]]->0]),
                                    fresh[k] as nat,
                                ),
                                0,
                                next[slots[fresh[k]]->0],
                                (fuel - 1) as nat,
                            );
                        }
                    }
                }
                Some(shown)
            },
        }
    }

    /// Whether the registries and the transaction stand as the update of
    /// the node under `id` at `depth` with `next` leaves them, by a pass
    /// of depth `fuel` that returned `shown`. Before the pass the
    /// transaction held the patches `had` at `id` and the removals `lost`;
    /// `still` says that it holds what it held, and `clean` that it held
    /// no patch below `id`.
    ///
    /// A pass of no depth changes nothing. A node that does not take
    /// `next` in place is replaced: the patches at `id` gain one `Replace`
    /// patch, nothing is recorded as removed, and the nodes of `next` are
    /// mounted where the new node stands, with their bindings where
    /// `next` holds no component and its children stand apart. A node that takes it in place
    /// is the same node afterwards. Where it is no component, nothing
    /// outside its subtree changes; for a text nothing changes in the
    /// transaction, and for an element the patches at `id` gain exactly
    /// those of an element's update, the bindings follow the properties,
    /// and the nodes of the new children are mounted; where the new
    /// children stand apart, each that holds no component stands mounted
    /// with all that is below it. Where the children stand apart, each
    /// old child is settled: one that went has no node left and is
    /// recorded as removed, and one that stays keeps its node, with
    /// nothing recorded as removed for it.
    pub open spec fn updated(
        before: Self,
        after: Self,
        had: Seq<Patch>,
        lost: Map<Seq<char>, RawView>,
        still: bool,
        clean: bool,
        now: Transaction,
        id: Seq<char>,
        depth: usize,
        next: ViewModel,
        fuel: usize,
        shown: Option<View>,
    ) -> bool {
        let found = before.spec_nodes().node_at(id, depth as int);
        let node = found->0;
        found is Some ==> {
            &&& fuel == 0 ==> after.unchanged(before) && still && shown->0@ == node.view@
            &&& fuel > 0 && !takes_in_place(node, next) ==> {
                &&& replaces(
                    now.patches_at(id),
                    had,
                    shown_from(before.spec_nodes(), id, depth as int)->0@,
                    shown->0@,
                )
                &&& now.removed() == lost
                &&& component_free(next) ==> shown->0@ == next
                &&& present(
                    after.spec_nodes(),
                    Self::replaced_at(id, next, node.index),
                    depth as int,
                    next,
                    (fuel - 1) as nat,
                )
                &&& component_free(next) && apart_tree(
                    Self::replaced_at(id, next, node.index),
                    next,
                    (fuel - 1) as nat,
                ) ==> mounted_tree(
                    after.spec_nodes(),
                    after.spec_events(),
                    now,
                    Self::replaced_at(id, next, node.index),
                    depth as int,
                    next,
                    (fuel - 1) as nat,
                )
            }
            &&& fuel > 0 && takes_in_place(node, next) ==> {
                &&& Self::kept_in_place(
                    after.spec_nodes().node_at(id, depth as int),
                    node,
                    next,
                    shown->0@,
                )
                &&& node.kind is View ==> same_outside(
                    after.spec_nodes(),
                    after.spec_events(),
                    before.spec_nodes(),
                    before.spec_events(),
                    id,
                )
                &&& node.kind is View && next is Text ==> still && after.spec_events()
                    == before.spec_events()
                &&& node.kind is View && next is Data ==> {
                    &&& element_patches(
                        now.patches_at(id),
                        had,
                        id,
                        node.view@->props,
                        next->props,
                        node.view@->children,
                        next->children,
                    )
                    &&& Self::rebound(after.spec_events(), now, id, node.view@->props, next->props)
                    &&& children_present(
                        after.spec_nodes(),
                        id,
                        next->children,
                        spec_diff_children(
                            model_keys(node.view@->children),
                            model_keys(next->children),
                        ).slots,
                        new_slots(
                            spec_diff_children(
                                model_keys(node.view@->children),
                                model_keys(next->children),
                            ).slots,
                            node.view@->children.len() as int,
                        ),
                        (fuel - 1) as nat,
                    )
                    &&& Self::new_apart(
                        id,
                        next->children,
                        spec_diff_children(
                            model_keys(node.view@->children),
                            model_keys(next->children),
                        ).slots,
                        node.view@->children.len() as int,
                    ) ==> Self::new_mounted_upto(
                        after.spec_nodes(),
                        after.spec_events(),
                        now,
                        id,
                        next->children,
                        spec_diff_children(
                            model_keys(node.view@->children),
                            model_keys(next->children),
                        ).slots,
                        node.view@->children.len() as int,
                        spec_diff_children(
                            model_keys(node.view@->children),
                            model_keys(next->children),
                        ).slots.len() as int,
                        (fuel - 1) as nat,
                    )
                    &&& Self::apart(
                        before.spec_nodes(),
                        id,
                        node.view@->children,
                        next->children,
                        spec_diff_children(
                            model_keys(node.view@->children),
                            model_keys(next->children),
                        ).slots,
                    ) ==> forall|t: int|
                        0 <= t < node.view@->children.len() && t < spec_diff_children(
                            model_keys(node.view@->children),
                            model_keys(next->children),
                        ).slots.len() ==> #[trigger] Self::child_settled(
                            before.spec_nodes(),
                            after.spec_nodes(),
                            lost,
                            now,
                            id,
                            node.view@->children,
                            next->children,
                            spec_diff_children(
                                model_keys(node.view@->children),
                                model_keys(next->children),
                            ).slots,
                            t,
                            (fuel - 1) as nat,
                            clean,
                        )
                }
            }
        }
    }

    /// Whether the registries and the transaction `now` of a pass stand
    /// as the update of the node under `id` at `depth` with `next` leaves
    /// them, where the pass began with an empty transaction.
    pub open spec fn received(
        before: Self,
        after: Self,
        now: Transaction,
        id: Seq<char>,
        depth: usize,
        next: ViewModel,
        shown: Option<View>,
    ) -> bool {
        Self::updated(
            before,
            after,
            Seq::empty(),
            Map::empty(),
            now.spec_is_empty(),
            true,
            now,
            id,
            depth,
            next,
            before.spec_limit(),
            shown,
        )
    }

    /// Whether a change of state was served for a node under `id` at
    /// `depth` that is no component: the node was brought in step with
    /// the view that it holds, and the transaction of that pass is what
    /// was handed out, unless it holds nothing.
    pub open spec fn view_update(
        before: Self,
        after: Self,
        id: Seq<char>,
        depth: usize,
        transactions: Seq<Transaction>,
    ) -> bool {
        let node = before.spec_nodes().node_at(id, depth as int);
        node is Some && node->0.kind is View ==> exists|now: Transaction, shown: View|
            {
                &&& #[trigger] Self::received(
                    before,
                    after,
                    now,
                    id,
                    depth,
                    node->0.view@,
                    Some(shown),
                )
                &&& transactions == (if now.spec_is_empty() {
                    Seq::empty()
                } else {
                    seq![now]
                })
            }
    }

    /// Whether a change of state was served for a component under `id`
    /// at `depth`: where a pass goes down at all and the node takes the
    /// view that it holds in place, the node stands where it stood
    /// afterwards, as the same component with the same view, and no
    /// change of its state is pending.
    pub open spec fn component_update(before: Self, after: Self, id: Seq<char>, depth: usize) -> bool {
        let found = before.spec_nodes().node_at(id, depth as int);
        let kept = after.spec_nodes().node_at(id, depth as int);
        found is Some && found->0.kind is Component && before.spec_limit() > 0 && takes_in_place(
            found->0,
            found->0.view@,
        ) ==> {
            &&& kept is Some
            &&& kept->0.kind is Component
            &&& kept->0.kind->component == found->0.kind->component
            &&& kept->0.kind->next_state is None
            &&& kept->0.view@ == found->0.view@
            &&& kept->0.index == found->0.index
            &&& kept->0.id == found->0.id
            &&& kept->0.parent_context == found->0.parent_context
        }
    }

    /// What is said of the update of a node that is no component rests
    /// on the registries and on the depth of the passes alone.
    proof fn lemma_view_update_rests(
        before: Self,
        other: Self,
        after: Self,
        later: Self,
        id: Seq<char>,
        depth: usize,
        transactions: Seq<Transaction>,
    )
        requires
            Self::view_update(before, after, id, depth, transactions),
            other.nodes == before.nodes,
            other.event_manager == before.event_manager,
            other.limit == before.limit,
            later.nodes == after.nodes,
            later.event_manager == after.event_manager,
        ensures
            Self::view_update(other, later, id, depth, transactions),
    {
        let node = before.nodes.node_at(id, depth as int);
        if node is Some && node->0.kind is View {
            let (now, shown) = choose|now: Transaction, shown: View|
                {
                    &&& #[trigger] Self::received(
                        before,
                        after,
                        now,
                        id,
                        depth,
                        node->0.view@,
                        Some(shown),
                    )
                    &&& transactions == (if now.spec_is_empty() {
                        Seq::empty()
                    } else {
                        seq![now]
                    })
                };
            assert(Self::received(other, later, now, id, depth, node->0.view@, Some(shown)));
        }
    }

    /// Whether the tree stands mounted as the mount of `view` leaves it,
    /// with `now` as the transaction of the pass: the node at the root is
    /// a component where the view was rendered as one, and holds the view
    /// then, and else what the `Mount` patch carries; the bindings of an
    /// element are registered and noted; the nodes of the view are
    /// mounted; a view without components whose children stand apart
    /// stands mounted with all that is below it; and what a component at
    /// the root rendered stands so one layer deeper, with what is shown
    /// for it in the `Mount` patch.
    pub open spec fn mounted_as(self, now: Transaction, view: ViewModel) -> bool {
        let root = self.spec_id();
        let found = self.spec_nodes().node_at(root, 0);
        let rendered = expands(view, 0, self.spec_limit() as nat);
        &&& found is Some
        &&& (found->0.kind is Component) == rendered
        &&& rendered ==> found->0.view@ == view
        &&& !rendered && now.patches_at(root).len() > 0 && now.patches_at(root)[0] is Mount
            ==> now.patches_at(root)[0]->Mount_0@ == raw(found->0.view@)
        &&& view is Data && !rendered ==> forall|name: Seq<char>|
            #![trigger self.spec_events().handler(name, root)]
            #![trigger now.event_flag(root, name)]
            binds(view->props, name) ==> self.spec_events().handler(name, root) == Some(
                view->props[name]->Function_0,
            ) && now.event_flag(root, name) == Some(true)
        &&& present(self.spec_nodes(), root, 0, view, self.spec_limit() as nat)
        &&& component_free(view) && apart_tree(root, view, self.spec_limit() as nat)
            ==> mounted_tree(
            self.spec_nodes(),
            self.spec_events(),
            now,
            root,
            0,
            view,
            self.spec_limit() as nat,
        )
        &&& rendered ==> exists|made: View, shown: ViewModel|
            {
                &&& #[trigger] rendered_below(
                    self.spec_nodes(),
                    self.spec_events(),
                    now,
                    root,
                    1,
                    made@,
                    (self.spec_limit() - 1) as nat,
                    shown,
                )
                &&& now.patches_at(root).len() > 0 && now.patches_at(root)[0] is Mount
                    ==> now.patches_at(root)[0]->Mount_0@ == raw(shown)
            }
    }

    /// Whether a transaction records the unmount of what `nodes` held
    /// under `root`, by a pass of depth `fuel`: the view that was rendered
    /// there stands among the removals in wire form; where an element
    /// showed it, each of its bindings is noted as unregistered; and where
    /// the children of the elements stand apart, all that was mounted
    /// there is unmounted: `left` holds none of its nodes, `events` no
    /// handler for a binding of its elements, and each such binding is
    /// noted as unregistered.
    pub open spec fn records_unmount(
        transaction: Transaction,
        root: Seq<char>,
        nodes: Nodes,
        fuel: usize,
        left: Nodes,
        events: EventManager,
    ) -> bool {
        let shown = shown_node(nodes, root, 0);
        &&& shown is Some
        &&& transaction.removed().contains_key(root)
        &&& transaction.removed()[root]@ == raw(shown->0.view@)
        &&& shown->0.kind is View && shown->0.view@ is Data ==> forall|name: Seq<char>|
            binds(shown->0.view@->props, name) ==> #[trigger] transaction.event_flag(root, name)
                == Some(false)
        &&& spread(nodes, root, 0, fuel as nat) ==> unmounted(
            nodes,
            left,
            events,
            transaction,
            root,
            0,
            fuel as nat,
        )
    }

    /// Whether a pass of depth `fuel` updates the node in place as an
    /// element: a node is mounted, it is no component, it takes `next` in
    /// place, and both its view and `next` are elements.
    pub open spec fn plain_update(node: Option<Node>, next: ViewModel, fuel: usize) -> bool {
        &&& node matches Some(found)
        &&& fuel > 0
        &&& found.kind is View
        &&& takes_in_place(found, next)
        &&& found.view@ is Data
        &&& next is Data
    }

    /// Whether the root is mounted.
    pub open spec fn mounted(self) -> bool {
        self.spec_nodes().node_at(self.spec_id(), 0) is Some
    }

    /// Whether nothing of the tree is left: no node and no event handler
    /// stands at the root or below it.
    pub open spec fn cleared(self) -> bool {
        &&& forall|at: Seq<char>, d: int|
            spec_is_ancestor(self.spec_id(), at) ==> #[trigger] self.spec_nodes().node_at(at, d) is None
        &&& forall|name: Seq<char>, at: Seq<char>|
            spec_is_ancestor(self.spec_id(), at) ==> #[trigger] self.spec_events().handler(
                name,
                at,
            ) is None
    }

    /// Whether a transaction is that of a mount at `root`: one `Mount`
    /// patch there, no other patch and no removal.
    pub open spec fn mount_transaction(transaction: Transaction, root: Seq<char>) -> bool {
        &&& transaction.patches_at(root).len() == 1
        &&& transaction.patches_at(root)[0] is Mount
        &&& forall|at: Seq<char>| at != root ==> #[trigger] transaction.patches_at(at).len() == 0
        &&& transaction.removed() == Map::<Seq<char>, RawView>::empty()
    }

    /// Whether the first patch at `root` mounts the wire form of `view`.
    pub open spec fn shows(transaction: Transaction, root: Seq<char>, view: ViewModel) -> bool {
        transaction.patches_at(root).len() > 0 && transaction.patches_at(root)[0] is Mount
            && transaction.patches_at(root)[0]->Mount_0@ == raw(view)
    }

    /// Whether the registries hold outside the tree of this renderer what
    /// they hold in `other`.
    pub open spec fn outside_root(self, other: Self) -> bool {
        same_outside(
            self.spec_nodes(),
            self.spec_events(),
            other.spec_nodes(),
            other.spec_events(),
            self.spec_id(),
        )
    }

    /// Whether the registries hold, outside the subtree of `id` and that
    /// of its parent, what they hold in `other`.
    pub open spec fn around(self, other: Self, id: Seq<char>) -> bool {
        same_around(
            self.spec_nodes(),
            self.spec_events(),
            other.spec_nodes(),
            other.spec_events(),
            id,
        )
    }

    /// Whether a transaction is that of an unmount of `root`: the root is
    /// recorded as removed, and there is no patch.
    pub open spec fn unmount_transaction(transaction: Transaction, root: Seq<char>) -> bool {
        &&& transaction.removed().dom() =~= set![root]
        &&& forall|at: Seq<char>| #[trigger] transaction.patches_at(at).len() == 0
    }

    /// Mounts `view` at the root and returns the transaction of the pass.
    fn internal_mount(&mut self, view: &View) -> (transaction: Transaction)
        ensures
            final(self).mounted(),
            final(self).spec_id() == old(self).spec_id(),
            final(self).spec_queue() == old(self).spec_queue(),
            Self::mount_transaction(transaction, old(self).spec_id()),
            component_free(view@) ==> Self::shows(transaction, old(self).spec_id(), view@),
            final(self).outside_root(*old(self)),
            final(self).mounted_as(transaction, view@),
            final(self).spec_limit() == old(self).spec_limit(),
    {
        let mut transaction = Transaction::new();
        let root = self.root_id.clone();
        let context = Props::new();
        let limit = self.limit;
        let index = self.root_index;
        let shown =
            self.mount_node(index, 0, root.as_str(), view, &context, limit, &mut transaction);
        let ghost noted = transaction;
        transaction.mount(root.as_str(), RawView::from_view(&shown));
        proof {
            assert(transaction.removed() =~= Map::<Seq<char>, RawView>::empty());
            if component_free(view@) && apart_tree(root@, view@, limit as nat) {
                lemma_mounted_rests(
                    self.nodes,
                    self.event_manager,
                    noted,
                    self.nodes,
                    self.event_manager,
                    transaction,
                    root@,
                    0,
                    view@,
                    limit as nat,
                );
            }
            if expands(view@, 0, limit as nat) {
                let made = choose|made: View| #[trigger]
                    rendered_below(
                        self.nodes,
                        self.event_manager,
                        noted,
                        root@,
                        1,
                        made@,
                        (limit - 1) as nat,
                        shown@,
                    );
                if component_free(made@) && apart_tree(root@, made@, (limit - 1) as nat) {
                    lemma_mounted_layer_rests(
                        self.nodes,
                        self.event_manager,
                        noted,
                        self.nodes,
                        self.event_manager,
                        transaction,
                        root@,
                        1,
                        made@,
                        (limit - 1) as nat,
                    );
                }
                assert(rendered_below(
                    self.nodes,
                    self.event_manager,
                    transaction,
                    root@,
                    1,
                    made@,
                    (limit - 1) as nat,
                    shown@,
                ));
            }
        }
        transaction
    }

    /// Unmounts the tree and returns the transaction of the pass; does
    /// nothing where nothing is mounted at the root.
    fn internal_unmount(&mut self) -> (r: Option<Transaction>)
        ensures
            r is Some == old(self).mounted(),
            final(self).cleared(),
            final(self).spec_id() == old(self).spec_id(),
            final(self).spec_queue() == old(self).spec_queue(),
            r matches Some(transaction) ==> Self::unmount_transaction(
                transaction,
                old(self).spec_id(),
            ) && Self::records_unmount(
                transaction,
                old(self).spec_id(),
                old(self).spec_nodes(),
                old(self).spec_limit(),
                final(self).spec_nodes(),
                final(self).spec_events(),
            ),
            final(self).outside_root(*old(self)),
            final(self).spec_limit() == old(self).spec_limit(),
    {
        let mut transaction = Transaction::new();
        let root = self.root_id.clone();
        let limit = self.limit;
        proof {
            lemma_shown_where_mounted(self.nodes, root@, 0);
        }
        let gone = self.unmount_node(root.as_str(), 0, limit, &mut transaction);
        let ghost noted = transaction;
        let ghost left = self.nodes;
        let ghost undone = self.event_manager;
        self.event_manager.remove_all(root.as_str());
        self.nodes.remove_under(root.as_str());
        match gone {
            Some(view) => {
                transaction.unmount(root.as_str(), RawView::from_view(&view));
                proof {
                    assert(transaction.removed().dom() =~= set![root@]);
                    if spread(old(self).nodes, root@, 0, limit as nat) {
                        lemma_unmounted_rests(
                            old(self).nodes,
                            left,
                            undone,
                            noted,
                            old(self).nodes,
                            self.nodes,
                            self.event_manager,
                            transaction,
                            root@,
                            0,
                            limit as nat,
                        );
                    }
                }
                Some(transaction)
            },
            None => None,
        }
    }

    /// Notes `next` as the state that the component under `id` at `depth`
    /// takes at its next update, in the place of a state noted before,
    /// and says whether a component is mounted there. Nothing else
    /// changes, and nothing at all where none is.
    fn set_pending(&mut self, id: &str, depth: usize, next: Props) -> (noted: bool)
        ensures
            noted == (old(self).nodes.node_at(id@, depth as int) is Some && old(
                self,
            ).nodes.node_at(id@, depth as int)->0.kind is Component),
            noted ==> final(self).nodes.node_at(id@, depth as int) == Some(
                Self::with_pending(old(self).nodes.node_at(id@, depth as int)->0, next),
            ),
            !noted ==> final(self).nodes == old(self).nodes,
            forall|at: Seq<char>, d: int|
                at != id@ || d != depth ==> #[trigger] final(self).nodes.node_at(at, d) == old(
                    self,
                ).nodes.node_at(at, d),
            final(self).event_manager == old(self).event_manager,
            final(self).root_id == old(self).root_id,
            final(self).queue == old(self).queue,
            final(self).limit == old(self).limit,
    {
        let stateful = match self.nodes.get_at_depth(id, depth) {
            Some(node) => node.is_component(),
            None => false,
        };
        if !stateful {
            return false;
        }
        match self.nodes.take_at_depth(id, depth) {
            Some(node) => {
                let Node { index, depth: at_depth, id: own_id, view, kind, parent_context } = node;
                let kind = match kind {
                    NodeKind::Component { instance, component, .. } => {
                        NodeKind::Component { instance, next_state: Some(next), component }
                    },
                    NodeKind::View => NodeKind::View,
                };
                self.nodes.insert_at_depth(
                    String::from_str(id),
                    depth,
                    Node::new(index, at_depth, own_id, view, kind, parent_context),
                );
            },
            None => {},
        }
        true
    }

    /// The component `node` with `next` noted as the state that it takes
    /// at its next update.
    pub open spec fn with_pending(node: Node, next: Props) -> Node {
        Node {
            index: node.index,
            depth: node.depth,
            id: node.id,
            view: node.view,
            kind: NodeKind::Component {
                instance: node.kind->instance,
                next_state: Some(next),
                component: node.kind->component,
            },
            parent_context: node.parent_context,
        }
    }

    /// Changes the state of the component under `id` at `depth` and brings
    /// what it renders in step. Returns the transaction of the pass where
    /// it holds anything. Where no node is mounted there the request is
    /// dropped: nothing changes and nothing is returned.
    ///
    /// A node that is no component has no state to change: it is diffed
    /// against the view it holds, as an element is. The patches at `id`
    /// then end as the update of an element ends them, so that there is a
    /// transaction whenever the properties of the view differ from
    /// themselves.
    fn internal_update(&mut self, id: &str, depth: usize, f: &T) -> (r: Option<Transaction>)
        ensures
            ({
                let node = old(self).spec_nodes().node_at(id@, depth as int);
                let held = node->0.view@;
                Self::plain_update(node, held, old(self).spec_limit()) ==> {
                    &&& props_changed(held->props, held->props) ==> r is Some
                    &&& r matches Some(transaction) ==> ends_as_element(
                        transaction.patches_at(id@),
                        held->props,
                        held->props,
                        spec_diff_children(
                            model_keys(held->children),
                            model_keys(held->children),
                        ),
                    )
                }
            }),
            Self::view_update(*old(self), *final(self), id@, depth, (match r {
                Some(transaction) => seq![transaction],
                None => Seq::empty(),
            })),
            Self::component_update(*old(self), *final(self), id@, depth),
            final(self).spec_limit() == old(self).spec_limit(),
            final(self).spec_id() == old(self).spec_id(),
            final(self).spec_queue() == old(self).spec_queue(),
            old(self).spec_nodes().node_at(id@, depth as int) is None ==> r is None && (forall|
                at: Seq<char>,
                d: int,
            | #[trigger]
                final(self).spec_nodes().node_at(at, d) == old(self).spec_nodes().node_at(at, d))
                && final(self).spec_events() == old(self).spec_events(),
            r matches Some(transaction) ==> !transaction.spec_is_empty(),
            final(self).around(*old(self), id@),
    {
        proof {
            lemma_ancestor_reflexive(id@);
        }
        let source = match self.nodes.get_at_depth(id, depth) {
            Some(node) => node.view.clone(),
            None => {
                return None;
            },
        };
        let state = match self.nodes.get_at_depth(id, depth) {
            Some(node) => match &node.kind {
                NodeKind::Component { instance, .. } => Some(instance.state.clone()),
                NodeKind::View => None,
            },
            None => None,
        };
        match state {
            Some(state) => {
                let next = f.apply(&state);
                let _ = self.set_pending(id, depth, next);
            },
            None => {},
        }
        let mut transaction = Transaction::new();
        let limit = self.limit;
        let ghost mid = *self;
        let ghost was = transaction;
        let shown = self.update_node(id, depth, &source, limit, &mut transaction);
        proof {
            assert(was.patches_at(id@) =~= Seq::<Patch>::empty());
            assert(was.removed() =~= Map::<Seq<char>, RawView>::empty());
            let node = old(self).nodes.node_at(id@, depth as int);
            if node->0.kind is View {
                assert(mid == *old(self));
                assert(Self::updated(
                    mid,
                    *self,
                    was.patches_at(id@),
                    was.removed(),
                    transaction == was,
                    Self::clean_below(was, id@),
                    transaction,
                    id@,
                    depth,
                    source@,
                    limit,
                    shown,
                ));
                assert(Self::received(
                    *old(self),
                    *self,
                    transaction,
                    id@,
                    depth,
                    node->0.view@,
                    Some(shown->0),
                ));
            }
        }
        if transaction.is_empty() {
            None
        } else {
            Some(transaction)
        }
    }

    /// Gives the node under `id` at `depth` the view `next_view` and brings
    /// everything below it in step. Returns what is rendered there then,
    /// with the transaction of the pass; where no node is mounted there,
    /// nothing changes and nothing is returned.
    ///
    /// Where `next_view` holds no component and the pass reaches all its
    /// levels, what is rendered is `next_view` itself. The registries and
    /// the transaction stand as `received` says: a node of another kind
    /// or key is replaced, with one `Replace` patch; an element that
    /// takes the view in place gains exactly the patches of an element's
    /// update, has its bindings follow the properties and its children
    /// settled. The transaction holds no patch outside the subtree of
    /// `id`, and records no removal but below `id`.
    pub fn receive(&mut self, id: &str, depth: usize, next_view: &View) -> (r: Option<
        (View, Transaction),
    >)
        ensures
            r is Some == old(self).spec_nodes().node_at(id@, depth as int) is Some,
            component_free(next_view@) && fits(next_view@, old(self).spec_limit() as nat)
                && r is Some ==> (r->0).0@ == next_view@,
            final(self).around(*old(self), id@),
            r is None ==> final(self).unchanged(*old(self)),
            r matches Some(pass) ==> Self::received(
                *old(self),
                *final(self),
                pass.1,
                id@,
                depth,
                next_view@,
                Some(pass.0),
            ) && forall|at: Seq<char>|
                !spec_is_ancestor(id@, at) ==> (#[trigger] pass.1.patches_at(at)).len() == 0,
            r matches Some(pass) ==> forall|at: Seq<char>|
                !below(id@, at) ==> !(#[trigger] pass.1.removed().contains_key(at)),
            final(self).spec_id() == old(self).spec_id(),
            final(self).spec_queue() == old(self).spec_queue(),
            final(self).spec_limit() == old(self).spec_limit(),
    {
        let mut transaction = Transaction::new();
        let limit = self.limit;
        let ghost was = transaction;
        proof {
            assert(was.patches_at(id@) =~= Seq::<Patch>::empty());
            assert(was.removed() =~= Map::<Seq<char>, RawView>::empty());
        }
        match self.update_node(id, depth, next_view, limit, &mut transaction) {
            Some(shown) => Some((shown, transaction)),
            None => None,
        }
    }

    /// Whether the renderer stands as the pass for a request of the given
    /// kind leaves it: mounted after a mount, cleared after an unmount.
    pub open spec fn settled(self, message: Message<T>) -> bool {
        match message {
            Message::Mount(_) => self.mounted(),
            Message::Unmount => self.cleared(),
            Message::Update(_, _, _) => true,
        }
    }

    /// Whether the first `upto` requests are all for the root: to mount or
    /// to unmount.
    pub open spec fn for_root(requests: Seq<Message<T>>, upto: int) -> bool {
        forall|i: int| 0 <= i < upto && i < requests.len() ==> !((#[trigger] requests[i]) is Update)
    }

    /// Whether the requests are a single change of state that names no
    /// mounted node, so that it is dropped.
    pub open spec fn dropped(self, requests: Seq<Message<T>>) -> bool {
        requests.len() == 1 && requests[0] is Update && self.spec_nodes().node_at(
            requests[0]->Update_0@,
            requests[0]->Update_1 as int,
        ) is None
    }

    /// Whether the registry of nodes and that of event handlers hold what
    /// they hold in `other`.
    pub open spec fn unchanged(self, other: Self) -> bool {
        &&& forall|at: Seq<char>, d: int| #[trigger]
            self.spec_nodes().node_at(at, d) == other.spec_nodes().node_at(at, d)
        &&& self.spec_events() == other.spec_events()
    }

    /// Whether `transaction` is what the pass for the request `message`
    /// hands out: the transaction of a mount, with the view where it holds
    /// no component; that of an unmount; or, for a change of state, one
    /// that holds something.
    pub open spec fn answers(message: Message<T>, transaction: Transaction, root: Seq<char>) -> bool {
        match message {
            Message::Mount(view) => Self::mount_transaction(transaction, root) && (component_free(
                view@,
            ) ==> Self::shows(transaction, root, view@)),
            Message::Unmount => Self::unmount_transaction(transaction, root),
            Message::Update(_, _, _) => !transaction.spec_is_empty(),
        }
    }

    /// Whether the transactions answer the first `upto` requests in the
    /// order of the requests: `origin` names for each transaction the
    /// request that it answers, the names rise, and every request to
    /// mount is answered.
    pub open spec fn in_order(
        requests: Seq<Message<T>>,
        upto: int,
        transactions: Seq<Transaction>,
        origin: Seq<int>,
        root: Seq<char>,
    ) -> bool {
        &&& origin.len() == transactions.len()
        &&& forall|k: int|
            0 <= k < origin.len() ==> 0 <= #[trigger] origin[k] < upto && origin[k] < requests.len()
                && Self::answers(requests[origin[k]], transactions[k], root)
        &&& forall|k: int, l: int|
            0 <= k < l < origin.len() ==> #[trigger] origin[k] < #[trigger] origin[l]
        &&& forall|i: int|
            0 <= i < upto && i < requests.len() && (#[trigger] requests[i]) is Mount
                ==> origin.contains(i)
    }

    /// Serves the waiting requests, oldest first, until none is left, and
    /// returns the transactions of the passes in the order of the
    /// requests.
    pub fn process_queue(&mut self) -> (transactions: Vec<Transaction>)
        ensures
            final(self).spec_queue().len() == 0,
            final(self).spec_id() == old(self).spec_id(),
            old(self).spec_queue().len() > 0 ==> final(self).settled(old(self).spec_queue().last()),
            old(self).spec_queue().len() > 0 && old(self).spec_queue().last() is Mount
                ==> transactions@.len() > 0 && Self::mount_transaction(
                transactions@.last(),
                old(self).spec_id(),
            ),
            old(self).spec_queue().len() == 0 ==> transactions@.len() == 0
                && final(self).spec_nodes() == old(self).spec_nodes()
                && final(self).spec_events() == old(self).spec_events(),
            old(self).dropped(old(self).spec_queue()) ==> transactions@.len() == 0
                && final(self).unchanged(*old(self)),
            Self::for_root(old(self).spec_queue(), old(self).spec_queue().len() as int)
                ==> final(self).outside_root(*old(self)),
            transactions@.len() <= old(self).spec_queue().len(),
            old(self).spec_queue().len() == 1 && old(self).spec_queue()[0] is Unmount
                ==> transactions@.len() == (if old(self).mounted() {
                1nat
            } else {
                0nat
            }) && (old(self).mounted() ==> Self::unmount_transaction(
                transactions@[0],
                old(self).spec_id(),
            )),
            old(self).spec_queue().len() == 1 && old(self).spec_queue()[0] is Update
                ==> Self::component_update(
                *old(self),
                *final(self),
                old(self).spec_queue()[0]->Update_0@,
                old(self).spec_queue()[0]->Update_1,
            ),
            old(self).spec_queue().len() == 1 && old(self).spec_queue()[0] is Update
                ==> final(self).around(*old(self), old(self).spec_queue()[0]->Update_0@)
                && Self::view_update(
                *old(self),
                *final(self),
                old(self).spec_queue()[0]->Update_0@,
                old(self).spec_queue()[0]->Update_1,
                transactions@,
            ),
            old(self).spec_queue().len() == 1 && old(self).spec_queue()[0] is Unmount && old(
                self,
            ).mounted() ==> Self::records_unmount(
                transactions@[0],
                old(self).spec_id(),
                old(self).spec_nodes(),
                old(self).spec_limit(),
                final(self).spec_nodes(),
                final(self).spec_events(),
            ),
            old(self).spec_queue().len() > 0 && old(self).spec_queue().last() is Mount
                ==> final(self).mounted_as(
                transactions@.last(),
                old(self).spec_queue().last()->Mount_0@,
            ),
            final(self).spec_limit() == old(self).spec_limit(),
            old(self).spec_queue().len() > 0 && old(self).spec_queue().last() is Mount
                && component_free(old(self).spec_queue().last()->Mount_0@) ==> Self::shows(
                transactions@.last(),
                old(self).spec_id(),
                old(self).spec_queue().last()->Mount_0@,
            ),
            exists|origin: Seq<int>| #[trigger]
                Self::in_order(
                    old(self).spec_queue(),
                    old(self).spec_queue().len() as int,
                    transactions@,
                    origin,
                    old(self).spec_id(),
                ),
    {
        let mut transactions: Vec<Transaction> = Vec::new();
        let ghost all = self.queue@;
        let ghost mut served: int = 0;
        let ghost mut origin: Seq<int> = Seq::empty();
        loop
            invariant_except_break
                self.queue@ == all.skip(served),
            invariant
                0 <= served <= all.len(),
                all == old(self).queue@,
                self.root_id@ == old(self).root_id@,
                served > 0 ==> self.settled(all[served - 1]),
                served > 0 && all[served - 1] is Mount ==> transactions@.len() > 0
                    && Self::mount_transaction(transactions@.last(), self.root_id@),
                served == 0 ==> transactions@.len() == 0 && self.nodes == old(self).nodes
                    && self.event_manager == old(self).event_manager,
                served == 1 && old(self).dropped(all) ==> transactions@.len() == 0
                    && self.unchanged(*old(self)),
                Self::for_root(all, served) ==> self.outside_root(*old(self)),
                transactions@.len() <= served,
                served == 1 && all[0] is Unmount ==> transactions@.len() == (if old(
                    self,
                ).mounted() {
                    1nat
                } else {
                    0nat
                }) && (old(self).mounted() ==> Self::unmount_transaction(
                    transactions@[0],
                    self.root_id@,
                )),
                served == 1 && all[0] is Update ==> Self::component_update(
                    *old(self),
                    *self,
                    all[0]->Update_0@,
                    all[0]->Update_1,
                ),
                served == 1 && all[0] is Update ==> self.around(*old(self), all[0]->Update_0@)
                    && Self::view_update(
                    *old(self),
                    *self,
                    all[0]->Update_0@,
                    all[0]->Update_1,
                    transactions@,
                ),
                served == 1 && all[0] is Unmount && old(self).mounted() ==> Self::records_unmount(
                    transactions@[0],
                    self.root_id@,
                    old(self).nodes,
                    old(self).limit,
                    self.nodes,
                    self.event_manager,
                ),
                served > 0 && all[served - 1] is Mount ==> self.mounted_as(
                    transactions@.last(),
                    all[served - 1]->Mount_0@,
                ),
                self.limit == old(self).limit,
                served > 0 && all[served - 1] is Mount && component_free(all[served - 1]->Mount_0@)
                    ==> Self::shows(transactions@.last(), self.root_id@, all[served - 1]->Mount_0@),
                Self::in_order(all, served, transactions@, origin, self.root_id@),
            ensures
                served == all.len(),
                self.queue@.len() == 0,
            decreases all.len() - served,
        {
            let ghost held = *self;
            let message = match self.queue.pop() {
                Some(message) => message,
                None => {
                    proof {
                        if served == 1 && all[0] is Update {
                            Self::lemma_view_update_rests(
                                *old(self),
                                *old(self),
                                held,
                                *self,
                                all[0]->Update_0@,
                                all[0]->Update_1,
                                transactions@,
                            );
                        }
                    }
                    break ;
                },
            };
            proof {
                assert(all.skip(served)[0] == all[served]);
                assert(all.skip(served).drop_first() =~= all.skip(served + 1));
            }
            let ghost answered = transactions@;
            let ghost named = origin;
            match message {
                Message::Mount(view) => {
                    let transaction = self.internal_mount(&view);
                    transactions.push(transaction);
                    proof {
                        origin = origin.push(served);
                    }
                },
                Message::Update(id, depth, f) => {
                    let ghost mid = *self;
                    let ghost had = transactions@;
                    match self.internal_update(id.as_str(), depth, &f) {
                        Some(transaction) => {
                            transactions.push(transaction);
                            proof {
                                if served == 0 {
                                    assert(transactions@ =~= seq![transaction]);
                                }
                                origin = origin.push(served);
                            }
                        },
                        None => {
                            proof {
                                if served == 0 {
                                    assert(transactions@ =~= Seq::<Transaction>::empty());
                                }
                            }
                        },
                    }
                    proof {
                        if served == 0 {
                            Self::lemma_view_update_rests(
                                mid,
                                *old(self),
                                *self,
                                *self,
                                id@,
                                depth,
                                transactions@,
                            );
                        }
                    }
                },
                Message::Unmount => {
                    match self.internal_unmount() {
                        Some(transaction) => {
                            transactions.push(transaction);
                            proof {
                                origin = origin.push(served);
                            }
                        },
                        None => {},
                    }
                },
            }
            proof {
                assert forall|k: int| 0 <= k < origin.len() implies 0 <= #[trigger] origin[k]
                    < served + 1 && origin[k] < all.len() && Self::answers(
                    all[origin[k]],
                    transactions@[k],
                    self.root_id@,
                ) by {
                    if k < named.len() {
                        assert(origin[k] == named[k]);
                        assert(transactions@[k] == answered[k]);
                    }
                }
                assert forall|i: int|
                    0 <= i < served + 1 && i < all.len() && (#[trigger] all[i])
                        is Mount implies origin.contains(i) by {
                    if i < served {
                        assert(named.contains(i));
                        let k = named.index_of(i);
                        assert(origin[k] == i);
                    } else {
                        assert(origin[origin.len() - 1] == i);
                    }
                }
                served = served + 1;
                if Self::for_root(all, served) {
                    assert(Self::for_root(all, served - 1));
                    assert(!(all[served - 1] is Update));
                }
            }
        }
        transactions
    }

    /// Asks for `view` to be mounted when the queue is served.
    pub fn request_mount(&mut self, view: View)
        ensures
            final(self).spec_queue() == old(self).spec_queue().push(Message::Mount(view)),
            final(self).spec_id() == old(self).spec_id(),
            final(self).spec_nodes() == old(self).spec_nodes(),
            final(self).spec_events() == old(self).spec_events(),
    {
        self.queue.push_mount(view);
    }

    /// Asks for the state of the component under `id` at `depth` to be
    /// changed when the queue is served.
    pub fn request_update(&mut self, id: String, depth: usize, f: T)
        ensures
            final(self).spec_queue() == old(self).spec_queue().push(Message::Update(id, depth, f)),
            final(self).spec_id() == old(self).spec_id(),
            final(self).spec_nodes() == old(self).spec_nodes(),
            final(self).spec_events() == old(self).spec_events(),
    {
        self.queue.push_update(id, depth, f);
    }

    /// Asks for the tree to be unmounted when the queue is served.
    pub fn request_unmount(&mut self)
        ensures
            final(self).spec_queue() == old(self).spec_queue().push(Message::Unmount),
            final(self).spec_id() == old(self).spec_id(),
            final(self).spec_nodes() == old(self).spec_nodes(),
            final(self).spec_events() == old(self).spec_events(),
    {
        self.queue.push_unmount();
    }

    /// Mounts `view` at the root, in the place of a tree mounted there,
    /// and returns the transactions of the passes: that of the mount is
    /// the last.
    pub fn mount(&mut self, view: View) -> (transactions: Vec<Transaction>)
        ensures
            final(self).mounted(),
            final(self).spec_queue().len() == 0,
            final(self).spec_id() == old(self).spec_id(),
            transactions@.len() > 0,
            Self::mount_transaction(transactions@.last(), old(self).spec_id()),
            old(self).spec_queue().len() == 0 && component_free(view@) ==> Self::shows(
                transactions@.last(),
                old(self).spec_id(),
                view@,
            ),
            old(self).spec_queue().len() == 0 ==> final(self).outside_root(*old(self)),
            final(self).mounted_as(transactions@.last(), view@),
            final(self).spec_limit() == old(self).spec_limit(),
    {
        if !self.nodes.is_empty() {
            self.queue.push_unmount();
        }
        self.queue.push_mount(view);
        self.process_queue()
    }

    /// Unmounts the tree: afterwards no node and no event handler stands
    /// at the root or below it.
    pub fn unmount(&mut self) -> (transactions: Vec<Transaction>)
        ensures
            final(self).cleared(),
            final(self).spec_queue().len() == 0,
            final(self).spec_id() == old(self).spec_id(),
            old(self).spec_queue().len() == 0 ==> final(self).outside_root(*old(self))
                && transactions@.len() == (if old(self).mounted() {
                1nat
            } else {
                0nat
            }) && (old(self).mounted() ==> Self::unmount_transaction(
                transactions@[0],
                old(self).spec_id(),
            ) && Self::records_unmount(
                transactions@[0],
                old(self).spec_id(),
                old(self).spec_nodes(),
                old(self).spec_limit(),
                final(self).spec_nodes(),
                final(self).spec_events(),
            )),
            final(self).spec_limit() == old(self).spec_limit(),
    {
        self.queue.push_unmount();
        self.process_queue()
    }

    /// The requests for the changes of state `requests`, in their order.
    pub open spec fn asked_for(requests: Seq<(String, usize, T)>) -> Seq<Message<T>> {
        Seq::new(
            requests.len(),
            |i: int| Message::Update(requests[i].0, requests[i].1, requests[i].2),
        )
    }

    /// Asks for each of the changes of state `requests`, in their order,
    /// each for the node under its identifier at its depth, and serves the
    /// queue. Returns the transactions of the passes, in the order of the
    /// requests. With nothing asked for and nothing waiting, nothing
    /// happens; one request with nothing waiting is served as `update`
    /// serves it.
    pub fn serve(&mut self, requests: Vec<(String, usize, T)>) -> (transactions: Vec<Transaction>)
        ensures
            final(self).spec_queue().len() == 0,
            final(self).spec_id() == old(self).spec_id(),
            final(self).spec_limit() == old(self).spec_limit(),
            transactions@.len() <= old(self).spec_queue().len() + requests@.len(),
            exists|origin: Seq<int>| #[trigger]
                Self::in_order(
                    old(self).spec_queue() + Self::asked_for(requests@),
                    (old(self).spec_queue().len() + requests@.len()) as int,
                    transactions@,
                    origin,
                    old(self).spec_id(),
                ),
            old(self).spec_queue().len() == 0 && requests@.len() == 0 ==> transactions@.len() == 0
                && final(self).spec_nodes() == old(self).spec_nodes() && final(self).spec_events()
                == old(self).spec_events(),
            old(self).spec_queue().len() == 0 && requests@.len() == 1 ==> final(self).around(
                *old(self),
                (requests@[0].0)@,
            ) && Self::view_update(
                *old(self),
                *final(self),
                (requests@[0].0)@,
                requests@[0].1,
                transactions@,
            ) && Self::component_update(
                *old(self),
                *final(self),
                (requests@[0].0)@,
                requests@[0].1,
            ),
    {
        let mut waiting = requests;
        let ghost asked = waiting@;
        proof {
            assert(waiting@ =~= asked.skip(0));
            assert(Self::asked_for(asked.take(0)) =~= Seq::<Message<T>>::empty());
            assert(self.queue@ =~= old(self).queue@ + Self::asked_for(asked.take(0)));
        }
        while waiting.len() > 0
            invariant
                waiting@.len() <= asked.len(),
                self.queue@.len() == old(self).queue@.len() + asked.len() - waiting@.len(),
                waiting@ == asked.skip(asked.len() - waiting@.len()),
                self.queue@ == old(self).queue@ + Self::asked_for(
                    asked.take(asked.len() - waiting@.len()),
                ),
                self.nodes == old(self).nodes,
                self.event_manager == old(self).event_manager,
                self.root_id == old(self).root_id,
                self.limit == old(self).limit,
                old(self).queue@.len() == 0 && asked.len() == 1 && waiting@.len() == 0
                    ==> self.queue@.len() == 1 && self.queue@[0] is Update && (
                self.queue@[0]->Update_0)@ == (asked[0].0)@ && self.queue@[0]->Update_1
                    == asked[0].1,
                waiting@.len() == asked.len() ==> waiting@ == asked && self.queue@ == old(
                    self,
                ).queue@,
            decreases waiting@.len(),
        {
                        let ghost done = asked.len() - waiting@.len();
            let (id, depth, f) = waiting.remove(0);
            self.queue.push_update(id, depth, f);
            proof {
                assert(waiting@ =~= asked.skip(done + 1));
                assert(asked[done] == (id, depth, f));
                assert(Self::asked_for(asked.take(done + 1)) =~= Self::asked_for(
                    asked.take(done),
                ).push(Message::Update(id, depth, f)));
                assert(self.queue@ =~= old(self).queue@ + Self::asked_for(asked.take(done + 1)));
            }
        }
        proof {
            assert(asked.take(asked.len() as int) =~= asked);
        }
        let ghost mid = *self;
        let transactions = self.process_queue();
        proof {
            let origin = choose|origin: Seq<int>| #[trigger]
                Self::in_order(
                    mid.queue@,
                    mid.queue@.len() as int,
                    transactions@,
                    origin,
                    mid.root_id@,
                );
            assert(mid.queue@ == old(self).queue@ + Self::asked_for(asked));
            assert(asked == requests@);
            assert(Self::in_order(
                old(self).spec_queue() + Self::asked_for(requests@),
                (old(self).spec_queue().len() + requests@.len()) as int,
                transactions@,
                origin,
                old(self).spec_id(),
            ));
            if old(self).queue@.len() == 0 && asked.len() == 1 {
                Self::lemma_view_update_rests(
                    mid,
                    *old(self),
                    *self,
                    *self,
                    (asked[0].0)@,
                    asked[0].1,
                    transactions@,
                );
            }
        }
        transactions
    }

    /// Changes the state of the component under `id` at `depth` and
    /// returns the transactions of the passes. Where nothing waits and no
    /// node is mounted there, nothing happens. A node that is no component
    /// has no state to change: it is brought in step with the view that it
    /// holds, and the transaction of that pass is returned unless it holds
    /// nothing. A component is handed the change, asked whether it renders
    /// again, and stands afterwards where it stood, with no change
    /// pending.
    pub fn update(&mut self, id: String, depth: usize, f: T) -> (transactions: Vec<Transaction>)
        ensures
            final(self).spec_queue().len() == 0,
            final(self).spec_id() == old(self).spec_id(),
            old(self).spec_queue().len() == 0 && old(self).spec_nodes().node_at(
                id@,
                depth as int,
            ) is None ==> transactions@.len() == 0 && final(self).unchanged(*old(self)),
            old(self).spec_queue().len() == 0 ==> final(self).around(*old(self), id@)
                && transactions@.len() <= 1 && Self::view_update(
                *old(self),
                *final(self),
                id@,
                depth,
                transactions@,
            ) && Self::component_update(*old(self), *final(self), id@, depth),
            final(self).spec_limit() == old(self).spec_limit(),
    {
        let ghost text = id@;
        self.queue.push_update(id, depth, f);
        let ghost mid = *self;
        let transactions = self.process_queue();
        proof {
            if old(self).queue@.len() == 0 {
                Self::lemma_view_update_rests(
                    mid,
                    *old(self),
                    *self,
                    *self,
                    text,
                    depth,
                    transactions@,
                );
            }
        }
        transactions
    }
}

} // verus!
