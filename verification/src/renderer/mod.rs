//! The node engine: the registry of mounted nodes and the passes over it.

mod events;
mod handler;
mod instance;
mod laws;
mod node;
mod nodes;
mod patches;
mod queue;
mod renderer;
mod root_ids;
mod tree;
mod updater;

pub use self::events::{
    apply_bindings, binds, holds, is_event_name, opt_props, selected, spec_is_event_name,
};
pub use self::handler::Handler;
pub use self::instance::Instance;
pub use self::laws::{
    lemma_changed_child_is_replaced, lemma_child_that_went_is_removed,
    lemma_keyed_child_keeps_its_node, lemma_keyed_child_updates_in_place, lemma_model_keys,
    lemma_node_that_cannot_take_is_replaced, lemma_update_patches, model_keys,
};
pub use self::node::{pending_state, spec_should_update, takes_in_place, Node, NodeKind};
pub use self::nodes::Nodes;
pub use self::patches::{
    children_present, element_patches, emit_element_patches, ends_as_element, inserts_child,
    inserts_listed, lemma_no_new_slot, new_slots, order_moves, patches_kept, props_changed,
    removals_kept, replaces,
};
pub use self::queue::{Message, Queue, StateTransform};
pub use self::renderer::{
    component_free, fits, same_around, same_events_outside, same_outside, spec_root_id, Renderer,
};
pub use self::root_ids::RootIds;
pub use self::tree::{
    adds_no_node, agree_under, apart_tree, below, child_at, expands, flags_stay, handlers_go,
    keeps_nodes,
    lemma_apart_below, lemma_child_not_above, lemma_mounted_layer_rests, lemma_mounted_rests,
    lemma_present_stays, rendered_below,
    lemma_shown_agrees, lemma_shown_where_mounted, lemma_spread_rests, lemma_unmounted_rests,
    lemma_under_child, mounted_tree, present, same_under, shown_from, shown_node, spread,
    unmounted,
};
pub use self::updater::{component_id_name, Updater};
