//! A virtual-tree reconciliation engine.
//!
//! A view tree describes what should exist; the engine keeps a registry of
//! mounted nodes, diffs each new render against the previous one and emits
//! the mutations as an ordered transaction for a renderer to replay.

pub mod diff;
pub mod event_manager;
pub mod prop;
pub mod renderer;
pub mod str_map;
pub mod transaction;
pub mod utils;
pub mod view;

pub use self::diff::{
    apply_props_patch, diff_children, diff_props, diff_props_object, DiffChildren,
};
pub use self::event_manager::EventManager;
pub use self::prop::{
    array_to_json, prop_to_json, props_to_json, Array, Function, Handlers, Number, Prop, Props,
};
pub use self::renderer::{
    Handler, Instance, Message, Node, NodeKind, Nodes, Queue, Renderer, RootIds, StateTransform,
    Updater,
};
pub use self::str_map::StrMap;
pub use self::transaction::{Order, Patch, RawView, Transaction};
pub use self::utils::{
    child_view_id, is_ancestor_id_of, is_boundary, last_index_of, next_descendant_id, parent_id,
    path_ids, traverse_path, view_id, visited_ids,
};
pub use self::view::{Children, Component, ComponentRef, View, ViewKind};
