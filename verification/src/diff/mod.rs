//! The differs: children by key, properties by name.

mod apply_props;
mod diff_children;
mod diff_props;
mod laws;
mod model;
mod props_laws;
mod replay;
mod shape;

pub use self::apply_props::apply_props_patch;
pub use self::diff_children::{
    borrowed_inserts, borrowed_removes, diff_children, places, position_models, sim_model,
    slot_model, view_keys, DiffChildren,
};
pub use self::diff_props::{
    diff_props, diff_props_object, patched, spec_diff_object, spec_diff_props,
};
pub use self::laws::{lemma_all_free, lemma_key_preserved, lemma_same_list_moves_nothing};
pub use self::model::{
    all_free, appended, count_empty, drain, dropped, filled, free_positions, identity_slots,
    is_new, item_key, items_valid, key_map, last_free, lemma_appended_valid, lemma_filled_prefix,
    lemma_filled_step, lemma_free_positions, lemma_key_map, lemma_simulated_valid, matched,
    max_len, pad, reconcile, simulated, slot, spec_diff_children, start, step, ChildDiff, Key,
    Walk,
};
pub use self::props_laws::{
    apply_patch, comparable, finite_deep, lemma_diff_self, lemma_props_finite, lemma_different_maps_patch,
    lemma_round_trip, lemma_same_reflexive, no_null,
};
pub use self::replay::{
    apply_inserts, apply_removes, counts_hold, covered, in_order, inserted,
    lemma_replay_gives_next, padding, passed, plain_removes, replay, stashed, walk_inv, Applied,
};
pub use self::shape::{
    distinct_keys, lemma_simulated_shape, no_item_twice, stands, unkeyed_rising,
};
