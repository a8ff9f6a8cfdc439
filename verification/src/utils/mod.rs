//! Identifiers and the paths between them.

mod text;
mod traverse;
mod view_id;

pub use self::text::{decimal, decimal_string, digit_char, str_same};
pub use self::traverse::{
    handed_out, is_ancestor_id_of, is_boundary, kept, last_index_of, lemma_ancestor_reflexive,
    lemma_ancestor_transitive, lemma_appended_is_below, next_descendant_id, parent_id, path_ids,
    segment_end, spec_is_ancestor, spec_is_boundary, spec_last_index_of, spec_next_descendant_id,
    spec_parent_id, spec_path, spec_visited, steps_left, traverse_path, visited_ids,
};
pub use self::view_id::{
    child_view_id, key_text, opt_text, spec_child_view_id, spec_view_id, view_id,
};
