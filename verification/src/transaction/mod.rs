//! The vocabulary in which the engine hands its mutations out.

mod order;
mod patch;
mod raw_view;
mod transaction;

pub use self::order::{insert_models, remove_models, Order};
pub use self::patch::Patch;
pub use self::raw_view::{component_open, kind_text, raw, raw_all, raw_models, RawView};
pub use self::transaction::Transaction;
