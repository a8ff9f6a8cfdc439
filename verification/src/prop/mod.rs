//! Property values: the attributes of elements and the state of components.

mod array;
mod eq;
mod function;
mod json;
mod number;
mod prop;
mod props;

pub use self::array::Array;
pub use self::function::{Function, Handlers};
pub use self::json::{
    array_to_json, callable_free, json, json_entries, json_items, lemma_json_free, prop_to_json,
    props_to_json,
};
pub use self::number::{
    bits_nan, bits_zero, number_eq, Number, INFINITY, SIGN,
};
pub use self::prop::{
    entry_views, prop_views, same, same_entries, same_items, spec_truthy, Prop, PropView,
};
pub use self::props::Props;
