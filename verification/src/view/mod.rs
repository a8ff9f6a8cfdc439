//! The view model: texts, elements and the kinds of elements.

mod component;
mod eq;
pub mod macros;
mod view;
mod view_kind;

pub use self::component::Component;
pub use self::view::{
    clone_views, model_key, same_key, same_view, same_views, view_models, Children, View,
    ViewModel,
};
pub use self::view_kind::{same_kind, ComponentRef, KindModel, ViewKind};
