//! What the engine asks of components.

use super::view::{Children, View};
use super::view_kind::ComponentRef;
use crate::prop::{PropView, Props};
use crate::renderer::Instance;
use vstd::prelude::*;
use vstd::view::View as _;

verus! {

/// The components of an application. Each method is told by `component`
/// which component it is asked about.
///
/// The engine promises nothing about what the methods return and asks
/// nothing of it: whatever a component renders is mounted.
pub trait Component {
    /// The view that the component shows for its state, properties and
    /// children.
    fn render(
        &mut self,
        component: &ComponentRef,
        instance: &Instance,
        props: &Props,
        children: &Children,
    ) -> View;

    /// The state that the component starts with. Unless a component says
    /// otherwise, it starts with no state.
    fn initial_state(&mut self, component: &ComponentRef, props: &Props) -> (state: Props)
        default_ensures
            state@ == Map::<Seq<char>, PropView>::empty(),
            state.keys() == Seq::<Seq<char>>::empty(),
    {
        Props::new()
    }

    /// The context that the component hands down to what it renders.
    /// Unless a component says otherwise, it hands nothing down.
    fn context(&mut self, component: &ComponentRef, props: &Props) -> (context: Props)
        default_ensures
            context@ == Map::<Seq<char>, PropView>::empty(),
            context.keys() == Seq::<Seq<char>>::empty(),
    {
        Props::new()
    }

    /// The context of the component, given what its parent hands down.
    /// Unless a component says otherwise, it is the context that the
    /// component declared itself, and nothing of the parent's.
    fn inherit_context(
        &mut self,
        component: &ComponentRef,
        context: Props,
        parent_context: &Props,
    ) -> (inherited: Props)
        default_ensures
            inherited == context,
    {
        context
    }

    /// Called before the component is mounted.
    fn will_mount(&mut self, component: &ComponentRef, instance: &Instance) {
    }

    /// Called before the component is unmounted.
    fn will_unmount(&mut self, component: &ComponentRef, instance: &Instance) {
    }

    /// Called before the component is rendered again.
    fn will_update(&mut self, component: &ComponentRef, instance: &Instance) {
    }

    /// Called when the component is given a new view.
    fn receive_props(
        &mut self,
        component: &ComponentRef,
        instance: &Instance,
        next_state: &Props,
        next_props: &Props,
        next_children: &Children,
    ) {
    }

    /// Whether the component is to be rendered again. Unless a component
    /// says otherwise, it always is.
    fn should_update(
        &mut self,
        component: &ComponentRef,
        prev_state: &Props,
        prev_props: &Props,
        prev_children: &Children,
        next_state: &Props,
        next_props: &Props,
        next_children: &Children,
    ) -> (render_again: bool)
        default_ensures
            render_again,
    {
        true
    }
}

} // verus!
