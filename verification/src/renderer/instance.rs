//! What a component sees of itself.

use super::updater::Updater;
use crate::prop::Props;
use vstd::prelude::*;

verus! {

/// A mounted component as its own methods see it: its state, its context
/// and its address.
#[derive(Debug)]
pub struct Instance {
    pub state: Props,
    pub context: Props,
    pub updater: Updater,
}

impl Instance {
    pub fn new(state: Props, context: Props, updater: Updater) -> (instance: Self)
        ensures
            instance.state == state,
            instance.context == context,
            instance.updater == updater,
    {
        Instance { state, context, updater }
    }

    pub fn state(&self) -> (state: &Props)
        ensures
            *state == self.state,
    {
        &self.state
    }

    pub fn context(&self) -> (context: &Props)
        ensures
            *context == self.context,
    {
        &self.context
    }

    pub fn updater(&self) -> (updater: &Updater)
        ensures
            *updater == self.updater,
    {
        &self.updater
    }
}

} // verus!
