//! The requests that wait for their pass.

use crate::prop::Props;
use crate::view::View;
use vstd::prelude::*;
use vstd::view::View as _;

verus! {

/// A change of state: from the state as it stands to the next one.
pub trait StateTransform {
    /// The next state.
    fn apply(&self, state: &Props) -> Props;
}

/// A request to the renderer: to mount a view, to change the state of the
/// component at an identifier and depth, or to unmount.
pub enum Message<T> {
    Mount(View),
    Update(String, usize, T),
    Unmount,
}

/// The requests in the order they came in; the first in is the first out.
pub struct Queue<T> {
    messages: Vec<Message<T>>,
}

impl<T> Queue<T> {
    /// The waiting requests, oldest first.
    pub closed spec fn view(self) -> Seq<Message<T>> {
        self.messages@
    }

    pub fn new() -> (queue: Self)
        ensures
            queue@ == Seq::<Message<T>>::empty(),
    {
        Queue { messages: Vec::new() }
    }

    pub fn len(&self) -> (n: usize)
        ensures
            n == self@.len(),
    {
        self.messages.len()
    }

    pub fn is_empty(&self) -> (b: bool)
        ensures
            b == (self@.len() == 0),
    {
        self.messages.len() == 0
    }

    fn push(&mut self, message: Message<T>)
        ensures
            final(self)@ == old(self)@.push(message),
    {
        self.messages.push(message);
    }

    pub fn push_mount(&mut self, view: View)
        ensures
            final(self)@ == old(self)@.push(Message::Mount(view)),
    {
        self.push(Message::Mount(view));
    }

    pub fn push_update(&mut self, id: String, depth: usize, f: T)
        ensures
            final(self)@ == old(self)@.push(Message::Update(id, depth, f)),
    {
        self.push(Message::Update(id, depth, f));
    }

    pub fn push_unmount(&mut self)
        ensures
            final(self)@ == old(self)@.push(Message::Unmount),
    {
        self.push(Message::Unmount);
    }

    /// Takes the oldest request out.
    pub fn pop(&mut self) -> (message: Option<Message<T>>)
        ensures
            match message {
                Some(m) => old(self)@.len() > 0 && m == old(self)@[0] && final(self)@ == old(
                    self,
                )@.drop_first(),
                None => old(self)@.len() == 0 && final(self)@ == old(self)@,
            },
    {
        if self.messages.len() == 0 {
            None
        } else {
            let message = self.messages.remove(0);
            assert(self.messages@ =~= old(self).messages@.drop_first());
            Some(message)
        }
    }
}

} // verus!
