//! Ordered lists of property values.

use super::prop::{Prop, PropView};
use vstd::prelude::*;

verus! {

/// A list of property values.
#[derive(Debug)]
pub struct Array {
    pub(crate) items: Vec<Prop>,
}

impl Array {
    pub fn new() -> (array: Self)
        ensures
            array@ == Seq::<PropView>::empty(),
    {
        let array = Array { items: Vec::new() };
        proof {
            array.lemma_view();
            assert(array@ =~= Seq::<PropView>::empty());
        }
        array
    }

    pub fn with_capacity(cap: usize) -> (array: Self)
        ensures
            array@ == Seq::<PropView>::empty(),
    {
        let array = Array { items: Vec::with_capacity(cap) };
        proof {
            array.lemma_view();
            assert(array@ =~= Seq::<PropView>::empty());
        }
        array
    }

    pub fn len(&self) -> (n: usize)
        ensures
            n == self@.len(),
    {
        proof {
            self.lemma_view();
        }
        self.items.len()
    }

    pub fn is_empty(&self) -> (b: bool)
        ensures
            b == (self@.len() == 0),
    {
        self.len() == 0
    }

    /// The item at position `i`.
    pub fn get(&self, i: usize) -> (prop: &Prop)
        requires
            i < self@.len(),
        ensures
            prop@ == self@[i as int],
            decreases_to!(self => prop),
    {
        proof {
            self.lemma_view();
        }
        &self.items[i]
    }

    pub fn push(&mut self, value: Prop)
        ensures
            final(self)@ == old(self)@.push(value@),
    {
        let ghost before = *self;
        self.items.push(value);
        proof {
            before.lemma_view();
            self.lemma_view();
            assert(self@ =~= before@.push(value@));
        }
    }
}

impl Clone for Array {
    fn clone(&self) -> (r: Self)
        ensures
            r@ == self@,
        decreases self,
    {
        let mut copy = Array { items: Vec::new() };
        proof {
            self.lemma_view();
            copy.lemma_view();
        }
        let mut i: usize = 0;
        while i < self.items.len()
            invariant
                i <= self.items.len(),
                self@ == super::prop::prop_views(self.items@),
                copy@ == self@.take(i as int),
            decreases self.items.len() - i,
        {
            let item = self.items[i].clone();
            let ghost before = copy;
            copy.items.push(item);
            proof {
                before.lemma_view();
                copy.lemma_view();
                assert(copy@ =~= self@.take(i + 1));
            }
            i = i + 1;
        }
        proof {
            assert(self@.take(i as int) =~= self@);
        }
        copy
    }
}

} // verus!
