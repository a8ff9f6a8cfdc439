//! The numbers of the roots.

use vstd::prelude::*;

verus! {

/// A counter that hands out the numbers of roots, one after the other.
/// Renderers that take their numbers from one counter have roots of
/// their own.
#[derive(Debug)]
pub struct RootIds {
    upcoming: usize,
}

impl RootIds {
    /// The number that is handed out next.
    pub closed spec fn spec_upcoming(self) -> usize {
        self.upcoming
    }

    /// A counter that begins at zero.
    pub fn new() -> (ids: Self)
        ensures
            ids.spec_upcoming() == 0,
    {
        RootIds { upcoming: 0 }
    }

    /// A counter that begins at `first`.
    pub fn starting_at(first: usize) -> (ids: Self)
        ensures
            ids.spec_upcoming() == first,
    {
        RootIds { upcoming: first }
    }

    /// The number that is handed out next.
    pub fn upcoming(&self) -> (index: usize)
        ensures
            index == self.spec_upcoming(),
    {
        self.upcoming
    }

    /// Hands out the next number and steps on by one. After the greatest
    /// number the count begins again at zero.
    pub fn next(&mut self) -> (index: usize)
        ensures
            index == old(self).spec_upcoming(),
            final(self).spec_upcoming() == (if index == usize::MAX {
                0
            } else {
                index + 1
            }),
    {
        let index: usize = self.upcoming;
        self.upcoming = if index == usize::MAX {
            0
        } else {
            index + 1
        };
        index
    }
}

} // verus!
