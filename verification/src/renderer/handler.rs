//! Where transactions go.

use crate::transaction::Transaction;
use vstd::prelude::*;

verus! {

/// A sink of transactions: a channel, a callback, a message to another
/// process.
pub trait Handler {
    /// Takes a finished transaction.
    fn handle(&mut self, transaction: Transaction);
}

} // verus!
