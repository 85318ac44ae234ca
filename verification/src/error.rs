//! Errors that abort a batch.

use vstd::prelude::*;

verus! {

/// A failure of the scheduler itself, as opposed to one of a transaction.
#[derive(Clone, Copy, Debug, PartialEq, Eq, Structural)]
pub enum SchedulerError {
    /// The scheduler was handed a state that cannot arise, such as a
    /// dependency graph for another number of transactions.
    InvariantViolation,
}

impl SchedulerError {
    /// A one-line description of the error.
    pub fn message(&self) -> (s: &'static str)
        ensures
            s@ == "invariant violation: batch and scheduler state do not fit together"@,
    {
        "invariant violation: batch and scheduler state do not fit together"
    }
}

} // verus!
