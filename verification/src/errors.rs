use vstd::prelude::*;

verus! {

/// The error values that task accessors, path queries and the scheduler
/// return.  Every failure is reported as a value; nothing in this crate
/// panics.
#[derive(Debug)]
pub enum CpmError {
    /// A task identifier was inserted twice; carries the offending id.
    DuplicateId(String),
    /// A timestamp or a sum of timestamps fell outside the representable
    /// range (a late finish of zero, or an overflowing addition).
    ValueOutOfRange,
    /// A derived value was requested before the propagation computed its
    /// inputs; carries the id of the task that is missing a value.
    NotCalculated(String),
    /// A late finish smaller than the early finish was found: the graph
    /// was edited mid-computation or the propagation is inconsistent.
    NegativeFloat(String),
    /// A query that needs a finished schedule was made while the
    /// scheduler was not in the ready state.
    StateMismatch,
    /// The dependency graph contains a cycle, so the fixed-point
    /// propagation cannot finish.
    CycleDetected,
}

} // verus!
