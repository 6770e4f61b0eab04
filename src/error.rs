use vstd::prelude::*;

verus! {

/// A fault in the authored model, kept apart from "no plan exists".
#[derive(Debug, PartialEq, Eq)]
pub enum PlanError {
    /// A precondition names a variable that the state does not hold.
    MissingVariable(String),
    /// A comparison, distance or arithmetic step on this variable mixes tags,
    /// or does arithmetic on a flag.
    TypeMismatch(String),
    /// Incrementing or decrementing this variable leaves the `i64` range.
    Overflow(String),
    /// The cost of the plan found does not fit in `usize`.
    CostOverflow,
}

} // verus!
