use vstd::prelude::*;

verus! {

/// Failures of the Radau solver.
#[derive(Debug, Clone, Copy, PartialEq, Eq, Structural)]
pub enum RadauError {
    /// A linear system in the Newton iteration could not be solved.
    LinearSolveFailed,
    /// The simplified Newton iteration did not converge.
    NewtonFailed,
    /// The requested method order is not an odd integer of at least 3.
    InvalidOrder(usize),
    /// The step size fell below the configured minimum.
    StepUnderflow,
    /// Inputs of incompatible dimensions.
    DimensionMismatch,
    /// No tableau construction exists for this order.
    TableauNotImplemented(usize),
}

} // verus!
