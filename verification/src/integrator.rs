//! Integrator-level decisions that do not touch the state vector: which
//! linear algebra the Newton solve uses for a given problem dimension, and
//! when the user is warned about a slow explicit choice.

use vstd::prelude::*;

use crate::newton::NewtonLinearAlgebra;

verus! {

/// The user's choice of linear solver for the Newton systems.
#[derive(Debug, Clone, Copy, PartialEq, Eq, Structural)]
pub enum LinearSolveStrategy {
    /// Kronecker up to the threshold dimension, block-diagonal above it.
    Auto,
    /// Always the direct Kronecker LU.
    Kronecker,
    /// Always the Schur block-diagonal solve.
    BlockDiagonal,
}

/// The linear algebra to use, and whether to warn now.
#[derive(Debug, Clone, Copy, PartialEq, Eq, Structural)]
pub struct LinearSolverChoice {
    pub algebra: NewtonLinearAlgebra,
    pub warn: bool,
}

/// The selection rule. `Auto` takes the Kronecker solve for
/// `n <= block_diag_warn_below` and the block-diagonal one above. An explicit
/// block-diagonal choice below the threshold is honoured, with a warning the
/// first time only (`warned` records whether it was already given).
pub open spec fn linear_solver_choice(
    strategy: LinearSolveStrategy,
    n: nat,
    block_diag_warn_below: nat,
    warned: bool,
) -> LinearSolverChoice {
    match strategy {
        LinearSolveStrategy::Auto => LinearSolverChoice {
            algebra: if n <= block_diag_warn_below {
                NewtonLinearAlgebra::KroneckerFull
            } else {
                NewtonLinearAlgebra::BlockDiagonal
            },
            warn: false,
        },
        LinearSolveStrategy::Kronecker => LinearSolverChoice {
            algebra: NewtonLinearAlgebra::KroneckerFull,
            warn: false,
        },
        LinearSolveStrategy::BlockDiagonal => LinearSolverChoice {
            algebra: NewtonLinearAlgebra::BlockDiagonal,
            warn: n < block_diag_warn_below && !warned,
        },
    }
}

/// Choose the Newton linear algebra for a problem of dimension `n`, and say
/// whether the below-threshold warning is due now; `warned` becomes true
/// once it has been given.
pub fn choose_linear_algebra(
    strategy: LinearSolveStrategy,
    n: usize,
    block_diag_warn_below: usize,
    warned: &mut bool,
) -> (r: LinearSolverChoice)
    ensures
        r == linear_solver_choice(strategy, n as nat, block_diag_warn_below as nat, *old(warned)),
        *final(warned) == (*old(warned) || r.warn),
        strategy == LinearSolveStrategy::Auto ==> (r.algebra == NewtonLinearAlgebra::KroneckerFull
            <==> n <= block_diag_warn_below) && !r.warn,
        strategy == LinearSolveStrategy::Kronecker ==> r.algebra
            == NewtonLinearAlgebra::KroneckerFull && !r.warn,
        strategy == LinearSolveStrategy::BlockDiagonal ==> r.algebra
            == NewtonLinearAlgebra::BlockDiagonal && (r.warn <==> n < block_diag_warn_below
            && !*old(warned)),
{
    match strategy {
        LinearSolveStrategy::Auto => {
            if n <= block_diag_warn_below {
                LinearSolverChoice { algebra: NewtonLinearAlgebra::KroneckerFull, warn: false }
            } else {
                LinearSolverChoice { algebra: NewtonLinearAlgebra::BlockDiagonal, warn: false }
            }
        },
        LinearSolveStrategy::Kronecker => {
            LinearSolverChoice { algebra: NewtonLinearAlgebra::KroneckerFull, warn: false }
        },
        LinearSolveStrategy::BlockDiagonal => {
            let warn: bool = n < block_diag_warn_below && !*warned;
            if warn {
                *warned = true;
            }
            LinearSolverChoice { algebra: NewtonLinearAlgebra::BlockDiagonal, warn }
        },
    }
}

/// The warning about a below-threshold block-diagonal choice is given at most
/// once: whatever two successive selections are made, with the flag carried
/// from the first to the second, they do not both warn.
pub proof fn lemma_warns_at_most_once(
    strategy1: LinearSolveStrategy,
    n1: nat,
    strategy2: LinearSolveStrategy,
    n2: nat,
    block_diag_warn_below: nat,
    warned: bool,
)
    ensures
        ({
            let first = linear_solver_choice(strategy1, n1, block_diag_warn_below, warned);
            let second = linear_solver_choice(
                strategy2,
                n2,
                block_diag_warn_below,
                warned || first.warn,
            );
            !(first.warn && second.warn) && (warned ==> !first.warn)
        }),
{
}

/// What each strategy selects, for every dimension `n` and threshold:
/// `Auto` takes the Kronecker solve exactly when `n <= block_diag_warn_below`
/// and the block-diagonal one otherwise, without warning; `Kronecker` and
/// `BlockDiagonal` are honoured whatever `n` is; only `BlockDiagonal` warns,
/// and exactly when `n` is below the threshold and no warning was given yet.
pub proof fn lemma_strategy_selects(
    strategy: LinearSolveStrategy,
    n: nat,
    block_diag_warn_below: nat,
    warned: bool,
)
    ensures
        ({
            let c = linear_solver_choice(strategy, n, block_diag_warn_below, warned);
            &&& strategy == LinearSolveStrategy::Auto ==> (c.algebra
                == NewtonLinearAlgebra::KroneckerFull <==> n <= block_diag_warn_below) && (c.algebra
                == NewtonLinearAlgebra::BlockDiagonal <==> n > block_diag_warn_below)
            &&& strategy == LinearSolveStrategy::Kronecker ==> c.algebra
                == NewtonLinearAlgebra::KroneckerFull
            &&& strategy == LinearSolveStrategy::BlockDiagonal ==> c.algebra
                == NewtonLinearAlgebra::BlockDiagonal
            &&& c.warn <==> (strategy == LinearSolveStrategy::BlockDiagonal && n
                < block_diag_warn_below && !warned)
        }),
{
}

/// Explicit strategies are always honoured; only `Auto` looks at the
/// dimension.
pub proof fn lemma_explicit_strategy_honoured(n: nat, block_diag_warn_below: nat, warned: bool)
    ensures
        linear_solver_choice(LinearSolveStrategy::Kronecker, n, block_diag_warn_below, warned).algebra
            == NewtonLinearAlgebra::KroneckerFull,
        linear_solver_choice(
            LinearSolveStrategy::BlockDiagonal,
            n,
            block_diag_warn_below,
            warned,
        ).algebra == NewtonLinearAlgebra::BlockDiagonal,
{
}

} // verus!
