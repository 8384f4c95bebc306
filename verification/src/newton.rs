//! Bookkeeping of the simplified Newton iteration: how old the cached
//! Jacobian is, when it must be recomputed, and what each iteration's
//! outcome means for the step.

use vstd::prelude::*;

use crate::order_control::OrderChange;

verus! {

/// How the Newton linear systems are solved.
#[derive(Debug, Clone, Copy, PartialEq, Eq, Structural)]
pub enum NewtonLinearAlgebra {
    /// One direct `(s*n) x (s*n)` LU of `I - h A (x) J`.
    KroneckerFull,
    /// Block back-substitution through the real Schur form of `A^-1`.
    BlockDiagonal,
}

/// The age of the cached Jacobian, counted in converged Newton solves since
/// it was last computed. It is stale, and must be recomputed before the next
/// solve, once `age >= max_age`.
#[derive(Debug, Clone, Copy, PartialEq, Eq, Structural)]
pub struct JacobianAge {
    pub age: usize,
    pub max_age: usize,
}

impl JacobianAge {
    pub open spec fn stale(self) -> bool {
        self.age >= self.max_age
    }

    /// The age after one more converged solve.
    pub open spec fn incremented(self) -> JacobianAge {
        JacobianAge { age: (self.age + 1) as usize, max_age: self.max_age }
    }

    /// The age once a recomputation has been forced.
    pub open spec fn stale_marked(self) -> JacobianAge {
        JacobianAge { age: self.max_age, max_age: self.max_age }
    }

    /// The age right after the Jacobian was recomputed.
    pub open spec fn refreshed(self) -> JacobianAge {
        JacobianAge { age: 0, max_age: self.max_age }
    }

    /// `m` converged solves after a recomputation.
    pub open spec fn fresh_then_aged(max_age: usize, m: nat) -> JacobianAge
        decreases m,
    {
        if m == 0 {
            JacobianAge { age: 0, max_age }
        } else {
            Self::fresh_then_aged(max_age, (m - 1) as nat).incremented()
        }
    }

    /// A cache that has never been filled: stale from the start, and
    /// recomputed after 20 converged solves.
    pub fn new() -> (r: JacobianAge)
        ensures
            r.age == usize::MAX,
            r.max_age == 20,
            r.stale(),
    {
        JacobianAge { age: usize::MAX, max_age: 20 }
    }

    pub fn is_stale(&self) -> (r: bool)
        ensures
            r == self.stale(),
    {
        self.age >= self.max_age
    }

    /// One more converged solve with the cached Jacobian.
    pub fn increment_age(&mut self)
        requires
            old(self).age < usize::MAX,
        ensures
            *final(self) == old(self).incremented(),
            final(self).age == old(self).age + 1,
            final(self).max_age == old(self).max_age,
    {
        self.age = self.age + 1;
    }

    /// Force a recomputation before the next solve.
    pub fn mark_stale(&mut self)
        ensures
            *final(self) == old(self).stale_marked(),
            final(self).stale(),
            final(self).age == old(self).max_age,
            final(self).max_age == old(self).max_age,
    {
        self.age = self.max_age;
    }

    /// Record that the Jacobian has just been recomputed.
    pub fn mark_refreshed(&mut self)
        ensures
            *final(self) == old(self).refreshed(),
            final(self).stale() <==> final(self).max_age == 0,
            final(self).age == 0,
            final(self).max_age == old(self).max_age,
    {
        self.age = 0;
    }

    /// After an accepted step: any change of the method order forces a
    /// recomputation of the Jacobian; an unchanged order leaves it as it is.
    pub fn note_order_change(&mut self, change: OrderChange)
        ensures
            change == OrderChange::Unchanged ==> *final(self) == *old(self),
            change != OrderChange::Unchanged ==> *final(self) == old(self).stale_marked(),
            change != OrderChange::Unchanged ==> final(self).age == old(self).max_age
                && final(self).max_age == old(self).max_age,
    {
        if change != OrderChange::Unchanged {
            self.mark_stale();
        }
    }
}

/// A freshly computed Jacobian stays usable for exactly `max_age` converged
/// solves: after `m` of them it is stale if and only if `m >= max_age`.
pub proof fn lemma_stale_after_max_age_solves(max_age: usize, m: nat)
    requires
        m <= usize::MAX,
    ensures
        JacobianAge::fresh_then_aged(max_age, m).age == m,
        JacobianAge::fresh_then_aged(max_age, m).max_age == max_age,
        JacobianAge::fresh_then_aged(max_age, m).stale() <==> m >= max_age,
    decreases m,
{
    if m > 0 {
        lemma_stale_after_max_age_solves(max_age, (m - 1) as nat);
    }
}

/// `m` converged solves after the state `j`.
pub open spec fn aged(j: JacobianAge, m: nat) -> JacobianAge
    decreases m,
{
    if m == 0 {
        j
    } else {
        aged(j, (m - 1) as nat).incremented()
    }
}

/// None of the operations changes how long a Jacobian stays usable: ageing,
/// forcing a recomputation and recomputing all keep `max_age`. Forcing a
/// recomputation makes the Jacobian stale; recomputing it makes it usable
/// again for exactly `max_age` further converged solves, however often it
/// was forced stale before.
pub proof fn lemma_forced_recomputation_keeps_lifetime(j: JacobianAge, m: nat)
    requires
        m <= usize::MAX,
    ensures
        j.incremented().max_age == j.max_age,
        j.stale_marked().max_age == j.max_age,
        j.stale_marked().age == j.max_age,
        j.stale_marked().stale(),
        j.refreshed().max_age == j.max_age,
        j.refreshed().age == 0,
        aged(j.stale_marked().refreshed(), m).age == m,
        aged(j.stale_marked().refreshed(), m).max_age == j.max_age,
        aged(j.stale_marked().refreshed(), m).stale() <==> m >= j.max_age,
        aged(j.stale_marked().stale_marked().refreshed(), m) == aged(j.refreshed(), m),
    decreases m,
{
    if m > 0 {
        lemma_forced_recomputation_keeps_lifetime(j, (m - 1) as nat);
    }
}

/// What one Newton iteration means for the step.
#[derive(Debug, Clone, Copy, PartialEq, Eq, Structural)]
pub enum NewtonVerdict {
    /// The correction fell below the tolerance after `iterations` iterations.
    Converged { iterations: usize },
    /// Not converged yet; iterate again.
    Continue,
    /// The iteration budget is spent without convergence.
    Failed,
}

/// The decision after Newton iteration number `iter` (counting from 0) out of
/// `max_iter`. `converged` says the correction fell below the tolerance;
/// `large_correction` says it still exceeds 0.5.
///
/// - Converged: the solve succeeded after `iter + 1` iterations, and the
///   cached Jacobian ages by one solve.
/// - Not converged, from the fifth iteration on, with a large correction: the
///   iteration is stagnating, so the Jacobian is marked stale for next time.
/// - Not converged and this was the last iteration: the solve failed and the
///   Jacobian is marked stale.
pub fn newton_iteration_verdict(
    jac: &mut JacobianAge,
    iter: usize,
    max_iter: usize,
    converged: bool,
    large_correction: bool,
) -> (v: NewtonVerdict)
    requires
        iter < max_iter,
        converged ==> old(jac).age < usize::MAX,
    ensures
        converged ==> v == (NewtonVerdict::Converged { iterations: (iter + 1) as usize })
            && *final(jac) == old(jac).incremented(),
        !converged && iter + 1 < max_iter ==> v == NewtonVerdict::Continue && *final(jac) == (
        if iter >= 4 && large_correction {
            old(jac).stale_marked()
        } else {
            *old(jac)
        }),
        !converged && iter + 1 == max_iter ==> v == NewtonVerdict::Failed && *final(jac)
            == old(jac).stale_marked(),
        final(jac).max_age == old(jac).max_age,
        converged ==> final(jac).age == old(jac).age + 1,
        !converged && (iter + 1 == max_iter || (iter >= 4 && large_correction)) ==> final(jac).age
            == old(jac).max_age,
        !converged && iter + 1 < max_iter && !(iter >= 4 && large_correction) ==> final(jac).age
            == old(jac).age,
        v is Converged <==> converged,
        v is Failed <==> !converged && iter + 1 == max_iter,
{
    if converged {
        jac.increment_age();
        return NewtonVerdict::Converged { iterations: iter + 1 };
    }
    if iter >= 4 && large_correction {
        jac.mark_stale();
    }
    if iter + 1 == max_iter {
        jac.mark_stale();
        NewtonVerdict::Failed
    } else {
        NewtonVerdict::Continue
    }
}

} // verus!
