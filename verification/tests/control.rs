use radau_rs::integrator::{choose_linear_algebra, LinearSolveStrategy};
use radau_rs::newton::{newton_iteration_verdict, JacobianAge, NewtonLinearAlgebra, NewtonVerdict};
use radau_rs::order_control::{next_order, OrderChange};

#[test]
fn cached_jacobian_starts_stale() {
    let jac = JacobianAge::new();
    assert!(jac.is_stale());
}

#[test]
fn cached_jacobian_not_stale_after_refresh() {
    let mut jac = JacobianAge::new();
    jac.mark_refreshed();
    assert!(!jac.is_stale());
}

#[test]
fn cached_jacobian_becomes_stale_after_max_age_increments() {
    let mut jac = JacobianAge::new();
    jac.mark_refreshed();
    for _ in 0..jac.max_age {
        jac.increment_age();
    }
    assert!(jac.is_stale());
}

#[test]
fn jacobian_usable_for_max_age_minus_one_solves() {
    let mut jac = JacobianAge::new();
    jac.mark_refreshed();
    for _ in 0..jac.max_age - 1 {
        jac.increment_age();
        assert!(!jac.is_stale());
    }
    jac.increment_age();
    assert!(jac.is_stale());
    assert_eq!(jac.age, 20);
}

#[test]
fn mark_stale_forces_recomputation() {
    let mut jac = JacobianAge::new();
    jac.mark_refreshed();
    jac.increment_age();
    jac.mark_stale();
    assert!(jac.is_stale());
    assert_eq!(jac.age, jac.max_age);
}

#[test]
fn order_change_marks_jacobian_stale() {
    let mut jac = JacobianAge::new();
    jac.mark_refreshed();
    jac.note_order_change(OrderChange::Unchanged);
    assert!(!jac.is_stale());
    jac.note_order_change(OrderChange::Raised);
    assert!(jac.is_stale());
    jac.mark_refreshed();
    jac.note_order_change(OrderChange::Lowered);
    assert!(jac.is_stale());
}

#[test]
fn raise_moves_up_one_step() {
    let r = next_order(9, 5, 13, true, false);
    assert_eq!(r.change, OrderChange::Raised);
    assert_eq!(r.order, 13);
}

#[test]
fn raise_is_capped_at_max() {
    let r = next_order(13, 5, 13, true, false);
    assert_eq!(r.change, OrderChange::Unchanged);
    assert_eq!(r.order, 13);
}

#[test]
fn lower_moves_down_one_step() {
    let r = next_order(13, 5, 25, false, true);
    assert_eq!(r.change, OrderChange::Lowered);
    assert_eq!(r.order, 9);
}

#[test]
fn lower_is_floored_at_min() {
    let r = next_order(5, 5, 13, false, true);
    assert_eq!(r.change, OrderChange::Unchanged);
    assert_eq!(r.order, 5);
}

#[test]
fn no_signal_leaves_order_unchanged() {
    let r = next_order(9, 5, 13, false, false);
    assert_eq!(r.change, OrderChange::Unchanged);
    assert_eq!(r.order, 9);
}

#[test]
fn raise_takes_precedence_over_lower() {
    let r = next_order(9, 5, 13, true, true);
    assert_eq!(r.change, OrderChange::Raised);
    // At the top the lowering applies instead.
    let r = next_order(13, 5, 13, true, true);
    assert_eq!(r.change, OrderChange::Lowered);
    assert_eq!(r.order, 9);
}

#[test]
fn sustained_raises_stay_on_ladder() {
    let mut order = 5;
    for _ in 0..30 {
        order = next_order(order, 5, 25, true, false).order;
        assert!(order >= 5 && order <= 25 && (order - 5) % 4 == 0);
    }
    assert_eq!(order, 25);
    for _ in 0..30 {
        order = next_order(order, 5, 25, false, true).order;
        assert!(order >= 5 && order <= 25 && (order - 5) % 4 == 0);
    }
    assert_eq!(order, 5);
}

#[test]
fn auto_picks_kronecker_up_to_threshold() {
    let mut warned = false;
    let c = choose_linear_algebra(LinearSolveStrategy::Auto, 5, 5, &mut warned);
    assert_eq!(c.algebra, NewtonLinearAlgebra::KroneckerFull);
    assert!(!c.warn);
    let c = choose_linear_algebra(LinearSolveStrategy::Auto, 6, 5, &mut warned);
    assert_eq!(c.algebra, NewtonLinearAlgebra::BlockDiagonal);
    assert!(!c.warn);
    assert!(!warned);
}

#[test]
fn explicit_kronecker_is_honoured() {
    let mut warned = false;
    let c = choose_linear_algebra(LinearSolveStrategy::Kronecker, 100, 5, &mut warned);
    assert_eq!(c.algebra, NewtonLinearAlgebra::KroneckerFull);
    assert!(!c.warn);
}

#[test]
fn small_block_diagonal_warns_once() {
    let mut warned = false;
    let c = choose_linear_algebra(LinearSolveStrategy::BlockDiagonal, 2, 5, &mut warned);
    assert_eq!(c.algebra, NewtonLinearAlgebra::BlockDiagonal);
    assert!(c.warn);
    assert!(warned);
    let c = choose_linear_algebra(LinearSolveStrategy::BlockDiagonal, 2, 5, &mut warned);
    assert_eq!(c.algebra, NewtonLinearAlgebra::BlockDiagonal);
    assert!(!c.warn);
}

#[test]
fn block_diagonal_at_threshold_does_not_warn() {
    let mut warned = false;
    let c = choose_linear_algebra(LinearSolveStrategy::BlockDiagonal, 5, 5, &mut warned);
    assert!(!c.warn);
    assert!(!warned);
}

#[test]
fn newton_converged_ages_jacobian() {
    let mut jac = JacobianAge::new();
    jac.mark_refreshed();
    let v = newton_iteration_verdict(&mut jac, 2, 12, true, false);
    assert_eq!(v, NewtonVerdict::Converged { iterations: 3 });
    assert_eq!(jac.age, 1);
}

#[test]
fn newton_early_large_correction_keeps_jacobian() {
    let mut jac = JacobianAge::new();
    jac.mark_refreshed();
    let v = newton_iteration_verdict(&mut jac, 3, 12, false, true);
    assert_eq!(v, NewtonVerdict::Continue);
    assert!(!jac.is_stale());
}

#[test]
fn newton_stagnation_marks_jacobian_stale() {
    let mut jac = JacobianAge::new();
    jac.mark_refreshed();
    let v = newton_iteration_verdict(&mut jac, 4, 12, false, true);
    assert_eq!(v, NewtonVerdict::Continue);
    assert!(jac.is_stale());
}

#[test]
fn newton_budget_exhausted_fails() {
    let mut jac = JacobianAge::new();
    jac.mark_refreshed();
    let v = newton_iteration_verdict(&mut jac, 11, 12, false, false);
    assert_eq!(v, NewtonVerdict::Failed);
    assert!(jac.is_stale());
}

#[test]
fn newton_converging_on_last_iteration_succeeds() {
    let mut jac = JacobianAge::new();
    jac.mark_refreshed();
    let v = newton_iteration_verdict(&mut jac, 11, 12, true, false);
    assert_eq!(v, NewtonVerdict::Converged { iterations: 12 });
    assert!(!jac.is_stale());
}
