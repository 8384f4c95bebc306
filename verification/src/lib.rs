//! Integer and combinatorial core of an adaptive-order Radau IIA stiff ODE
//! solver: tableau shapes and the exact generating polynomial of the
//! collocation nodes, the order-change rule, the block layout of the real
//! Schur form, the ageing of the cached Jacobian, the Newton iteration
//! verdicts, and the choice of linear solver.

pub mod error;
pub mod integrator;
pub mod newton;
pub mod order_control;
pub mod tableau;
pub mod transform;

pub use error::RadauError;
pub use integrator::{choose_linear_algebra, LinearSolveStrategy, LinearSolverChoice};
pub use newton::{newton_iteration_verdict, JacobianAge, NewtonLinearAlgebra, NewtonVerdict};
pub use order_control::{next_order, OrderChange, OrderStep};
pub use tableau::{binomial, radau_generator_coefficients, TableauCache, TableauShape};
pub use transform::{real_block_starts, schur_blocks, SchurBlock};
