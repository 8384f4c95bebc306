# radau_rs

An adaptive-order Radau IIA solver for stiff ODEs, split in two:

- `src/` is the verified library (Verus). It holds everything that is not
  floating-point arithmetic: which method orders exist and how many stages
  they have, the exact integer coefficients of the polynomial that defines
  the collocation nodes, the binomial coefficients behind them, the cache of
  tableaux by order, the order-change rule of the adaptive controller, the
  block layout of the real Schur form of `A^-1`, the ageing of the cached
  Jacobian, the verdict after each Newton iteration, and the choice of linear
  solver.
- `app/` is ordinary Rust on top of it: every `f64` computation (tableau
  coefficients, node root finding, Newton linear algebra through `nalgebra`,
  error estimation, step-size control, dense output, the integration loop)
  and the error messages.

`tests/` exercises the library.
