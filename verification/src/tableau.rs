//! Integer part of the Radau IIA tableau construction: which orders exist,
//! how many stages they have, and the exact monomial coefficients of the
//! polynomial whose derivative defines the collocation nodes.

use vstd::prelude::*;

use std::collections::HashMap;

use crate::error::RadauError;

verus! {

// ---------------------------------------------------------------------------
// Binomial coefficients
// ---------------------------------------------------------------------------

/// The binomial coefficient `C(n, k)`, by Pascal's rule.
pub open spec fn binom(n: nat, k: nat) -> nat
    decreases n,
{
    if k == 0 {
        1
    } else if n == 0 {
        0
    } else {
        binom((n - 1) as nat, (k - 1) as nat) + binom((n - 1) as nat, k)
    }
}

/// The `k`-th factor `n - k + 1` of the falling factorial (zero once it runs
/// past `n`).
pub open spec fn falling_factor(n: nat, k: nat) -> nat {
    if k <= n + 1 {
        (n + 1 - k) as nat
    } else {
        0
    }
}

/// The falling factorial `n (n - 1) ... (n - k + 1)`.
pub open spec fn falling(n: nat, k: nat) -> nat
    decreases k,
{
    if k == 0 {
        1
    } else {
        falling(n, (k - 1) as nat) * falling_factor(n, k)
    }
}

/// `k!`
pub open spec fn factorial(k: nat) -> nat
    decreases k,
{
    if k == 0 {
        1
    } else {
        factorial((k - 1) as nat) * k
    }
}

/// The smaller of `k` and `n - k`, for `k <= n`.
pub open spec fn short_side(n: nat, k: nat) -> nat {
    if k <= n - k {
        k
    } else {
        (n - k) as nat
    }
}

proof fn lemma_factorial_positive(k: nat)
    ensures
        factorial(k) >= 1,
    decreases k,
{
    if k > 0 {
        lemma_factorial_positive((k - 1) as nat);
        assert(factorial((k - 1) as nat) * k >= 1) by (nonlinear_arith)
            requires
                factorial((k - 1) as nat) >= 1,
                k >= 1,
        ;
    }
}

/// `falling(n, k) == n * falling(n - 1, k - 1)`.
proof fn lemma_falling_peel(n: nat, k: nat)
    requires
        n >= 1,
        k >= 1,
    ensures
        falling(n, k) == n * falling((n - 1) as nat, (k - 1) as nat),
    decreases k,
{
    if k == 1 {
        assert(falling(n, 0) == 1);
        assert(falling((n - 1) as nat, 0) == 1);
        assert(falling_factor(n, 1) == n);
        assert(falling(n, 1) == falling(n, 0) * falling_factor(n, 1));
    } else {
        lemma_falling_peel(n, (k - 1) as nat);
        let a = falling((n - 1) as nat, (k - 2) as nat);
        let f = falling_factor(n, k);
        assert(falling_factor((n - 1) as nat, (k - 1) as nat) == f);
        assert(falling(n, k) == falling(n, (k - 1) as nat) * f);
        assert(falling((n - 1) as nat, (k - 1) as nat) == a * f);
        assert((n * a) * f == n * (a * f)) by (nonlinear_arith);
    }
}

/// Pascal's rule for falling factorials:
/// `falling(n, k) == falling(n - 1, k) + k * falling(n - 1, k - 1)`.
proof fn lemma_falling_pascal(n: nat, k: nat)
    requires
        n >= 1,
        k >= 1,
    ensures
        falling(n, k) == falling((n - 1) as nat, k) + k * falling((n - 1) as nat, (k - 1) as nat),
{
    lemma_falling_peel(n, k);
    let a = falling((n - 1) as nat, (k - 1) as nat);
    let f = falling_factor((n - 1) as nat, k);
    assert(falling((n - 1) as nat, k) == a * f);
    if k <= n {
        assert(f == n - k);
        assert(a * (n - k) + k * a == n * a) by (nonlinear_arith);
    } else {
        // Both sides vanish: the falling factorial has run past zero.
        lemma_falling_zero_past((n - 1) as nat, (k - 1) as nat);
        assert(a == 0);
        assert(f == 0);
        assert(n * a == 0) by (nonlinear_arith)
            requires
                a == 0,
        ;
        assert(k * a == 0) by (nonlinear_arith)
            requires
                a == 0,
        ;
        assert(a * f == 0) by (nonlinear_arith)
            requires
                a == 0,
        ;
    }
}

/// The falling factorial vanishes once `k > n`.
proof fn lemma_falling_zero_past(n: nat, k: nat)
    requires
        k > n,
    ensures
        falling(n, k) == 0,
    decreases k,
{
    if k == n + 1 {
        assert(falling_factor(n, k) == 0);
        assert(falling(n, (k - 1) as nat) * 0 == 0) by (nonlinear_arith);
    } else {
        lemma_falling_zero_past(n, (k - 1) as nat);
        assert(0 * falling_factor(n, k) == 0) by (nonlinear_arith);
    }
}

/// The binomial coefficient times `k!` is the falling factorial:
/// `C(n, k) * k! == n (n - 1) ... (n - k + 1)`.
pub proof fn lemma_binom_times_factorial(n: nat, k: nat)
    ensures
        binom(n, k) * factorial(k) == falling(n, k),
    decreases n,
{
    if k == 0 {
        assert(factorial(0) == 1);
        assert(falling(n, 0) == 1);
        assert(binom(n, 0) == 1);
    } else if n == 0 {
        lemma_falling_zero_past(0, k);
        assert(0 * factorial(k) == 0) by (nonlinear_arith);
        assert(binom(n, k) == 0);
        assert(binom(n, k) * factorial(k) == falling(n, k));
    } else {
        let n1 = (n - 1) as nat;
        let k1 = (k - 1) as nat;
        lemma_binom_times_factorial(n1, k1);
        lemma_binom_times_factorial(n1, k);
        lemma_falling_pascal(n, k);
        let c1 = binom(n1, k1);
        let c2 = binom(n1, k);
        let fk1 = factorial(k1);
        assert(factorial(k) == fk1 * k);
        assert(binom(n, k) == c1 + c2);
        assert(binom(n1, k) * factorial(k) == falling(n1, k));
        assert(c1 * fk1 == falling(n1, k1));
        assert((c1 + c2) * (fk1 * k) == k * (c1 * fk1) + c2 * (fk1 * k)) by (nonlinear_arith);
        assert(binom(n, k) * factorial(k) == (c1 + c2) * (fk1 * k));
        assert(binom(n, k) * factorial(k) == falling(n, k));
    }
}

/// `C(n, k) >= 1` for `k <= n`.
proof fn lemma_binom_positive(n: nat, k: nat)
    requires
        k <= n,
    ensures
        binom(n, k) >= 1,
    decreases n,
{
    if k > 0 {
        lemma_binom_positive((n - 1) as nat, (k - 1) as nat);
    }
}

/// `C(n, k) == 0` for `k > n`.
proof fn lemma_binom_zero_past(n: nat, k: nat)
    requires
        k > n,
    ensures
        binom(n, k) == 0,
    decreases n,
{
    if n > 0 {
        lemma_binom_zero_past((n - 1) as nat, (k - 1) as nat);
        lemma_binom_zero_past((n - 1) as nat, k);
    }
}

/// The falling factorial grows with `k` up to `k == n`.
proof fn lemma_falling_monotone(n: nat, i: nat, j: nat)
    requires
        i <= j <= n,
    ensures
        falling(n, i) <= falling(n, j),
    decreases j - i,
{
    if i < j {
        lemma_falling_monotone(n, i, (j - 1) as nat);
        let a = falling(n, (j - 1) as nat);
        assert(falling_factor(n, j) >= 1);
        assert(a <= a * falling_factor(n, j)) by (nonlinear_arith)
            requires
                falling_factor(n, j) >= 1,
        ;
    }
}

/// Symmetry of the binomial coefficients: `C(n, k) == C(n, n - k)`.
pub proof fn lemma_binom_symmetric(n: nat, k: nat)
    requires
        k <= n,
    ensures
        binom(n, k) == binom(n, (n - k) as nat),
    decreases n,
{
    if n == 0 {
    } else if k == 0 {
        lemma_binom_zero_past((n - 1) as nat, (n - 1) as nat + 1);
        assert(binom(n, n) == binom((n - 1) as nat, (n - 1) as nat) + binom((n - 1) as nat, n));
        lemma_binom_zero_past((n - 1) as nat, n);
        lemma_binom_all(n);
    } else if k == n {
        lemma_binom_all(n);
    } else {
        lemma_binom_symmetric((n - 1) as nat, (k - 1) as nat);
        lemma_binom_symmetric((n - 1) as nat, k);
    }
}

/// The boundary values and Pascal's rule, which together determine every
/// binomial coefficient: `C(n, 0) == C(n, n) == 1`, `C(n, k) == 0` for
/// `k > n`, and `C(n + 1, k + 1) == C(n, k) + C(n, k + 1)`.
pub proof fn lemma_binom_pascal(n: nat, k: nat)
    ensures
        binom(n, 0) == 1,
        binom(n, n) == 1,
        k > n ==> binom(n, k) == 0,
        binom(n + 1, k + 1) == binom(n, k) + binom(n, k + 1),
        binom(n, 1) == n,
{
    lemma_binom_all(n);
    lemma_binom_one(n);
    if k > n {
        lemma_binom_zero_past(n, k);
    }
}

/// `C(n, n) == 1`.
proof fn lemma_binom_all(n: nat)
    ensures
        binom(n, n) == 1,
    decreases n,
{
    if n > 0 {
        lemma_binom_all((n - 1) as nat);
        lemma_binom_zero_past((n - 1) as nat, n);
    }
}

/// The binomial coefficient `C(n, k)`, zero for `k > n`.
///
/// The numerator `n (n - 1) ... (n - k' + 1)`, with `k' = min(k, n - k)`, is
/// accumulated in a `u128`, which bounds the inputs.
pub fn binomial(n: usize, k: usize) -> (r: u128)
    requires
        k <= n ==> falling(n as nat, short_side(n as nat, k as nat)) <= u128::MAX,
    ensures
        r == binom(n as nat, k as nat),
        k > n ==> r == 0,
        k <= n ==> r * factorial(k as nat) == falling(n as nat, k as nat),
{
    if k > n {
        proof {
            lemma_binom_zero_past(n as nat, k as nat);
        }
        return 0;
    }
    let kk: usize = if k <= n - k { k } else { n - k };
    let mut num: u128 = 1;
    let mut den: u128 = 1;
    let mut i: usize = 0;
    while i < kk
        invariant
            kk == short_side(n as nat, k as nat),
            kk <= n,
            i <= kk,
            num == falling(n as nat, i as nat),
            den == factorial(i as nat),
            falling(n as nat, kk as nat) <= u128::MAX,
        decreases kk - i,
    {
        proof {
            lemma_falling_monotone(n as nat, (i + 1) as nat, kk as nat);
            lemma_binom_times_factorial(n as nat, (i + 1) as nat);
            lemma_binom_positive(n as nat, (i + 1) as nat);
            let c = binom(n as nat, (i + 1) as nat);
            let f = factorial((i + 1) as nat);
            assert(f <= c * f) by (nonlinear_arith)
                requires
                    c >= 1,
            ;
            assert(falling_factor(n as nat, (i + 1) as nat) == n - i);
        }
        num = num * ((n - i) as u128);
        den = den * ((i + 1) as u128);
        i = i + 1;
    }
    proof {
        lemma_binom_times_factorial(n as nat, kk as nat);
        lemma_factorial_positive(kk as nat);
        vstd::arithmetic::div_mod::lemma_div_by_multiple(
            binom(n as nat, kk as nat) as int,
            factorial(kk as nat) as int,
        );
        if kk != k {
            lemma_binom_symmetric(n as nat, k as nat);
        }
        lemma_binom_times_factorial(n as nat, k as nat);
    }
    num / den
}


// ---------------------------------------------------------------------------
// Tableau shape
// ---------------------------------------------------------------------------

/// The integer data of a Radau IIA tableau: classical order `2s - 1`, `s`
/// stages, and an embedded error estimator of order `s`.
#[derive(Debug, Clone, Copy, PartialEq, Eq, Structural)]
pub struct TableauShape {
    pub order: usize,
    pub stages: usize,
    pub embedded_order: usize,
}

/// Radau IIA tableaux exist for every odd order of at least 3.
pub open spec fn is_supported_order(order: nat) -> bool {
    order >= 3 && order % 2 == 1
}

/// The shape of the tableau for `order`, or the error for an unsupported one.
pub open spec fn shape_for_order(order: nat) -> Result<TableauShape, RadauError> {
    if is_supported_order(order) {
        Ok(
            TableauShape {
                order: order as usize,
                stages: ((order + 1) / 2) as usize,
                embedded_order: ((order + 1) / 2) as usize,
            },
        )
    } else {
        Err(RadauError::InvalidOrder(order as usize))
    }
}

impl TableauShape {
    /// A shape of `s >= 2` stages has order `2s - 1` and embedded order `s`.
    pub open spec fn wf(self) -> bool {
        &&& self.stages >= 2
        &&& self.order == 2 * self.stages - 1
        &&& self.embedded_order == self.stages
    }

    /// The shape of the Radau IIA tableau of classical order `order`:
    /// `s = (order + 1) / 2` stages. Any odd order `>= 3` is accepted; any
    /// other order is refused with `InvalidOrder(order)`.
    pub fn for_order(order: usize) -> (r: Result<TableauShape, RadauError>)
        ensures
            r == shape_for_order(order as nat),
            r is Ok <==> is_supported_order(order as nat),
            r matches Ok(t) ==> t.wf() && t.order == order,
            r is Ok <==> (order >= 3 && order % 2 == 1),
            r matches Ok(t) ==> t.order == order && t.stages * 2 == order + 1
                && t.embedded_order == t.stages,
            r is Err ==> r == Err::<TableauShape, RadauError>(RadauError::InvalidOrder(order)),
    {
        if order < 3 || order % 2 == 0 {
            return Err(RadauError::InvalidOrder(order));
        }
        // `order` is odd, so `(order + 1) / 2 == order / 2 + 1` without the
        // risk of overflowing at the top of the range.
        let s: usize = order / 2 + 1;
        Ok(TableauShape { order: order, stages: s, embedded_order: s })
    }
}

/// Every stage count `s >= 2` is reached by exactly the order `2s - 1`, and
/// the shape built for that order has `s` stages again.
pub proof fn lemma_stage_order_roundtrip(s: nat)
    requires
        s >= 2,
        2 * s - 1 <= usize::MAX,
    ensures
        shape_for_order((2 * s - 1) as nat) matches Ok(t) && t.stages == s && t.order == 2 * s
            - 1 && t.embedded_order == s && t.wf(),
{
}

/// Every shape built for an order is well formed and records that order.
pub proof fn lemma_shape_wf(order: nat)
    requires
        order <= usize::MAX,
    ensures
        shape_for_order(order) matches Ok(t) ==> t.wf() && t.order == order,
{
}

// ---------------------------------------------------------------------------
// The polynomial defining the collocation nodes
// ---------------------------------------------------------------------------

/// `(-1)^k * C(s, k)`, the coefficient of `x^(s-k)` in `(x - 1)^s`.
pub open spec fn signed_binom(s: nat, k: nat) -> int {
    if k % 2 == 0 {
        binom(s, k) as int
    } else {
        -(binom(s, k) as int)
    }
}

/// The coefficient of `x^j` in `x^(s-1) (x - 1)^s`, a polynomial of degree
/// `2s - 1` whose `(s-1)`-th derivative has the `s` Radau IIA nodes as roots.
pub open spec fn generator_coeff(s: nat, j: nat) -> int {
    if s >= 1 && s - 1 <= j && j <= 2 * s - 1 {
        signed_binom(s, (2 * s - 1 - j) as nat)
    } else {
        0
    }
}

/// `C(s, k)` fits in an `i128` whenever its `u128` numerator does.
proof fn lemma_binom_fits_i128(n: nat, k: nat)
    requires
        k <= n,
        falling(n, short_side(n, k)) <= u128::MAX,
        n <= usize::MAX,
    ensures
        binom(n, k) <= i128::MAX,
{
    let kk = short_side(n, k);
    if kk != k {
        lemma_binom_symmetric(n, k);
    }
    assert(binom(n, k) == binom(n, kk));
    lemma_binom_times_factorial(n, kk);
    if kk == 0 {
        assert(binom(n, 0) == 1);
    } else if kk == 1 {
        lemma_binom_one(n);
    } else {
        lemma_factorial_at_least_two(kk);
        let c = binom(n, kk);
        let f = factorial(kk);
        assert(c * 2 <= c * f) by (nonlinear_arith)
            requires
                f >= 2,
        ;
        assert(c * f == falling(n, kk));
        assert(c * 2 <= u128::MAX);
    }
}

/// `C(n, 1) == n`.
proof fn lemma_binom_one(n: nat)
    ensures
        binom(n, 1) == n,
    decreases n,
{
    if n > 0 {
        lemma_binom_one((n - 1) as nat);
        assert(binom((n - 1) as nat, 0) == 1);
    }
}

proof fn lemma_factorial_at_least_two(k: nat)
    requires
        k >= 2,
    ensures
        factorial(k) >= 2,
    decreases k,
{
    lemma_factorial_positive((k - 1) as nat);
    let f = factorial((k - 1) as nat);
    assert(f * k >= 2) by (nonlinear_arith)
        requires
            f >= 1,
            k >= 2,
    ;
}

/// The monomial coefficients `p[0..2s]` of `x^(s-1) (x - 1)^s`, lowest degree
/// first: `p[2s-1-k] == (-1)^k C(s, k)` for `k <= s`, all others zero.
///
/// Each `C(s, k)` is computed by [`binomial`], whose `u128` numerator bounds
/// `s`; `2s` must fit in a `usize`.
pub fn radau_generator_coefficients(s: usize) -> (p: Vec<i128>)
    requires
        s >= 1,
        2 * s <= usize::MAX,
        falling(s as nat, (s / 2) as nat) <= u128::MAX,
    ensures
        p@.len() == 2 * s,
        forall|j: int| 0 <= j < 2 * s ==> #[trigger] p@[j] == generator_coeff(s as nat, j as nat),
        forall|j: int| 0 <= j < s - 1 ==> #[trigger] p@[j] == 0,
        forall|k: int|
            0 <= k <= s ==> #[trigger] p@[2 * s - 1 - k] == (if k % 2 == 0 {
                binom(s as nat, k as nat) as int
            } else {
                -(binom(s as nat, k as nat) as int)
            }),
{
    let len: usize = 2 * s;
    let mut p: Vec<i128> = Vec::new();
    let mut j: usize = 0;
    while j < len
        invariant
            len == 2 * s,
            s >= 1,
            j <= len,
            p@.len() == j,
            falling(s as nat, (s / 2) as nat) <= u128::MAX,
            forall|i: int| 0 <= i < j ==> #[trigger] p@[i] == generator_coeff(s as nat, i as nat),
        decreases len - j,
    {
        if j + 1 < s {
            p.push(0);
        } else {
            let k: usize = len - 1 - j;
            proof {
                let kk = short_side(s as nat, k as nat);
                assert(kk <= s / 2);
                lemma_falling_monotone(s as nat, kk, (s / 2) as nat);
                lemma_binom_fits_i128(s as nat, k as nat);
            }
            let c: u128 = binomial(s, k);
            let magnitude: i128 = c as i128;
            if k % 2 == 0 {
                p.push(magnitude);
            } else {
                p.push(-magnitude);
            }
        }
        j = j + 1;
    }
    proof {
        assert forall|k: int| 0 <= k <= s implies #[trigger] p@[2 * s - 1 - k] == (if k % 2
            == 0 {
            binom(s as nat, k as nat) as int
        } else {
            -(binom(s as nat, k as nat) as int)
        }) by {
            let j = 2 * s - 1 - k;
            assert(p@[j] == generator_coeff(s as nat, j as nat));
            assert((2 * s - 1 - j) as nat == k);
        }
    }
    p
}

/// `x^(s-1) (x - 1)^s` for one stage is `x - 1`.
pub proof fn lemma_generator_one_stage()
    ensures
        generator_coeff(1, 0) == -1,
        generator_coeff(1, 1) == 1,
        forall|j: nat| j >= 2 ==> generator_coeff(1, j) == 0,
{
    assert(binom(1, 0) == 1);
    assert(binom(0, 0) == 1);
    assert(binom(0, 1) == 0);
    assert(binom(1, 1) == binom(0, 0) + binom(0, 1));
}

/// The coefficient of `x^j` in a polynomial with coefficients `c`, where
/// `c(j)` is zero for negative `j`.
pub open spec fn coeff_below(s: nat, j: int) -> int {
    if j < 0 {
        0
    } else {
        generator_coeff(s, j as nat)
    }
}

/// Going from `s` to `s + 1` stages multiplies the polynomial by
/// `x (x - 1) = x^2 - x`: the coefficient of `x^j` becomes that of `x^(j-2)`
/// minus that of `x^(j-1)`. With the one-stage polynomial `x - 1`, this fixes
/// every coefficient of `x^(s-1) (x - 1)^s`.
pub proof fn lemma_generator_times_x_x_minus_one(s: nat, j: nat)
    requires
        s >= 1,
    ensures
        generator_coeff(s + 1, j) == coeff_below(s, j - 2) - coeff_below(s, j - 1),
{
    let t = s + 1;
    if j < s {
        // Below the lowest degree s of x^s (x-1)^(s+1), every term vanishes.
    } else if j > 2 * s + 1 {
    } else {
        let k = (2 * t - 1 - j) as int;
        // generator_coeff(s, j - 2) has index 2s - 1 - (j - 2) == k,
        // generator_coeff(s, j - 1) has index 2s - 1 - (j - 1) == k - 1.
        if k == 0 {
            // j == 2s + 1: the leading coefficient 1 of x^(2s+1).
            assert(binom(t, 0) == 1);
            assert(binom(s, 0) == 1);
            assert(generator_coeff(s, (j - 2) as nat) == signed_binom(s, 0));
            assert(coeff_below(s, j - 1) == 0);
        } else if k == t {
            // j == s: the lowest coefficient.
            lemma_binom_all(t);
            lemma_binom_all(s);
            lemma_binom_zero_past(s, t);
            assert(coeff_below(s, j - 2) == 0);
            assert(generator_coeff(s, (j - 1) as nat) == signed_binom(s, s));
            assert(generator_coeff(t, j) == signed_binom(t, t));
            assert(t % 2 != s % 2);
        } else {
            let kn = k as nat;
            let km = (k - 1) as nat;
            assert(binom(t, kn) == binom(s, km) + binom(s, kn));
            assert(generator_coeff(t, j) == signed_binom(t, kn));
            assert(generator_coeff(s, (j - 2) as nat) == signed_binom(s, kn));
            assert(generator_coeff(s, (j - 1) as nat) == signed_binom(s, km));
            assert(kn % 2 != km % 2);
        }
    }
}


// ---------------------------------------------------------------------------
// Tableau cache
// ---------------------------------------------------------------------------

/// Tableaux built so far, one per order. A tableau is built the first time
/// its order is asked for and handed out unchanged from then on.
pub struct TableauCache<T> {
    cache: HashMap<usize, T>,
}

impl<T> TableauCache<T> {
    /// The tableaux held, by order.
    pub closed spec fn entries(&self) -> Map<usize, T> {
        self.cache@
    }

    /// An empty cache.
    pub fn new() -> (r: TableauCache<T>)
        ensures
            r.entries() == Map::<usize, T>::empty(),
    {
        TableauCache { cache: HashMap::new() }
    }

    /// The tableau of `order`: the cached one if there is one; otherwise the
    /// one `build` makes, which is cached before it is returned. A failed
    /// build is returned as is and leaves the cache unchanged.
    pub fn get<F: Fn(usize) -> Result<T, RadauError>>(&mut self, order: usize, build: F) -> (r:
        Result<&T, RadauError>)
        requires
            call_requires(build, (order,)),
        ensures
            old(self).entries().contains_key(order) ==> r == Ok::<&T, RadauError>(
                &old(self).entries()[order],
            ) && final(self).entries() == old(self).entries(),
            forall|k: usize|
                #![trigger final(self).entries()[k]]
                old(self).entries().contains_key(k) ==> final(self).entries().contains_key(k)
                    && final(self).entries()[k] == old(self).entries()[k],
            !old(self).entries().contains_key(order) ==> match r {
                Ok(t) => call_ensures(build, (order,), Ok::<T, RadauError>(*t))
                    && final(self).entries() == old(self).entries().insert(order, *t),
                Err(e) => call_ensures(build, (order,), Err::<T, RadauError>(e))
                    && final(self).entries() == old(self).entries(),
            },
    {
        broadcast use vstd::std_specs::hash::group_hash_axioms;

        if !self.cache.contains_key(&order) {
            let t = build(order)?;
            self.cache.insert(order, t);
        }
        match self.cache.get(&order) {
            Some(t) => Ok(t),
            // Unreachable: the entry was present or has just been inserted.
            None => Err(RadauError::TableauNotImplemented(order)),
        }
    }
}

impl<T> Default for TableauCache<T> {
    fn default() -> (r: TableauCache<T>)
        ensures
            r.entries() == Map::<usize, T>::empty(),
    {
        TableauCache::new()
    }
}

} // verus!
