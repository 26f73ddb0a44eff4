use vstd::prelude::*;

use vstd::arithmetic::div_mod::{lemma_div_multiples_vanish, lemma_fundamental_div_mod, lemma_mod_bound};

verus! {

/// `n!`.
pub open spec fn factorial(n: nat) -> nat
    decreases n,
{
    if n == 0 {
        1
    } else {
        n * factorial((n - 1) as nat)
    }
}

/// The binomial coefficient `C(n, k)`, by Pascal's rule.
pub open spec fn binomial(n: nat, k: nat) -> nat
    decreases n,
{
    if k == 0 {
        1
    } else if n == 0 {
        0
    } else {
        binomial((n - 1) as nat, (k - 1) as nat) + binomial((n - 1) as nat, k)
    }
}

/// The number of items chosen in the computation of `C(n, r)`: the smaller
/// of `r` and `n - r` when `r` exceeds half of `n` (rounded down).
pub open spec fn chosen(n: nat, r: nat) -> nat {
    if r > n / 2 {
        (n - r) as nat
    } else {
        r
    }
}

/// What `checked_binomial(n, r)` answers: `C(n, r)` when every step of its
/// product fits in 64 bits, else nothing.
pub open spec fn binomial_result(n: nat, r: nat) -> Option<u64> {
    if steps_fit(n, chosen(n, r)) {
        Some(binomial(n, r) as u64)
    } else {
        None
    }
}

/// Step `i` of the product for `C(n, k)`: the running value
/// `C(n - k + i - 1, i - 1)` times the next factor `n - k + i` fits in 64 bits.
pub open spec fn step_fits(n: nat, k: nat, i: nat) -> bool {
    binomial((n - k + i - 1) as nat, (i - 1) as nat) * (n - k + i) <= u64::MAX
}

/// Every step of the product for `C(n, k)` fits in 64 bits.
pub open spec fn steps_fit(n: nat, k: nat) -> bool {
    forall|i: nat| 1 <= i <= k ==> #[trigger] step_fits(n, k, i)
}

proof fn lemma_factorial_positive(n: nat)
    ensures
        factorial(n) >= 1,
    decreases n,
{
    if n > 0 {
        lemma_factorial_positive((n - 1) as nat);
        let f = factorial((n - 1) as nat);
        assert(n * f >= 1) by (nonlinear_arith)
            requires
                n >= 1,
                f >= 1,
        ;
    }
}

/// `n!` does not decrease as `n` grows.
pub proof fn lemma_factorial_monotone(i: nat, n: nat)
    requires
        i <= n,
    ensures
        factorial(i) <= factorial(n),
    decreases n - i,
{
    if i < n {
        lemma_factorial_monotone(i, (n - 1) as nat);
        lemma_factorial_positive((n - 1) as nat);
        let f = factorial((n - 1) as nat);
        assert(f <= n * f) by (nonlinear_arith)
            requires
                n >= 1,
                f >= 1,
        ;
    }
}

/// For a positive divisor `d`: `x > m / d` exactly when `x * d > m`.
proof fn lemma_quotient_bound(x: int, d: int, m: int)
    requires
        0 < d,
        0 <= x,
        0 <= m,
    ensures
        (x > m / d) <==> (x * d > m),
{
    lemma_fundamental_div_mod(m, d);
    lemma_mod_bound(m, d);
    let q = m / d;
    let r = m % d;
    if x > q {
        assert(x * d >= (q + 1) * d) by (nonlinear_arith)
            requires
                x >= q + 1,
                d > 0,
        ;
        assert((q + 1) * d == d * q + d) by (nonlinear_arith);
    } else {
        assert(x * d <= q * d) by (nonlinear_arith)
            requires
                x <= q,
                d > 0,
        ;
        assert(q * d == d * q) by (nonlinear_arith);
    }
}

/// Computes `n!` in 64 bits; `None` when it does not fit.
pub fn checked_factorial(n: u32) -> (r: Option<u64>)
    ensures
        factorial(n as nat) <= u64::MAX ==> r == Some(factorial(n as nat) as u64),
        factorial(n as nat) > u64::MAX ==> r is None,
{
    let mut result: u64 = 1;
    let mut i: u64 = 1;
    while i <= n as u64
        invariant
            1 <= i <= n as u64 + 1,
            result == factorial((i - 1) as nat),
            1 <= result,
        decreases n as u64 + 1 - i,
    {
        proof {
            lemma_quotient_bound(i as int, result as int, u64::MAX as int);
            assert(factorial(i as nat) == i * factorial((i - 1) as nat));
            assert(i * result == result * i) by (nonlinear_arith);
        }
        if i > u64::MAX / result {
            proof {
                lemma_factorial_monotone(i as nat, n as nat);
            }
            return None;
        }
        let next = result * i;
        proof {
            assert(next >= 1) by (nonlinear_arith)
                requires
                    next == result * i,
                    result >= 1,
                    i >= 1,
            ;
        }
        result = next;
        i = i + 1;
    }
    Some(result)
}

/// `C(n, k) == 0` when `k > n`.
pub proof fn lemma_binomial_above(n: nat, k: nat)
    requires
        k > n,
    ensures
        binomial(n, k) == 0,
    decreases n,
{
    if n > 0 {
        lemma_binomial_above((n - 1) as nat, (k - 1) as nat);
        lemma_binomial_above((n - 1) as nat, k);
    }
}

/// `C(n, n) == 1`.
pub proof fn lemma_binomial_diagonal(n: nat)
    ensures
        binomial(n, n) == 1,
    decreases n,
{
    if n > 0 {
        lemma_binomial_diagonal((n - 1) as nat);
        lemma_binomial_above((n - 1) as nat, n);
    }
}

/// Symmetry: `C(n, k) == C(n, n - k)` for `k <= n`.
pub proof fn lemma_binomial_symmetric(n: nat, k: nat)
    requires
        k <= n,
    ensures
        binomial(n, k) == binomial(n, (n - k) as nat),
    decreases n,
{
    if k == 0 {
        lemma_binomial_diagonal(n);
    } else if k == n {
        lemma_binomial_diagonal(n);
    } else {
        lemma_binomial_symmetric((n - 1) as nat, (k - 1) as nat);
        lemma_binomial_symmetric((n - 1) as nat, k);
        assert(((n - 1) - (k - 1)) as nat == (n - k) as nat);
        assert(binomial(n, (n - k) as nat) == binomial((n - 1) as nat, (n - k - 1) as nat)
            + binomial((n - 1) as nat, (n - k) as nat));
    }
}

/// Absorption: `i * C(m, i) == m * C(m - 1, i - 1)` for positive `m` and `i`.
pub proof fn lemma_binomial_absorption(m: nat, i: nat)
    requires
        m >= 1,
        i >= 1,
    ensures
        i * binomial(m, i) == m * binomial((m - 1) as nat, (i - 1) as nat),
    decreases m,
{
    let b = binomial(m, i);
    if m == 1 {
        let c = binomial(0, (i - 1) as nat);
        lemma_binomial_above(0, i);
        if i > 1 {
            lemma_binomial_above(0, (i - 1) as nat);
            assert(b == 0);
            assert(i * b == m * c) by (nonlinear_arith)
                requires
                    b == 0,
                    c == 0,
            ;
        } else {
            assert(b == 1);
            assert(c == 1);
            assert(i * b == m * c) by (nonlinear_arith)
                requires
                    b == 1,
                    c == 1,
                    i == 1,
                    m == 1,
            ;
        }
    } else {
        let m1 = (m - 1) as nat;
        let m2 = (m - 2) as nat;
        let i1 = (i - 1) as nat;
        lemma_binomial_absorption(m1, i);
        let c = binomial(m1, i1);
        let d = binomial(m1, i);
        assert(b == c + d);
        assert(i * d == m1 * binomial(m2, i1));
        if i == 1 {
            assert(c == 1);
            assert(binomial(m2, 0) == 1);
            assert(i * b == m * c) by (nonlinear_arith)
                requires
                    i == 1,
                    b == c + d,
                    c == 1,
                    i * d == m1 * 1,
                    m1 == m - 1,
            ;
        } else {
            let i2 = (i - 2) as nat;
            lemma_binomial_absorption(m1, i1);
            let e = binomial(m2, i2);
            let g = binomial(m2, i1);
            assert(i1 * c == m1 * e);
            assert(c == e + g);
            assert(i * b == m * c) by (nonlinear_arith)
                requires
                    b == c + d,
                    i * d == m1 * g,
                    i1 * c == m1 * e,
                    c == e + g,
                    i1 == i - 1,
                    m1 == m - 1,
            ;
        }
    }
}

/// Computes `C(n, r)` in 64 bits, as the running product
/// `C(n - k + i, i) = C(n - k + i - 1, i - 1) * (n - k + i) / i` for
/// `i = 1..=k`, where `k` is `r` or `n - r` (see `chosen`); `None` when a
/// product before its division does not fit.
pub fn checked_binomial(n: u64, r: u64) -> (res: Option<u64>)
    requires
        r <= n,
    ensures
        res == binomial_result(n as nat, r as nat),
        res matches Some(v) ==> v == binomial(n as nat, r as nat),
{
    let k = if r > n / 2 {
        n - r
    } else {
        r
    };
    let ghost kk = chosen(n as nat, r as nat);
    assert(k == kk);
    let base = n - k;
    let mut result: u64 = 1;
    let mut i: u64 = 1;
    while i <= k
        invariant
            k <= n,
            base == n - k,
            k == kk,
            kk == chosen(n as nat, r as nat),
            1 <= i <= k + 1,
            result == binomial((base + i - 1) as nat, (i - 1) as nat),
            forall|j: nat| 1 <= j < i ==> #[trigger] step_fits(n as nat, k as nat, j),
        decreases k + 1 - i,
    {
        let factor = base + i;
        proof {
            lemma_quotient_bound(result as int, factor as int, u64::MAX as int);
        }
        if result > u64::MAX / factor {
            assert(!step_fits(n as nat, k as nat, i as nat));
            return None;
        }
        let product = result * factor;
        proof {
            lemma_binomial_absorption(factor as nat, i as nat);
            let bm = binomial(factor as nat, i as nat);
            assert(product == i * bm) by (nonlinear_arith)
                requires
                    product == result * factor,
                    i * bm == factor * result,
            ;
            lemma_div_multiples_vanish(bm as int, i as int);
            assert(step_fits(n as nat, k as nat, i as nat));
        }
        result = product / i;
        i = i + 1;
    }
    proof {
        assert(base + k == n);
        if r > n / 2 {
            lemma_binomial_symmetric(n as nat, r as nat);
        }
    }
    Some(result)
}

/// Choosing `r` of `n` and choosing `n - r` of `n` are answered alike,
/// overflow included.
pub proof fn lemma_binomial_result_symmetric(n: nat, r: nat)
    requires
        r <= n,
    ensures
        binomial_result(n, r) == binomial_result(n, (n - r) as nat),
{
    lemma_binomial_symmetric(n, r);
    assert(chosen(n, r) == chosen(n, (n - r) as nat));
}

/// Along a diagonal of Pascal's triangle the coefficients do not decrease:
/// `C(d + i, i) <= C(d + j, j)` for `i <= j`.
pub proof fn lemma_binomial_diagonal_monotone(d: nat, i: nat, j: nat)
    requires
        i <= j,
    ensures
        binomial(d + i, i) <= binomial(d + j, j),
    decreases j - i,
{
    if i < j {
        let j1 = (j - 1) as nat;
        lemma_binomial_diagonal_monotone(d, i, j1);
        lemma_binomial_absorption(d + j, j);
        let lo = binomial(d + j1, j1);
        let hi = binomial(d + j, j);
        assert((d + j - 1) as nat == d + j1);
        assert((j - 1) as nat == j1);
        assert(hi >= lo) by (nonlinear_arith)
            requires
                j * hi == (d + j) * lo,
                j >= 1,
        ;
    }
}

/// `checked_binomial(n, r)` answers exactly `C(n, r)` whenever `k * C(n, r)`
/// fits in 64 bits, where `k` is the number of steps of its product (see
/// `chosen`).
pub proof fn lemma_binomial_result_exact(n: nat, r: nat)
    requires
        r <= n,
        chosen(n, r) * binomial(n, r) <= u64::MAX,
    ensures
        binomial_result(n, r) == Some(binomial(n, r) as u64),
{
    let k = chosen(n, r);
    let d = (n - k) as nat;
    lemma_binomial_symmetric(n, r);
    assert(binomial(n, k) == binomial(n, r));
    assert forall|i: nat| 1 <= i <= k implies #[trigger] step_fits(n, k, i) by {
        let m = d + i;
        lemma_binomial_absorption(m, i);
        lemma_binomial_diagonal_monotone(d, i, k);
        assert(d + k == n);
        let c = binomial(m, i);
        let ck = binomial(n, k);
        let prev = binomial((m - 1) as nat, (i - 1) as nat);
        assert((n - k + i - 1) as nat == (m - 1) as nat);
        assert(n - k + i == m);
        assert(i * c <= k * ck) by (nonlinear_arith)
            requires
                i <= k,
                c <= ck,
        ;
        assert(prev * m == i * c) by (nonlinear_arith)
            requires
                i * c == m * prev,
        ;
    }
}

} // verus!
