//! Fixed-point continuous accrual.
//!
//! Amounts are integers, rates are annual rates in parts per billion and time
//! is counted in milliseconds. An exponent `x` is a fixed-point number with
//! `ONE` standing for 1.0; `a * (e^x - 1)` is evaluated as the Taylor series
//! `sum_{k=1..TERMS} a * x^k / k!`, each term derived from the previous one
//! with a truncating division.
use vstd::arithmetic::div_mod::{
    lemma_div_by_multiple, lemma_div_is_ordered, lemma_div_is_ordered_by_denominator,
};
use vstd::arithmetic::mul::lemma_mul_inequality;
use vstd::prelude::*;

verus! {

/// Fixed-point scale of an exponent: `ONE` stands for 1.0.
pub const ONE: u128 = 1_000_000_000;

/// Number of series terms evaluated per unit-sized step.
pub const TERMS: u128 = 20;

/// Milliseconds in a (Julian) year of 365.25 days.
pub const MS_PER_YEAR: u64 = 31_557_600_000;

/// The exponent `rate * elapsed`, with the rate given per year in parts per
/// billion and the elapsed time in milliseconds, as a fixed-point number.
pub open spec fn exponent(rate_ppb: u64, elapsed_ms: u64) -> nat {
    (rate_ppb as nat * elapsed_ms as nat / MS_PER_YEAR as nat) as nat
}

/// The `k`-th series term of `a * e^x`: `a * x^k / k!`, each step truncated.
pub open spec fn series_term(a: nat, x: nat, k: nat) -> nat
    decreases k,
{
    if k == 0 {
        a
    } else {
        (series_term(a, x, (k - 1) as nat) * x / (k * ONE as nat)) as nat
    }
}

/// The sum of the series terms `1..=n` of `a * e^x`.
pub open spec fn series_sum(a: nat, x: nat, n: nat) -> nat
    decreases n,
{
    if n == 0 {
        0
    } else {
        series_sum(a, x, (n - 1) as nat) + series_term(a, x, n)
    }
}

/// `a * (e^x - 1)` for an exponent of at most one.
pub open spec fn expm1_part(a: nat, x: nat) -> nat {
    series_sum(a, x, TERMS as nat)
}

/// `a * e^x`, compounded in unit-sized steps of the exponent.
pub open spec fn compound(a: nat, x: nat) -> nat
    decreases x,
{
    if x <= ONE {
        a + expm1_part(a, x)
    } else {
        compound(a + expm1_part(a, ONE as nat), (x - ONE) as nat)
    }
}

/// What vests out of `locked` over the elapsed time: `locked * (e^x - 1)`,
/// never more than `locked` itself. An exponent beyond one already unlocks
/// everything, so it is evaluated at one.
pub open spec fn unlock_amount(locked: u64, rate_ppb: u64, elapsed_ms: u64) -> nat {
    let x = exponent(rate_ppb, elapsed_ms);
    let g = expm1_part(locked as nat, if x <= ONE { x } else { ONE as nat });
    if g <= locked { g } else { locked as nat }
}

/// Interest earned by `base` over the elapsed time, `base * (e^x - 1)`,
/// never more than `cap`.
pub open spec fn interest_amount(base: u64, rate_ppb: u64, elapsed_ms: u64, cap: u64) -> nat {
    let g = compound(base as nat, exponent(rate_ppb, elapsed_ms)) - base;
    if g <= cap { g as nat } else { cap as nat }
}

/// Pending amounts below this are taken to have arrived in full.
pub const NEGLIGIBLE: u64 = 1_000;

/// Largest growth of `ONE` that `growth_factor` accounts for.
pub const FACTOR_CAP: u64 = 1_000_000_000_000_000_000;

/// `e^x` over the elapsed time as a fixed-point number, `ONE` standing for 1.0.
pub open spec fn growth_factor(rate_ppb: u64, elapsed_ms: u64) -> nat {
    ONE as nat + interest_amount(ONE as u64, rate_ppb, elapsed_ms, FACTOR_CAP)
}

/// What arrives out of a pending amount over the elapsed time: the amount
/// decays as `pending * e^-x`, and what no longer remains has arrived; a
/// negligible remainder arrives too.
pub open spec fn arrival_amount(pending: u64, rate_ppb: u64, elapsed_ms: u64) -> nat {
    let remaining = pending as nat * ONE as nat / growth_factor(rate_ppb, elapsed_ms);
    if remaining < NEGLIGIBLE {
        pending as nat
    } else {
        (pending - remaining) as nat
    }
}

/// What arrives is at most what was pending, and what remains pending is
/// nothing or more than negligible.
pub proof fn lemma_arrival_bounded(pending: u64, rate_ppb: u64, elapsed_ms: u64)
    ensures
        arrival_amount(pending, rate_ppb, elapsed_ms) <= pending,
        pending - arrival_amount(pending, rate_ppb, elapsed_ms) == 0
            || pending - arrival_amount(pending, rate_ppb, elapsed_ms) >= NEGLIGIBLE,
{
    let f = growth_factor(rate_ppb, elapsed_ms);
    lemma_div_is_ordered_by_denominator((pending as nat * ONE as nat) as int, ONE as int, f as int);
    lemma_div_by_multiple(pending as int, ONE as int);
}

proof fn lemma_term_step(t: nat, x: nat, k: nat)
    requires
        x <= ONE,
        k >= 1,
    ensures
        t * x / (k * ONE as nat) <= t,
{
    let d = k * ONE as nat;
    lemma_mul_inequality(x as int, ONE as int, t as int);
    lemma_mul_inequality(1, k as int, ONE as int);
    lemma_mul_inequality(ONE as int, d as int, t as int);
    assert(t * x <= t * d) by (nonlinear_arith)
        requires
            x * t <= ONE * t,
            ONE * t <= d * t,
    ;
    lemma_div_is_ordered((t * x) as int, (t * d) as int, d as int);
    lemma_div_by_multiple(t as int, d as int);
}

/// Each term of the series for an exponent of at most one is at most `a`,
/// so `n` terms sum to at most `n * a`.
proof fn lemma_series_bounded(a: nat, x: nat, n: nat)
    requires
        x <= ONE,
    ensures
        series_term(a, x, n) <= a,
        series_sum(a, x, n) <= n * a,
    decreases n,
{
    if n > 0 {
        lemma_series_bounded(a, x, (n - 1) as nat);
        lemma_term_step(series_term(a, x, (n - 1) as nat), x, n);
        assert(series_sum(a, x, n) <= n * a) by (nonlinear_arith)
            requires
                series_sum(a, x, n) == series_sum(a, x, (n - 1) as nat) + series_term(a, x, n),
                series_sum(a, x, (n - 1) as nat) <= (n - 1) * a,
                series_term(a, x, n) <= a,
        ;
    }
}

/// A zero exponent adds nothing.
pub proof fn lemma_series_zero(a: nat, n: nat)
    ensures
        series_sum(a, 0, n) == 0,
    decreases n,
{
    if n > 0 {
        lemma_series_zero(a, (n - 1) as nat);
        assert(series_term(a, 0, (n - 1) as nat) * 0 == 0);
    }
}

/// Compounding never shrinks an amount.
pub proof fn lemma_compound_grows(a: nat, x: nat)
    ensures
        compound(a, x) >= a,
    decreases x,
{
    if x > ONE {
        lemma_compound_grows(a + expm1_part(a, ONE as nat), (x - ONE) as nat);
    }
}

/// `a * (e^x - 1)` for `x <= ONE`, as the truncated series.
fn expm1_series(a: u128, x: u128) -> (r: u128)
    requires
        x <= ONE,
        a <= 2 * (u64::MAX as u128),
    ensures
        r == expm1_part(a as nat, x as nat),
        r <= TERMS * a,
{
    let mut term: u128 = a;
    let mut sum: u128 = 0;
    let mut k: u128 = 1;
    while k <= TERMS
        invariant
            1 <= k <= TERMS + 1,
            x <= ONE,
            a <= 2 * (u64::MAX as u128),
            term == series_term(a as nat, x as nat, (k - 1) as nat),
            sum == series_sum(a as nat, x as nat, (k - 1) as nat),
            term <= a,
            sum <= (k - 1) * a,
        decreases TERMS + 1 - k,
    {
        proof {
            lemma_mul_inequality(x as int, ONE as int, term as int);
            lemma_mul_inequality(term as int, a as int, ONE as int);
            lemma_series_bounded(a as nat, x as nat, k as nat);
        }
        assert(term * x <= a * ONE) by (nonlinear_arith)
            requires
                x * term <= ONE * term,
                term * ONE <= a * ONE,
        ;
        assert(a * ONE <= 2 * (u64::MAX as u128) * ONE) by (nonlinear_arith)
            requires
                a <= 2 * (u64::MAX as u128),
        ;
        term = term * x / (k * ONE);
        assert(sum + term <= k * a) by (nonlinear_arith)
            requires
                sum <= (k - 1) * a,
                term <= a,
        ;
        assert(k * a <= TERMS * 2 * (u64::MAX as u128)) by (nonlinear_arith)
            requires
                k <= TERMS,
                a <= 2 * (u64::MAX as u128),
        ;
        sum = sum + term;
        assert(sum <= k * a) by (nonlinear_arith)
            requires
                sum <= (k - 1) * a + a,
        ;
        k = k + 1;
    }
    sum
}

/// The exponent for a rate over an elapsed time.
pub fn exponent_of(rate_ppb: u64, elapsed_ms: u64) -> (x: u128)
    ensures
        x == exponent(rate_ppb, elapsed_ms),
{
    proof {
        lemma_mul_inequality(rate_ppb as int, u64::MAX as int, elapsed_ms as int);
        lemma_mul_inequality(elapsed_ms as int, u64::MAX as int, u64::MAX as int);
    }
    assert((rate_ppb as u128) * (elapsed_ms as u128) <= (u64::MAX as u128) * (u64::MAX as u128)) by (nonlinear_arith)
        requires
            rate_ppb * elapsed_ms <= u64::MAX * elapsed_ms,
            elapsed_ms * u64::MAX <= u64::MAX * u64::MAX,
    ;
    (rate_ppb as u128) * (elapsed_ms as u128) / (MS_PER_YEAR as u128)
}

/// The amount that vests out of `locked` over `elapsed_ms` at `rate_ppb`.
pub fn unlock_of(locked: u64, rate_ppb: u64, elapsed_ms: u64) -> (r: u64)
    ensures
        r == unlock_amount(locked, rate_ppb, elapsed_ms),
        r <= locked,
{
    let x = exponent_of(rate_ppb, elapsed_ms);
    let xc = if x <= ONE { x } else { ONE };
    let g = expm1_series(locked as u128, xc);
    if g <= locked as u128 {
        g as u64
    } else {
        locked
    }
}

/// Interest earned by `base` over `elapsed_ms` at `rate_ppb`, at most `cap`.
pub fn interest_of(base: u64, rate_ppb: u64, elapsed_ms: u64, cap: u64) -> (r: u64)
    ensures
        r == interest_amount(base, rate_ppb, elapsed_ms, cap),
        r <= cap,
{
    let x0 = exponent_of(rate_ppb, elapsed_ms);
    let mut x: u128 = x0;
    let mut b: u128 = base as u128;
    // `b` is the amount compounded so far; once it has grown by `cap` the
    // result is `cap` whatever is left of the exponent.
    while x > ONE && b - (base as u128) < (cap as u128)
        invariant
            base <= b,
            b <= (TERMS + 1) * (base + cap),
            compound(b as nat, x as nat) == compound(base as nat, x0 as nat),
        decreases x,
    {
        proof {
            lemma_series_bounded(b as nat, ONE as nat, TERMS as nat);
        }
        let bb = b;
        let g = expm1_series(bb, ONE);
        b = b + g;
        x = x - ONE;
        assert(b <= (TERMS + 1) * (base + cap)) by (nonlinear_arith)
            requires
                b == bb + g,
                g <= TERMS * bb,
                bb < base + cap,
        ;
    }
    proof {
        lemma_compound_grows(b as nat, x as nat);
    }
    if b - (base as u128) >= (cap as u128) {
        cap
    } else {
        let g = expm1_series(b, x);
        let total = b + g;
        if total - (base as u128) <= (cap as u128) {
            (total - (base as u128)) as u64
        } else {
            cap
        }
    }
}

/// The amount that arrives out of `pending` over `elapsed_ms` at `rate_ppb`.
pub fn arrival_of(pending: u64, rate_ppb: u64, elapsed_ms: u64) -> (r: u64)
    ensures
        r == arrival_amount(pending, rate_ppb, elapsed_ms),
        r <= pending,
{
    let g = interest_of(ONE as u64, rate_ppb, elapsed_ms, FACTOR_CAP);
    let factor: u128 = ONE + g as u128;
    assert((pending as u128) * ONE <= (u64::MAX as u128) * ONE) by (nonlinear_arith)
        requires
            pending <= u64::MAX,
    ;
    let p = (pending as u128) * ONE;
    let remaining = p / factor;
    proof {
        lemma_div_is_ordered_by_denominator(p as int, ONE as int, factor as int);
        lemma_div_by_multiple(pending as int, ONE as int);
    }
    if remaining < NEGLIGIBLE as u128 {
        pending
    } else {
        pending - remaining as u64
    }
}

} // verus!
