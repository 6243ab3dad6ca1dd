//! The expected score of a team from the gap between two mean ratings.
//!
//! `E(gap) = 1 / (1 + 10^(gap / R))`, with the gap clamped to `[-R, R]`.
//! The power is computed as `exp(gap / R * ln 10)` by its Taylor series in
//! fixed point; the result is exact at a gap of zero and symmetric:
//! `E(-gap) == 1 - E(gap)` to the last unit.
use vstd::prelude::*;
use crate::score::PROB_SCALE;

verus! {

/// Scale of a rating: `RATING_SCALE` units make one rating point.
pub const RATING_SCALE: i64 = 1000;

/// The saturation gap `R`, in rating units (400 points).
pub const SATURATION: i64 = 400_000;

/// `ln 10` in units of `1 / PROB_SCALE`.
pub const LN10_FIXED: u64 = 2_302_585_093;

/// Number of series terms after the constant one.
pub const SERIES_TERMS: u64 = 40;

/// The gap `b - a`, clamped to `[-SATURATION, SATURATION]`.
pub open spec fn clamped_gap(a: int, b: int) -> int {
    if b - a > SATURATION {
        SATURATION as int
    } else if b - a < -SATURATION {
        -SATURATION
    } else {
        b - a
    }
}

/// The exponent `gap / R * ln 10`, fixed point, for a gap in `[0, R]`.
pub open spec fn exponent_of(gap: nat) -> nat {
    gap * (LN10_FIXED as nat) / (SATURATION as nat)
}

/// The `k`-th term `t^k / k!` of the exponential series, fixed point.
pub open spec fn series_term(t: nat, k: nat) -> nat
    decreases k,
{
    if k == 0 {
        PROB_SCALE as nat
    } else {
        series_term(t, (k - 1) as nat) * t / (PROB_SCALE as nat * k)
    }
}

/// Sum of the terms `0..=n` of the exponential series.
pub open spec fn series_sum(t: nat, n: nat) -> nat
    decreases n,
{
    if n == 0 {
        PROB_SCALE as nat
    } else {
        series_sum(t, (n - 1) as nat) + series_term(t, n)
    }
}

/// `10^(gap / R)` in fixed point, for a gap in `[0, R]`.
pub open spec fn power_of_ten(gap: nat) -> nat {
    series_sum(exponent_of(gap), SERIES_TERMS as nat)
}

/// `1 / (1 + 10^(gap / R))` for a gap in `[0, R]`, rounded down.
pub open spec fn expected_for_gap(gap: nat) -> int {
    (PROB_SCALE * PROB_SCALE) as int / (PROB_SCALE + power_of_ten(gap))
}

/// Expected score of a side rated `a` against a side rated `b`.
pub open spec fn expected_spec(a: int, b: int) -> int {
    let g = clamped_gap(a, b);
    if g >= 0 {
        expected_for_gap(g as nat)
    } else {
        PROB_SCALE - expected_for_gap((-g) as nat)
    }
}

proof fn lemma_term_bound(t: nat, k: nat)
    requires
        t <= 3 * PROB_SCALE,
    ensures
        series_term(t, k) <= if k == 0 {
            PROB_SCALE as nat
        } else if k == 1 {
            3 * PROB_SCALE as nat
        } else {
            5 * PROB_SCALE as nat
        },
    decreases k,
{
    if k > 0 {
        lemma_term_bound(t, (k - 1) as nat);
        let x = series_term(t, (k - 1) as nat);
        let s = PROB_SCALE as nat;
        let b: nat = if k == 1 { 3 * s } else { 5 * s };
        assert(x * t <= b * (s * k)) by (nonlinear_arith)
            requires
                t <= 3 * s,
                k >= 1,
                s > 0,
                k == 1 ==> x <= s,
                k == 2 ==> x <= 3 * s,
                k >= 3 ==> x <= 5 * s,
                b == (if k == 1 { 3 * s } else { 5 * s }),
        ;
        assert(x * t / (s * k) <= b) by (nonlinear_arith)
            requires
                x * t <= b * (s * k),
                s * k > 0,
        ;
    }
}

proof fn lemma_sum_bounds(t: nat, n: nat)
    requires
        t <= 3 * PROB_SCALE,
    ensures
        PROB_SCALE <= series_sum(t, n) <= PROB_SCALE + 5 * PROB_SCALE * n,
    decreases n,
{
    if n > 0 {
        lemma_sum_bounds(t, (n - 1) as nat);
        lemma_term_bound(t, n);
    }
}

proof fn lemma_terms_vanish(k: nat)
    ensures
        series_term(0, k) == if k == 0 { PROB_SCALE as nat } else { 0 },
        series_sum(0, k) == PROB_SCALE,
    decreases k,
{
    if k > 0 {
        lemma_terms_vanish((k - 1) as nat);
    }
}

/// The expected score for a gap in `[0, R]` lies in `(0, 1/2]`, and is
/// exactly one half at a gap of zero.
proof fn lemma_expected_for_gap(gap: nat)
    requires
        gap <= SATURATION,
    ensures
        0 < expected_for_gap(gap) <= PROB_SCALE / 2,
        gap == 0 ==> expected_for_gap(gap) == PROB_SCALE / 2,
{
    let t = exponent_of(gap);
    assert(t <= LN10_FIXED) by (nonlinear_arith)
        requires
            t == gap * (LN10_FIXED as nat) / (SATURATION as nat),
            gap <= SATURATION,
    ;
    lemma_sum_bounds(t, SERIES_TERMS as nat);
    let p = power_of_ten(gap);
    let s = PROB_SCALE as int;
    assert(s * s / (s + p) <= s / 2) by (nonlinear_arith)
        requires
            p >= s,
            s == 1_000_000_000,
    ;
    assert(s * s / (s + p) > 0) by (nonlinear_arith)
        requires
            p <= s + 5 * s * 40,
            s == 1_000_000_000,
    ;
    if gap == 0 {
        assert(t == 0);
        lemma_terms_vanish(SERIES_TERMS as nat);
        assert(s * s / (s + s) == s / 2) by (nonlinear_arith)
            requires
                s == 1_000_000_000,
        ;
    }
}

/// The exponential series `sum t^k / k!` in fixed point, for `t` up to `ln 10`.
fn power_series(t: u64) -> (r: u64)
    requires
        t <= LN10_FIXED,
    ensures
        r == series_sum(t as nat, SERIES_TERMS as nat),
        PROB_SCALE <= r <= PROB_SCALE + 5 * PROB_SCALE * SERIES_TERMS,
{
    let mut term: u64 = PROB_SCALE;
    let mut sum: u64 = PROB_SCALE;
    let mut k: u64 = 0;
    proof {
        lemma_sum_bounds(t as nat, SERIES_TERMS as nat);
    }
    while k < SERIES_TERMS
        invariant
            t <= LN10_FIXED,
            k <= SERIES_TERMS,
            term == series_term(t as nat, k as nat),
            sum == series_sum(t as nat, k as nat),
        decreases SERIES_TERMS - k,
    {
        k = k + 1;
        proof {
            lemma_term_bound(t as nat, (k - 1) as nat);
            lemma_term_bound(t as nat, k as nat);
            lemma_sum_bounds(t as nat, k as nat);
            assert((term as nat) * (t as nat) <= 5 * PROB_SCALE * LN10_FIXED) by (nonlinear_arith)
                requires
                    term <= 5 * PROB_SCALE,
                    t <= LN10_FIXED,
            ;
        }
        let wide: u128 = (term as u128) * (t as u128) / ((PROB_SCALE as u128) * (k as u128));
        assert(wide == series_term(t as nat, k as nat));
        term = wide as u64;
        assert(sum + term == series_sum(t as nat, k as nat));
        assert(series_sum(t as nat, k as nat) <= PROB_SCALE + 5 * PROB_SCALE * 40) by (nonlinear_arith)
            requires
                series_sum(t as nat, k as nat) <= PROB_SCALE + 5 * PROB_SCALE * k,
                k <= 40,
        ;
        sum = sum + term;
    }
    proof {
        lemma_sum_bounds(t as nat, SERIES_TERMS as nat);
    }
    sum
}

/// Expected score for a gap in `[0, R]`.
fn expected_for_nonnegative_gap(gap: u64) -> (r: u64)
    requires
        gap <= SATURATION,
    ensures
        r == expected_for_gap(gap as nat),
        0 < r <= PROB_SCALE / 2,
{
    proof {
        lemma_expected_for_gap(gap as nat);
    }
    let t: u64 = ((gap as u128) * (LN10_FIXED as u128) / (SATURATION as u128)) as u64;
    let p = power_series(t);
    ((PROB_SCALE as u128) * (PROB_SCALE as u128) / ((PROB_SCALE + p) as u128)) as u64
}

/// Probability, in units of `1 / PROB_SCALE`, that a side rated `elo1`
/// beats a side rated `elo2`. Gaps beyond `SATURATION` count as `SATURATION`.
pub(crate) fn win_probability(elo1: i64, elo2: i64) -> (r: u64)
    ensures
        r == expected_spec(elo1 as int, elo2 as int),
        0 < r < PROB_SCALE,
{
    let diff: i128 = (elo2 as i128) - (elo1 as i128);
    let g: i64 = if diff > SATURATION as i128 {
        SATURATION
    } else if diff < -(SATURATION as i128) {
        -SATURATION
    } else {
        diff as i64
    };
    proof {
        if g >= 0 {
            lemma_expected_for_gap(g as nat);
        } else {
            lemma_expected_for_gap((-g) as nat);
        }
    }
    if g >= 0 {
        expected_for_nonnegative_gap(g as u64)
    } else {
        PROB_SCALE - expected_for_nonnegative_gap((-g) as u64)
    }
}

/// The expected score is strictly between zero and one, and exactly one
/// half between equal ratings.
pub proof fn lemma_expected_bounds(a: int, b: int)
    ensures
        0 < expected_spec(a, b) < PROB_SCALE,
        expected_spec(a, a) == PROB_SCALE / 2,
{
    let g = clamped_gap(a, b);
    if g >= 0 {
        lemma_expected_for_gap(g as nat);
    } else {
        lemma_expected_for_gap((-g) as nat);
    }
    lemma_expected_for_gap(0);
}

/// Gaps of at least `R` saturate: the expected score equals its value at a
/// gap of exactly `R` (or `-R`).
pub proof fn lemma_expected_saturates(a: int, b: int)
    ensures
        b - a >= SATURATION ==> expected_spec(a, b) == expected_spec(0, SATURATION as int),
        a - b >= SATURATION ==> expected_spec(a, b) == expected_spec(SATURATION as int, 0),
{
}

/// Swapping the two sides turns the expected score `e` into `1 - e`.
pub proof fn lemma_expected_swap(a: int, b: int)
    ensures
        expected_spec(b, a) == PROB_SCALE - expected_spec(a, b),
{
    let g = clamped_gap(a, b);
    assert(clamped_gap(b, a) == -g);
    if g == 0 {
        lemma_expected_for_gap(0);
    }
}

} // verus!
