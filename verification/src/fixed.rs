//! Fixed-point arithmetic with six decimal places.
//!
//! A real value x is represented by the integer `x * SCALE`, truncated
//! toward zero. All engine quantities (coordinates, distances, temperatures,
//! acceptance probabilities) use this representation, so that every
//! arithmetic step is exact integer work with a proved meaning.

use vstd::prelude::*;
use vstd::arithmetic::div_mod::lemma_div_is_ordered;
use vstd::arithmetic::power2::pow2;
use vstd::arithmetic::power2::lemma_pow2_unfold;
use vstd::arithmetic::power2::lemma_pow2_strictly_increases;
use vstd::arithmetic::power2::lemma2_to64;
use vstd::arithmetic::power2::lemma2_to64_rest;

verus! {

/// One unit in fixed-point representation: 10^6.
pub const SCALE: u64 = 1_000_000;

/// The natural logarithm of 2, scaled by `SCALE`.
pub const LN2: u64 = 693_147;

/// Euler's number e, scaled by `SCALE`.
pub const E_FP: u64 = 2_718_281;

/// 1/e, scaled by `SCALE`.
pub const INV_E_FP: u64 = 367_879;

/// Saturation value for the exponential: about e^13.8. Acceptance
/// probabilities are capped here; anything at or above it always exceeds a
/// unit draw.
pub const EXP_CAP: u64 = 1_000_000_000_000;

/// Arguments of magnitude at or beyond this (14 in real terms) make the
/// negative exponential smaller than one fixed-point step, hence exactly 0.
pub const EXP_ARG_LIMIT: u64 = 14_000_000;

/// The square root, rounded down: `r` is the floor of the square root of `x`.
pub open spec fn is_sqrt_floor(x: int, r: int) -> bool {
    &&& 0 <= r
    &&& r * r <= x
    &&& x < (r + 1) * (r + 1)
}

/// The floor of the square root is unique.
pub proof fn lemma_sqrt_floor_unique(x: int, r1: int, r2: int)
    requires
        is_sqrt_floor(x, r1),
        is_sqrt_floor(x, r2),
    ensures
        r1 == r2,
{
    if r1 < r2 {
        assert((r1 + 1) * (r1 + 1) <= r2 * r2) by (nonlinear_arith)
            requires
                0 <= r1,
                r1 < r2,
        ;
    }
    if r2 < r1 {
        assert((r2 + 1) * (r2 + 1) <= r1 * r1) by (nonlinear_arith)
            requires
                0 <= r2,
                r2 < r1,
        ;
    }
}

/// Integer square root by bisection, rounded down.
pub fn isqrt(x: u128) -> (r: u64)
    requires
        x < 0x4000_0000_0000_0000_0000_0000_0000_0000u128,
    ensures
        is_sqrt_floor(x as int, r as int),
{
    let mut lo: u64 = 0;
    let mut hi: u64 = 0x8000_0000_0000_0000u64;
    while lo + 1 < hi
        invariant
            lo < hi,
            hi <= 0x8000_0000_0000_0000u64,
            (lo as int) * (lo as int) <= x as int,
            (x as int) < (hi as int) * (hi as int),
        decreases hi - lo,
    {
        let mid = lo + (hi - lo) / 2;
        proof {
            assert((mid as int) * (mid as int) < 0x4000_0000_0000_0000_0000_0000_0000_0000)
                by (nonlinear_arith)
                requires
                    0 <= mid < 0x8000_0000_0000_0000,
            ;
        }
        let sq = (mid as u128) * (mid as u128);
        if sq <= x {
            lo = mid;
        } else {
            hi = mid;
        }
    }
    lo
}

/// The quadratic start of the exponential on a fractional argument
/// `0 <= f < SCALE`: 1 + f + f^2/2 in fixed point.
pub open spec fn exp_base_pos(f: int) -> int {
    SCALE + f + f * f / (2 * SCALE as int)
}

/// The quadratic start of the negative exponential on a fractional argument
/// `0 <= f < SCALE`: 1 - f + f^2/2 in fixed point.
pub open spec fn exp_base_neg(f: int) -> int {
    SCALE - f + f * f / (2 * SCALE as int)
}

/// `k` successive fixed-point multiplications by e, saturating at `EXP_CAP`.
pub open spec fn exp_grow_steps(v: int, k: nat) -> int
    decreases k,
{
    if k == 0 {
        v
    } else {
        let w = v * E_FP / SCALE as int;
        let c = if w > EXP_CAP { EXP_CAP as int } else { w };
        exp_grow_steps(c, (k - 1) as nat)
    }
}

/// `k` successive fixed-point multiplications by 1/e.
pub open spec fn exp_shrink_steps(v: int, k: nat) -> int
    decreases k,
{
    if k == 0 {
        v
    } else {
        exp_shrink_steps(v * INV_E_FP / SCALE as int, (k - 1) as nat)
    }
}

/// e^(m/SCALE) for m >= 0, in fixed point, saturating at `EXP_CAP`.
pub open spec fn exp_pos_spec(m: int) -> int {
    exp_grow_steps(exp_base_pos(m % (SCALE as int)), (m / SCALE as int) as nat)
}

/// e^(-m/SCALE) for m >= 0, in fixed point, truncated toward zero.
pub open spec fn exp_neg_spec(m: int) -> int {
    exp_shrink_steps(exp_base_neg(m % (SCALE as int)), (m / SCALE as int) as nat)
}

proof fn lemma_exp_grow_steps_bounds(v: int, k: nat)
    requires
        SCALE <= v <= EXP_CAP,
    ensures
        SCALE <= exp_grow_steps(v, k) <= EXP_CAP,
        k >= 1 ==> exp_grow_steps(v, k) > SCALE,
        v > SCALE ==> exp_grow_steps(v, k) > SCALE,
    decreases k,
{
    if k > 0 {
        let w = v * E_FP / SCALE as int;
        assert(w >= 2 * v) by (nonlinear_arith)
            requires
                v >= SCALE as int,
                w == v * E_FP / SCALE as int,
        ;
        assert(w >= 2 * v >= v);
        let c = if w > EXP_CAP { EXP_CAP as int } else { w };
        assert(c > SCALE);
        lemma_exp_grow_steps_bounds(c, (k - 1) as nat);
    }
}

proof fn lemma_exp_shrink_steps_bounds(v: int, k: nat)
    requires
        0 <= v <= SCALE,
    ensures
        0 <= exp_shrink_steps(v, k) <= SCALE,
        v < SCALE ==> exp_shrink_steps(v, k) < SCALE,
        k >= 1 ==> exp_shrink_steps(v, k) < SCALE,
    decreases k,
{
    if k > 0 {
        let w = v * INV_E_FP / SCALE as int;
        assert(0 <= w && w < SCALE) by (nonlinear_arith)
            requires
                0 <= v <= SCALE as int,
                w == v * INV_E_FP / SCALE as int,
        ;
        lemma_exp_shrink_steps_bounds(w, (k - 1) as nat);
    }
}

/// The base of the positive expansion stays within `[SCALE, 3 * SCALE]` and
/// exceeds `SCALE` exactly when the fraction is non-zero.
proof fn lemma_exp_base_pos_bounds(f: int)
    requires
        0 <= f < SCALE,
    ensures
        SCALE <= exp_base_pos(f) <= 3 * (SCALE as int),
        f > 0 ==> exp_base_pos(f) > SCALE,
{
    assert(0 <= f * f / (2 * SCALE as int) <= f) by (nonlinear_arith)
        requires
            0 <= f < SCALE as int,
    ;
}

/// The base of the negative contraction stays within `[0, SCALE]` and drops
/// below `SCALE` exactly when the fraction is non-zero.
proof fn lemma_exp_base_neg_bounds(f: int)
    requires
        0 <= f < SCALE,
    ensures
        0 <= exp_base_neg(f) <= SCALE,
        f > 0 ==> exp_base_neg(f) < SCALE,
{
    assert(0 <= f * f / (2 * SCALE as int) && (f > 0 ==> f * f / (2 * SCALE as int) < f))
        by (nonlinear_arith)
        requires
            0 <= f < SCALE as int,
    ;
}

/// At zero the exponential is exactly one.
pub proof fn lemma_exp_pos_at_zero()
    ensures
        exp_pos_spec(0) == SCALE,
{
}

/// At zero the negative exponential is exactly one.
pub proof fn lemma_exp_neg_at_zero()
    ensures
        exp_neg_spec(0) == SCALE,
{
}

/// A strictly positive argument pushes the exponential strictly above one,
/// and never past the cap.
pub proof fn lemma_exp_pos_above_one(m: int)
    requires
        m >= 1,
    ensures
        SCALE < exp_pos_spec(m) <= EXP_CAP,
{
    let f = m % (SCALE as int);
    let k = (m / SCALE as int) as nat;
    assert(0 <= f < SCALE);
    lemma_exp_base_pos_bounds(f);
    assert(3 * (SCALE as int) <= EXP_CAP);
    if k == 0 {
        assert(f == m);
        lemma_exp_grow_steps_bounds(exp_base_pos(f), 0);
        assert(exp_base_pos(f) > SCALE);
    } else {
        lemma_exp_grow_steps_bounds(exp_base_pos(f), k);
    }
}

/// A strictly positive argument pushes the negative exponential strictly
/// below one; it never goes negative.
pub proof fn lemma_exp_neg_below_one(m: int)
    requires
        m >= 1,
    ensures
        0 <= exp_neg_spec(m) < SCALE,
{
    let f = m % (SCALE as int);
    let k = (m / SCALE as int) as nat;
    assert(0 <= f < SCALE);
    lemma_exp_base_neg_bounds(f);
    if k == 0 {
        assert(f == m);
        lemma_exp_shrink_steps_bounds(exp_base_neg(f), 0);
    } else {
        lemma_exp_shrink_steps_bounds(exp_base_neg(f), k);
    }
}

/// e^(m/SCALE) in fixed point, saturating at `EXP_CAP`.
pub fn exp_pos(m: u64) -> (r: u64)
    requires
        m <= EXP_ARG_LIMIT,
    ensures
        r == exp_pos_spec(m as int),
        SCALE <= r <= EXP_CAP,
{
    let f = m % SCALE;
    let k = m / SCALE;
    proof {
        lemma_exp_base_pos_bounds(f as int);
    }
    proof {
        assert((f as int) * (f as int) < 0x4000_0000_0000_0000_0000_0000_0000_0000)
            by (nonlinear_arith)
            requires
                0 <= f < SCALE as int,
        ;
    }
    let half = (f as u128) * (f as u128) / (2 * SCALE as u128);
    let mut v: u64 = SCALE + f + (half as u64);
    let mut step: u64 = 0;
    proof {
        lemma_exp_grow_steps_bounds(v as int, k as nat);
    }
    while step < k
        invariant
            step <= k,
            k <= 14,
            SCALE <= v <= EXP_CAP,
            exp_grow_steps(v as int, (k - step) as nat) == exp_pos_spec(m as int),
            SCALE <= exp_pos_spec(m as int) <= EXP_CAP,
        decreases k - step,
    {
        let wide = (v as u128) * (E_FP as u128) / (SCALE as u128);
        let w = if wide > EXP_CAP as u128 {
            EXP_CAP
        } else {
            wide as u64
        };
        proof {
            assert((v as int) * (E_FP as int) / (SCALE as int) >= SCALE) by (nonlinear_arith)
                requires
                    v >= SCALE as int,
            ;
        }
        v = w;
        step = step + 1;
    }
    v
}

/// e^(-m/SCALE) in fixed point, truncated toward zero.
pub fn exp_neg(m: u64) -> (r: u64)
    requires
        m <= EXP_ARG_LIMIT,
    ensures
        r == exp_neg_spec(m as int),
        r <= SCALE,
{
    let f = m % SCALE;
    let k = m / SCALE;
    proof {
        lemma_exp_base_neg_bounds(f as int);
    }
    proof {
        assert((f as int) * (f as int) < 0x4000_0000_0000_0000_0000_0000_0000_0000)
            by (nonlinear_arith)
            requires
                0 <= f < SCALE as int,
        ;
    }
    let half = (f as u128) * (f as u128) / (2 * SCALE as u128);
    let mut v: u64 = SCALE - f + (half as u64);
    proof {
        assert(v <= SCALE) by {
            lemma_exp_base_neg_bounds(f as int);
        }
        lemma_exp_shrink_steps_bounds(v as int, k as nat);
    }
    let mut step: u64 = 0;
    while step < k
        invariant
            step <= k,
            v <= SCALE,
            exp_shrink_steps(v as int, (k - step) as nat) == exp_neg_spec(m as int),
            exp_neg_spec(m as int) <= SCALE,
        decreases k - step,
    {
        let wide = (v as u128) * (INV_E_FP as u128) / (SCALE as u128);
        v = wide as u64;
        step = step + 1;
    }
    v
}

/// The floor of the base-2 logarithm of a positive integer.
pub open spec fn log2_floor(m: int) -> nat
    decreases m,
{
    if m < 2 {
        0
    } else {
        1 + log2_floor(m / 2)
    }
}

/// The natural logarithm of the plain integer `m >= 1`, scaled by `SCALE`:
/// ln2 times the base-2 logarithm, interpolated linearly between powers of
/// two. Exactly 0 at m = 1, and non-decreasing in m.
pub open spec fn ln_fp_spec(m: int) -> int {
    let b = log2_floor(m);
    b * (LN2 as int) + (m - pow2(b)) * (LN2 as int) / (pow2(b) as int)
}

proof fn lemma_pow2_positive(k: nat)
    ensures
        pow2(k) >= 1,
{
    vstd::arithmetic::power2::lemma_pow2_pos(k);
}

proof fn lemma_pow2_step(k: nat)
    ensures
        pow2(k + 1) == 2 * pow2(k),
{
    lemma_pow2_unfold(k + 1);
}

/// `log2_floor` is characterized by the bracket `pow2(b) <= m < 2 * pow2(b)`.
proof fn lemma_log2_floor_bracket(m: int)
    requires
        m >= 1,
    ensures
        pow2(log2_floor(m)) <= m < 2 * pow2(log2_floor(m)),
    decreases m,
{
    if m >= 2 {
        lemma_log2_floor_bracket(m / 2);
        lemma_pow2_positive(log2_floor(m / 2));
        lemma_pow2_step(log2_floor(m / 2));
    } else {
        assert(pow2(0) == 1) by {
            lemma2_to64();
        }
    }
}

proof fn lemma_log2_floor_of_bracket(m: int, b: nat)
    requires
        pow2(b) <= m < 2 * pow2(b),
    ensures
        log2_floor(m) == b,
    decreases b,
{
    lemma_pow2_positive(b);
    if b == 0 {
        assert(pow2(0) == 1) by {
            lemma2_to64();
        }
        assert(m == 1);
    } else {
        lemma_pow2_positive((b - 1) as nat);
        lemma_pow2_step((b - 1) as nat);
        assert(pow2((b - 1) as nat) <= m / 2 < 2 * pow2((b - 1) as nat));
        lemma_log2_floor_of_bracket(m / 2, (b - 1) as nat);
    }
}

/// At 1 the logarithm is exactly 0.
pub proof fn lemma_ln_at_one()
    ensures
        ln_fp_spec(1) == 0,
{
    assert(pow2(0) == 1) by {
        lemma2_to64();
    }
}

/// The interpolated logarithm never decreases.
pub proof fn lemma_ln_monotone(m1: int, m2: int)
    requires
        1 <= m1 <= m2,
    ensures
        ln_fp_spec(m1) <= ln_fp_spec(m2),
    decreases m2 - m1,
{
    if m1 < m2 {
        lemma_ln_step(m1);
        lemma_ln_monotone(m1 + 1, m2);
    }
}

proof fn lemma_ln_step(m: int)
    requires
        m >= 1,
    ensures
        ln_fp_spec(m) <= ln_fp_spec(m + 1),
{
    let b = log2_floor(m);
    lemma_log2_floor_bracket(m);
    lemma_pow2_positive(b);
    if m + 1 < 2 * pow2(b) {
        lemma_log2_floor_of_bracket(m + 1, b);
        lemma_div_is_ordered((m - pow2(b)) * (LN2 as int), (m + 1 - pow2(b)) * (LN2 as int), pow2(b) as int);
        assert((m - pow2(b)) * (LN2 as int) <= (m + 1 - pow2(b)) * (LN2 as int)) by (nonlinear_arith);
    } else {
        assert(m + 1 == 2 * pow2(b));
        lemma_pow2_step(b);
        lemma_log2_floor_of_bracket(m + 1, b + 1);
        assert(ln_fp_spec(m + 1) == (b + 1) * (LN2 as int));
        assert((m - pow2(b)) * (LN2 as int) / (pow2(b) as int) <= LN2) by {
            assert((m - pow2(b)) * (LN2 as int) <= pow2(b) * (LN2 as int)) by (nonlinear_arith)
                requires
                    pow2(b) >= 1,
                    m - pow2(b) <= pow2(b),
            ;
            lemma_div_is_ordered((m - pow2(b)) * (LN2 as int), pow2(b) * (LN2 as int), pow2(b) as int);
            assert(pow2(b) * (LN2 as int) / (pow2(b) as int) == LN2) by (nonlinear_arith)
                requires
                    pow2(b) >= 1,
            ;
        }
        assert((b + 1) * (LN2 as int) == b * (LN2 as int) + LN2) by (nonlinear_arith);
    }
}

/// The interpolated natural logarithm of a plain positive integer.
pub fn ln_fp(m: u64) -> (r: u64)
    requires
        m >= 1,
    ensures
        r == ln_fp_spec(m as int),
        r <= 64 * (LN2 as int),
{
    let mut b: u64 = 0;
    let mut p: u64 = 1;
    proof {
        assert(pow2(0) == 1) by {
            lemma2_to64();
        }
    }
    while p <= m / 2
        invariant
            m >= 1,
            p == pow2(b as nat),
            p <= m,
            b <= 63,
        decreases m - p,
    {
        proof {
            lemma_pow2_positive(b as nat);
            if b >= 63 {
                assert(pow2(63) == 0x8000000000000000) by {
                    lemma2_to64_rest();
                }
                if b > 63 {
                    lemma_pow2_strictly_increases(63, b as nat);
                }
                assert(false);
            }
            lemma_pow2_step(b as nat);
        }
        p = p * 2;
        b = b + 1;
    }
    proof {
        assert(m < 2 * p);
        lemma_log2_floor_of_bracket(m as int, b as nat);
        lemma_pow2_positive(b as nat);
    }
    let num = ((m - p) as u128) * (LN2 as u128);
    proof {
        assert((m - p) * (LN2 as int) / (pow2(b as nat) as int) < LN2) by (nonlinear_arith)
            requires
                pow2(b as nat) >= 1,
                p <= m,
                ((m - p) as int) < pow2(b as nat),
                (pow2(b as nat)) == p as int,
        ;
        assert(b * (LN2 as int) <= 63 * (LN2 as int)) by (nonlinear_arith)
            requires
                0 <= b <= 63,
        ;
    }
    let frac = (num / (p as u128)) as u64;
    b * LN2 + frac
}

/// Fixed-point product, truncated: (a * b) / SCALE.
pub fn mul_fp(a: u64, b: u64) -> (r: u64)
    requires
        (a as int) * (b as int) / (SCALE as int) <= u64::MAX as int,
    ensures
        r == (a as int) * (b as int) / (SCALE as int),
{
    let wide: u128 = (a as u128) * (b as u128) / (SCALE as u128);
    wide as u64
}

} // verus!
