//! Cooling schedules: pure functions from the initial temperature, the
//! decay parameter and the iteration count to the current temperature.
//!
//! Each schedule recomputes the temperature from the initial value at every
//! call; no state is carried beyond the iteration count. All four produce
//! exactly the initial temperature at iteration 0 and never increase as the
//! iteration grows.

use vstd::prelude::*;
use crate::fixed::SCALE;
use crate::fixed::ln_fp;
use crate::fixed::ln_fp_spec;
use crate::fixed::lemma_ln_at_one;
use crate::fixed::lemma_ln_monotone;
use crate::fixed::mul_fp;
use crate::fixed::LN2;
use vstd::arithmetic::div_mod::lemma_div_is_ordered;
use vstd::arithmetic::div_mod::lemma_div_is_ordered_by_denominator;
use vstd::arithmetic::div_mod::lemma_div_multiples_vanish;
use vstd::arithmetic::div_mod::lemma_basic_div;
use vstd::arithmetic::div_mod::lemma_div_pos_is_pos;
use vstd::arithmetic::mul::lemma_mul_left_inequality;

verus! {

/// Largest initial temperature the engine accepts (10^6 in real units).
pub const TEMP_LIMIT: u64 = 1_000_000_000_000;

/// Largest decay parameter the engine accepts (10^6 in real units).
pub const DECAY_LIMIT: u64 = 1_000_000_000_000;

/// The four cooling schedule variants.
#[derive(Clone, Copy, PartialEq, Eq, Structural, Debug)]
pub enum CoolingMethod {
    ExponentialMultiplicativeCooling,
    LogarithmicMultiplicativeCooling,
    LinearMultiplicativeCooling,
    QuadraticMultiplicativeCooling,
}

/// decay^i in fixed point, truncated at every step.
pub open spec fn pow_fp_spec(d: int, i: nat) -> int
    decreases i,
{
    if i == 0 {
        SCALE as int
    } else {
        pow_fp_spec(d, (i - 1) as nat) * d / (SCALE as int)
    }
}

/// For decay at most one, the truncated powers stay within `[0, SCALE]`
/// and never increase.
pub proof fn lemma_pow_fp_bounds(d: int, i: nat)
    requires
        0 <= d <= SCALE,
    ensures
        0 <= pow_fp_spec(d, i) <= SCALE,
        i >= 1 ==> pow_fp_spec(d, i) <= pow_fp_spec(d, (i - 1) as nat),
    decreases i,
{
    if i >= 1 {
        lemma_pow_fp_bounds(d, (i - 1) as nat);
        let p = pow_fp_spec(d, (i - 1) as nat);
        assert(0 <= p * d / (SCALE as int) <= p) by (nonlinear_arith)
            requires
                0 <= p,
                0 <= d <= SCALE as int,
        ;
    }
}

/// Exponential multiplicative cooling: initial * decay^i.
pub open spec fn exponential_cooling_spec(t0: int, d: int, i: nat) -> int {
    t0 * pow_fp_spec(d, i) / (SCALE as int)
}

/// Linear multiplicative cooling: initial / (1 + decay * i).
pub open spec fn linear_cooling_spec(t0: int, d: int, i: nat) -> int {
    t0 * (SCALE as int) / (SCALE as int + d * i)
}

/// Quadratic multiplicative cooling: initial / (1 + decay * i^2).
pub open spec fn quadratic_cooling_spec(t0: int, d: int, i: nat) -> int {
    t0 * (SCALE as int) / (SCALE as int + d * i * i)
}

/// Logarithmic multiplicative cooling: initial / (1 + decay * ln(1 + i)).
pub open spec fn logarithmic_cooling_spec(t0: int, d: int, i: nat) -> int {
    t0 * (SCALE as int) / (SCALE as int + d * ln_fp_spec(1 + i as int) / (SCALE as int))
}

/// The temperature the selected schedule yields at iteration `i`.
pub open spec fn cooling_spec(method: CoolingMethod, t0: int, d: int, i: nat) -> int {
    match method {
        CoolingMethod::ExponentialMultiplicativeCooling => exponential_cooling_spec(t0, d, i),
        CoolingMethod::LogarithmicMultiplicativeCooling => logarithmic_cooling_spec(t0, d, i),
        CoolingMethod::LinearMultiplicativeCooling => linear_cooling_spec(t0, d, i),
        CoolingMethod::QuadraticMultiplicativeCooling => quadratic_cooling_spec(t0, d, i),
    }
}

/// Exponential multiplicative cooling: initial * decay^i, with decay at
/// most one so that the schedule cools.
pub fn exponential_multiplicative_cooling(
    initial_temperature: u64,
    temperature_decay: u64,
    iterations: u64,
) -> (r: u64)
    requires
        initial_temperature <= TEMP_LIMIT,
        temperature_decay <= SCALE,
    ensures
        r == exponential_cooling_spec(
            initial_temperature as int,
            temperature_decay as int,
            iterations as nat,
        ),
        r <= initial_temperature,
{
    let mut v: u64 = SCALE;
    let mut j: u64 = 0;
    proof {
        lemma_pow_fp_bounds(temperature_decay as int, iterations as nat);
    }
    while j < iterations
        invariant
            j <= iterations,
            temperature_decay <= SCALE,
            0 <= v <= SCALE,
            v == pow_fp_spec(temperature_decay as int, j as nat),
        decreases iterations - j,
    {
        proof {
            assert((v as int) * (temperature_decay as int) <= (SCALE as int) * (SCALE as int))
                by (nonlinear_arith)
                requires
                    0 <= v as int <= SCALE as int,
                    0 <= temperature_decay as int <= SCALE as int,
            ;
        }
        let wide: u128 = (v as u128) * (temperature_decay as u128) / (SCALE as u128);
        proof {
            assert(0 <= (v as int) * (temperature_decay as int) / (SCALE as int) <= v)
                by (nonlinear_arith)
                requires
                    0 <= v,
                    0 <= temperature_decay as int <= SCALE as int,
            ;
        }
        v = wide as u64;
        j = j + 1;
    }
    proof {
        assert((initial_temperature as int) * (v as int) / (SCALE as int)
            <= initial_temperature as int) by (nonlinear_arith)
            requires
                0 <= v as int <= SCALE as int,
                0 <= initial_temperature as int,
        ;
    }
    let r = mul_fp(initial_temperature, v);
    r
}

/// Linear multiplicative cooling: initial / (1 + decay * i).
pub fn linear_multiplicative_cooling(
    initial_temperature: u64,
    temperature_decay: u64,
    iterations: u64,
) -> (r: u64)
    requires
        initial_temperature <= TEMP_LIMIT,
        temperature_decay <= DECAY_LIMIT,
    ensures
        r == linear_cooling_spec(
            initial_temperature as int,
            temperature_decay as int,
            iterations as nat,
        ),
        r <= initial_temperature,
{
    proof {
        assert((temperature_decay as int) * (iterations as int)
            <= (DECAY_LIMIT as int) * (u64::MAX as int)) by (nonlinear_arith)
            requires
                0 <= temperature_decay as int <= DECAY_LIMIT as int,
                0 <= iterations as int <= u64::MAX as int,
        ;
    }
    let denom: u128 = (SCALE as u128) + (temperature_decay as u128) * (iterations as u128);
    let wide: u128 = (initial_temperature as u128) * (SCALE as u128) / denom;
    proof {
        lemma_div_is_ordered_by_denominator(
            (initial_temperature as int) * (SCALE as int),
            SCALE as int,
            denom as int,
        );
        lemma_div_multiples_vanish(initial_temperature as int, SCALE as int);
    }
    wide as u64
}

/// Quadratic multiplicative cooling: initial / (1 + decay * i^2).
pub fn quadratic_multiplicative_cooling(
    initial_temperature: u64,
    temperature_decay: u64,
    iterations: u64,
) -> (r: u64)
    requires
        initial_temperature <= TEMP_LIMIT,
        1 <= temperature_decay <= DECAY_LIMIT,
    ensures
        r == quadratic_cooling_spec(
            initial_temperature as int,
            temperature_decay as int,
            iterations as nat,
        ),
        r <= initial_temperature,
{
    proof {
        assert((iterations as int) * (iterations as int)
            <= (u64::MAX as int) * (u64::MAX as int)) by (nonlinear_arith)
            requires
                0 <= iterations as int <= u64::MAX as int,
        ;
    }
    let isq: u128 = (iterations as u128) * (iterations as u128);
    if isq >= 100_000_000_000_000_000_000_000_000u128 {
        proof {
            let d = temperature_decay as int;
            let i = iterations as int;
            assert(d * i * i >= isq as int) by (nonlinear_arith)
                requires
                    d >= 1,
                    isq as int == i * i,
                    i >= 0,
            ;
            lemma_basic_div(
                (initial_temperature as int) * (SCALE as int),
                SCALE as int + d * i * i,
            );
        }
        return 0u64;
    }
    proof {
        assert((temperature_decay as int) * (isq as int) <= (DECAY_LIMIT as int) * (
        100_000_000_000_000_000_000_000_000int)) by (nonlinear_arith)
            requires
                0 <= temperature_decay as int <= DECAY_LIMIT as int,
                0 <= isq as int <= 100_000_000_000_000_000_000_000_000int,
        ;
    }
    let denom: u128 = (SCALE as u128) + (temperature_decay as u128) * isq;
    let wide: u128 = (initial_temperature as u128) * (SCALE as u128) / denom;
    proof {
        let d = temperature_decay as int;
        let i = iterations as int;
        assert(d * (isq as int) == d * i * i) by (nonlinear_arith)
            requires
                isq as int == i * i,
        ;
        lemma_div_is_ordered_by_denominator(
            (initial_temperature as int) * (SCALE as int),
            SCALE as int,
            denom as int,
        );
        lemma_div_multiples_vanish(initial_temperature as int, SCALE as int);
    }
    wide as u64
}

/// Logarithmic multiplicative cooling: initial / (1 + decay * ln(1 + i)),
/// with the interpolated fixed-point logarithm.
pub fn logarithmic_multiplicative_cooling(
    initial_temperature: u64,
    temperature_decay: u64,
    iterations: u64,
) -> (r: u64)
    requires
        initial_temperature <= TEMP_LIMIT,
        temperature_decay <= DECAY_LIMIT,
        iterations < u64::MAX,
    ensures
        r == logarithmic_cooling_spec(
            initial_temperature as int,
            temperature_decay as int,
            iterations as nat,
        ),
        r <= initial_temperature,
{
    let lnv = ln_fp(1 + iterations);
    proof {
        assert((temperature_decay as int) * (lnv as int) / (SCALE as int) <= (DECAY_LIMIT as int)
            * (64 * (LN2 as int)) / (SCALE as int)) by (nonlinear_arith)
            requires
                0 <= temperature_decay as int <= DECAY_LIMIT as int,
                0 <= lnv as int <= 64 * (LN2 as int),
        ;
    }
    let dln = mul_fp(temperature_decay, lnv);
    let denom: u128 = (SCALE as u128) + (dln as u128);
    let wide: u128 = (initial_temperature as u128) * (SCALE as u128) / denom;
    proof {
        lemma_div_is_ordered_by_denominator(
            (initial_temperature as int) * (SCALE as int),
            SCALE as int,
            denom as int,
        );
        lemma_div_multiples_vanish(initial_temperature as int, SCALE as int);
    }
    wide as u64
}

/// The temperature the selected schedule yields at iteration `i`.
pub fn temperature_at(
    method: &CoolingMethod,
    initial_temperature: u64,
    temperature_decay: u64,
    iterations: u64,
) -> (r: u64)
    requires
        initial_temperature <= TEMP_LIMIT,
        1 <= temperature_decay <= DECAY_LIMIT,
        method is ExponentialMultiplicativeCooling ==> temperature_decay <= SCALE,
        iterations < u64::MAX,
    ensures
        r == cooling_spec(
            *method,
            initial_temperature as int,
            temperature_decay as int,
            iterations as nat,
        ),
        r <= initial_temperature,
{
    match method {
        CoolingMethod::ExponentialMultiplicativeCooling => exponential_multiplicative_cooling(
            initial_temperature,
            temperature_decay,
            iterations,
        ),
        CoolingMethod::LogarithmicMultiplicativeCooling => logarithmic_multiplicative_cooling(
            initial_temperature,
            temperature_decay,
            iterations,
        ),
        CoolingMethod::LinearMultiplicativeCooling => linear_multiplicative_cooling(
            initial_temperature,
            temperature_decay,
            iterations,
        ),
        CoolingMethod::QuadraticMultiplicativeCooling => quadratic_multiplicative_cooling(
            initial_temperature,
            temperature_decay,
            iterations,
        ),
    }
}

/// Every schedule starts exactly at the initial temperature.
pub proof fn lemma_cooling_at_zero(method: CoolingMethod, t0: int, d: int)
    requires
        0 <= t0,
        0 <= d,
    ensures
        cooling_spec(method, t0, d, 0) == t0,
{
    lemma_ln_at_one();
    lemma_div_multiples_vanish(t0, SCALE as int);
    assert(d * 0 == 0) by (nonlinear_arith);
    assert(d * 0 * 0 == 0) by (nonlinear_arith);
    assert(d * ln_fp_spec(1) / (SCALE as int) == 0);
}

/// Every schedule is non-increasing in the iteration count, for a positive
/// decay (and, for the exponential variant, decay at most one).
pub proof fn lemma_cooling_nonincreasing(method: CoolingMethod, t0: int, d: int, i: nat, j: nat)
    requires
        0 <= t0,
        1 <= d,
        method is ExponentialMultiplicativeCooling ==> d <= SCALE,
        i <= j,
    ensures
        cooling_spec(method, t0, d, j) <= cooling_spec(method, t0, d, i),
    decreases j - i,
{
    if i < j {
        lemma_cooling_step(method, t0, d, i);
        lemma_cooling_nonincreasing(method, t0, d, (i + 1) as nat, j);
    }
}

proof fn lemma_cooling_step(method: CoolingMethod, t0: int, d: int, i: nat)
    requires
        0 <= t0,
        1 <= d,
        method is ExponentialMultiplicativeCooling ==> d <= SCALE,
    ensures
        cooling_spec(method, t0, d, (i + 1) as nat) <= cooling_spec(method, t0, d, i),
{
    match method {
        CoolingMethod::ExponentialMultiplicativeCooling => {
            lemma_pow_fp_bounds(d, (i + 1) as nat);
            if t0 > 0 {
                lemma_mul_left_inequality(
                    t0,
                    pow_fp_spec(d, (i + 1) as nat),
                    pow_fp_spec(d, i),
                );
                lemma_div_is_ordered(
                    t0 * pow_fp_spec(d, (i + 1) as nat),
                    t0 * pow_fp_spec(d, i),
                    SCALE as int,
                );
            } else {
                assert(t0 * pow_fp_spec(d, (i + 1) as nat) == 0) by (nonlinear_arith)
                    requires
                        t0 == 0,
                ;
                assert(t0 * pow_fp_spec(d, i) == 0) by (nonlinear_arith)
                    requires
                        t0 == 0,
                ;
            }
        },
        CoolingMethod::LogarithmicMultiplicativeCooling => {
            lemma_ln_monotone(1 + i as int, 1 + i as int + 1);
            lemma_mul_left_inequality(d, ln_fp_spec(1 + i as int), ln_fp_spec(1 + i as int + 1));
            lemma_div_is_ordered(
                d * ln_fp_spec(1 + i as int),
                d * ln_fp_spec(1 + i as int + 1),
                SCALE as int,
            );
            assert(ln_fp_spec(1 + i as int) >= 0) by {
                lemma_ln_monotone(1, 1 + i as int);
                lemma_ln_at_one();
            }
            lemma_div_pos_is_pos(d * ln_fp_spec(1 + i as int), SCALE as int);
            lemma_div_is_ordered_by_denominator(
                t0 * (SCALE as int),
                SCALE as int + d * ln_fp_spec(1 + i as int) / (SCALE as int),
                SCALE as int + d * ln_fp_spec(1 + i as int + 1) / (SCALE as int),
            );
        },
        CoolingMethod::LinearMultiplicativeCooling => {
            lemma_mul_left_inequality(d, i as int, (i + 1) as int);
            assert(d * (i as int) >= 0) by (nonlinear_arith)
                requires
                    d >= 1,
                    i >= 0,
            ;
            lemma_div_is_ordered_by_denominator(
                t0 * (SCALE as int),
                SCALE as int + d * (i as int),
                SCALE as int + d * ((i + 1) as int),
            );
        },
        CoolingMethod::QuadraticMultiplicativeCooling => {
            let a = i as int;
            assert(0 <= d * a * a <= d * (a + 1) * (a + 1)) by (nonlinear_arith)
                requires
                    d >= 1,
                    a >= 0,
            ;
            lemma_div_is_ordered_by_denominator(
                t0 * (SCALE as int),
                SCALE as int + d * a * a,
                SCALE as int + d * (a + 1) * (a + 1),
            );
        },
    }
}

} // verus!
