//! The Gaussian density in fixed-point arithmetic.
//!
//! `prob_of(val, mean, stdev)` evaluates
//! `(1 / (stdev * sqrt(2 * pi))) * exp(-((val - mean) / stdev)^2 / 2)`
//! over fixed-point values: the three arguments are scaled by `SCALE`,
//! the result by `PROB_ONE`. `exp(-x)` is approximated by splitting `x`
//! into its integer and fractional parts, a truncated alternating Taylor
//! series for the fractional part and repeated multiplication by
//! `exp(-1)` for the integer part.

use vstd::prelude::*;
use crate::{SCALE, PROB_ONE, VAL_MAX};

verus! {

/// `1 / sqrt(2 * pi)`, scaled by `PROB_ONE`.
pub const INV_SQRT_TAU_P: u64 = 398_942_280;

/// `exp(-1)`, scaled by `PROB_ONE`.
pub const EXP_NEG1_P: u64 = 367_879_441;

/// Exponents at or above this cutoff (scaled by `SCALE`, so 64.0) make
/// the density underflow to zero at `PROB_ONE` resolution.
pub const Q_CUT: u64 = 640_000;

/// `PROB_ONE / SCALE`: converts a `SCALE`-scaled value to `PROB_ONE` scale.
pub const FRAC_STEP: u64 = 100_000;

/// Largest value `prob_of` can return: the density at the mean for the
/// smallest admissible standard deviation.
pub const DENSITY_MAX: u64 = 3_989_422_800_000;

/// `x * a / b` stays at most `x` when `a <= b`.
proof fn lemma_mul_div_le(x: int, a: int, b: int)
    requires
        x >= 0,
        0 <= a <= b,
        0 < b,
    ensures
        0 <= x * a / b <= x,
{
    vstd::arithmetic::mul::lemma_mul_inequality(a, b, x);
    assert(x * a == a * x) by (nonlinear_arith);
    assert(x * b == b * x) by (nonlinear_arith);
    vstd::arithmetic::div_mod::lemma_div_is_ordered(x * a, x * b, b);
    vstd::arithmetic::div_mod::lemma_div_multiples_vanish(x, b);
    assert(x * a >= 0) by (nonlinear_arith)
        requires x >= 0 && a >= 0;
    vstd::arithmetic::div_mod::lemma_div_pos_is_pos(x * a, b);
}

/// `exp(-t / PROB_ONE)` for `0 <= t < PROB_ONE`, scaled by `PROB_ONE`:
/// the Taylor series truncated after the seventh power, clamped to one.
pub open spec fn spec_exp_frac(t: int) -> int {
    let t2 = t * t / (2 * PROB_ONE as int);
    let t3 = t2 * t / (3 * PROB_ONE as int);
    let t4 = t3 * t / (4 * PROB_ONE as int);
    let t5 = t4 * t / (5 * PROB_ONE as int);
    let t6 = t5 * t / (6 * PROB_ONE as int);
    let t7 = t6 * t / (7 * PROB_ONE as int);
    let f = (PROB_ONE - t) + (t2 - t3) + (t4 - t5) + (t6 - t7);
    if f > PROB_ONE {
        PROB_ONE as int
    } else {
        f
    }
}

/// `x` damped by `exp(-1)` `k` times, all scaled by `PROB_ONE`.
pub open spec fn spec_pow_decay(x: int, k: nat) -> int
    decreases k,
{
    if k == 0 {
        x
    } else {
        spec_pow_decay(x, (k - 1) as nat) * EXP_NEG1_P / PROB_ONE as int
    }
}

/// `exp(-q / SCALE)` for `0 <= q`, scaled by `PROB_ONE`.
pub open spec fn spec_expneg(q: int) -> int {
    spec_pow_decay(spec_exp_frac((q % SCALE as int) * FRAC_STEP), (q / SCALE as int) as nat)
}

proof fn lemma_pow_decay_bounds(x: int, k: nat)
    requires
        0 <= x <= PROB_ONE,
    ensures
        0 <= spec_pow_decay(x, k) <= PROB_ONE,
    decreases k,
{
    if k > 0 {
        lemma_pow_decay_bounds(x, (k - 1) as nat);
        lemma_mul_div_le(spec_pow_decay(x, (k - 1) as nat), EXP_NEG1_P as int, PROB_ONE as int);
    }
}

/// `exp(-q / SCALE)` scaled by `PROB_ONE`, exact per `spec_expneg`.
pub fn expneg(q: u64) -> (r: u64)
    requires
        q < Q_CUT,
    ensures
        r == spec_expneg(q as int),
        r <= PROB_ONE,
{
    let k = q / SCALE;
    let rem = q % SCALE;
    let t = rem * FRAC_STEP;
    proof {
        assert(t < PROB_ONE);
        assert((t as int) * (t as int) < 1_000_000_000_000_000_000) by (nonlinear_arith)
            requires 0 <= (t as int) && (t as int) < 1_000_000_000;
    }
    let t2 = t * t / (2 * PROB_ONE);
    proof {
        lemma_mul_div_le(t as int, t as int, 2 * PROB_ONE as int);
        assert((t2 as int) * (t as int) < 1_000_000_000_000_000_000) by (nonlinear_arith)
            requires 0 <= (t2 as int) && (t2 as int) < 1_000_000_000 && 0 <= (t as int) && (t as int) < 1_000_000_000;
    }
    let t3 = t2 * t / (3 * PROB_ONE);
    proof {
        lemma_mul_div_le(t2 as int, t as int, 3 * PROB_ONE as int);
        assert((t3 as int) * (t as int) < 1_000_000_000_000_000_000) by (nonlinear_arith)
            requires 0 <= (t3 as int) && (t3 as int) < 1_000_000_000 && 0 <= (t as int) && (t as int) < 1_000_000_000;
    }
    let t4 = t3 * t / (4 * PROB_ONE);
    proof {
        lemma_mul_div_le(t3 as int, t as int, 4 * PROB_ONE as int);
        assert((t4 as int) * (t as int) < 1_000_000_000_000_000_000) by (nonlinear_arith)
            requires 0 <= (t4 as int) && (t4 as int) < 1_000_000_000 && 0 <= (t as int) && (t as int) < 1_000_000_000;
    }
    let t5 = t4 * t / (5 * PROB_ONE);
    proof {
        lemma_mul_div_le(t4 as int, t as int, 5 * PROB_ONE as int);
        assert((t5 as int) * (t as int) < 1_000_000_000_000_000_000) by (nonlinear_arith)
            requires 0 <= (t5 as int) && (t5 as int) < 1_000_000_000 && 0 <= (t as int) && (t as int) < 1_000_000_000;
    }
    let t6 = t5 * t / (6 * PROB_ONE);
    proof {
        lemma_mul_div_le(t5 as int, t as int, 6 * PROB_ONE as int);
        assert((t6 as int) * (t as int) < 1_000_000_000_000_000_000) by (nonlinear_arith)
            requires 0 <= (t6 as int) && (t6 as int) < 1_000_000_000 && 0 <= (t as int) && (t as int) < 1_000_000_000;
    }
    let t7 = t6 * t / (7 * PROB_ONE);
    proof {
        lemma_mul_div_le(t6 as int, t as int, 7 * PROB_ONE as int);
    }
    let f = (PROB_ONE - t) + (t2 - t3) + (t4 - t5) + (t6 - t7);
    let frac = if f > PROB_ONE {
        PROB_ONE
    } else {
        f
    };
    proof {
        assert(frac == spec_exp_frac(t as int));
    }
    let mut acc = frac;
    let mut i: u64 = 0;
    while i < k
        invariant
            0 <= i <= k,
            k < 64,
            acc == spec_pow_decay(spec_exp_frac(t as int), i as nat),
            acc <= PROB_ONE,
        decreases k - i,
    {
        acc = acc * EXP_NEG1_P / PROB_ONE;
        proof {
            lemma_mul_div_le(
                spec_pow_decay(spec_exp_frac(t as int), i as nat),
                EXP_NEG1_P as int,
                PROB_ONE as int,
            );
        }
        i = i + 1;
    }
    acc
}

/// Gaussian density at `val` for the given `mean` and `stdev`, all three
/// scaled by `SCALE`; the result is scaled by `PROB_ONE` and exact per
/// `spec_prob_of`.
///
/// A zero standard deviation leaves the density undefined, so it is
/// excluded here; `class_prob` turns that case into a domain error.
pub open spec fn spec_prob_of(val: int, mean: int, stdev: int) -> int {
    let diff = if val >= mean {
        val - mean
    } else {
        mean - val
    };
    let z = diff * SCALE / stdev;
    let q = z * z / (2 * SCALE as int);
    let e = if q >= Q_CUT {
        0
    } else {
        spec_expneg(q)
    };
    let inv = INV_SQRT_TAU_P * SCALE / stdev;
    inv * e / PROB_ONE as int
}

pub fn prob_of(val: u64, mean: u64, stdev: u64) -> (r: u64)
    requires
        val <= VAL_MAX,
        mean <= VAL_MAX,
        1 <= stdev <= VAL_MAX,
    ensures
        r == spec_prob_of(val as int, mean as int, stdev as int),
        r <= DENSITY_MAX,
{
    let diff = if val >= mean {
        val - mean
    } else {
        mean - val
    };
    proof {
        vstd::arithmetic::div_mod::lemma_div_nonincreasing((diff as int) * (SCALE as int), stdev as int);
        vstd::arithmetic::div_mod::lemma_div_pos_is_pos((diff as int) * (SCALE as int), stdev as int);
        assert((diff as int) * (SCALE as int) <= VAL_MAX as int * SCALE as int) by (nonlinear_arith)
            requires 0 <= diff as int <= VAL_MAX as int;
    }
    let z = diff * SCALE / stdev;
    let z128 = z as u128;
    proof {
        assert((z128 as int) * (z128 as int) <= 1_000_000_000_000_000_000_000_000_000_000)
            by (nonlinear_arith)
            requires 0 <= (z128 as int) && (z128 as int) <= 1_000_000_000_000_000;
    }
    let q128 = z128 * z128 / (2 * SCALE as u128);
    proof {
        vstd::arithmetic::div_mod::lemma_div_pos_is_pos((z128 as int) * (z128 as int), 2 * SCALE as int);
    }
    let e: u64 = if q128 >= Q_CUT as u128 {
        0
    } else {
        expneg(q128 as u64)
    };
    proof {
        vstd::arithmetic::div_mod::lemma_div_nonincreasing(
            (INV_SQRT_TAU_P as int) * (SCALE as int),
            stdev as int,
        );
        vstd::arithmetic::div_mod::lemma_div_pos_is_pos(
            (INV_SQRT_TAU_P as int) * (SCALE as int),
            stdev as int,
        );
    }
    let inv = INV_SQRT_TAU_P * SCALE / stdev;
    proof {
        vstd::arithmetic::div_mod::lemma_mod_bound(q128 as int, SCALE as int);
        vstd::arithmetic::div_mod::lemma_div_pos_is_pos(q128 as int, SCALE as int);
        lemma_exp_frac_bounds((q128 as int % SCALE as int) * FRAC_STEP);
        lemma_pow_decay_bounds(
            spec_exp_frac((q128 as int % SCALE as int) * FRAC_STEP),
            (q128 as int / SCALE as int) as nat,
        );
        lemma_mul_div_le(inv as int, e as int, PROB_ONE as int);
    }
    ((inv as u128) * (e as u128) / (PROB_ONE as u128)) as u64
}

proof fn lemma_exp_frac_bounds(t: int)
    requires
        0 <= t < PROB_ONE,
    ensures
        0 <= spec_exp_frac(t) <= PROB_ONE,
{
    let t2 = t * t / (2 * PROB_ONE);
    let t3 = t2 * t / (3 * PROB_ONE);
    let t4 = t3 * t / (4 * PROB_ONE);
    let t5 = t4 * t / (5 * PROB_ONE);
    let t6 = t5 * t / (6 * PROB_ONE);
    let t7 = t6 * t / (7 * PROB_ONE);
    lemma_mul_div_le(t, t, 2 * PROB_ONE as int);
    lemma_mul_div_le(t2, t, 3 * PROB_ONE as int);
    lemma_mul_div_le(t3, t, 4 * PROB_ONE as int);
    lemma_mul_div_le(t4, t, 5 * PROB_ONE as int);
    lemma_mul_div_le(t5, t, 6 * PROB_ONE as int);
    lemma_mul_div_le(t6, t, 7 * PROB_ONE as int);
}

} // verus!
