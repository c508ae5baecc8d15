//! Per-sequence statistics: sum, dot product, mean, single-pass variance
//! and standard deviation, all over fixed-point values.
//!
//! The variance is computed with the naive single-pass formula
//! `dot(d, d) / n - mean(d)^2`; the proof that this never goes negative
//! (the integer Cauchy–Schwarz inequality) lives here too.

use vstd::prelude::*;
use crate::{VAL_MAX, LEN_MAX};

verus! {

/// Sum of a sequence of fixed-point values.
pub open spec fn sum_seq(s: Seq<u64>) -> int
    decreases s.len(),
{
    if s.len() == 0 {
        0
    } else {
        sum_seq(s.drop_last()) + s.last()
    }
}

/// Dot product of two sequences of equal length.
pub open spec fn dot_seq(a: Seq<u64>, b: Seq<u64>) -> int
    decreases a.len(),
{
    if a.len() == 0 {
        0
    } else {
        dot_seq(a.drop_last(), b.drop_last()) + a.last() * b.last()
    }
}

/// Arithmetic mean, rounded down (meaningful for nonempty sequences).
pub open spec fn spec_mean(s: Seq<u64>) -> int {
    sum_seq(s) / s.len() as int
}

/// Single-pass population variance, rounded down.
pub open spec fn spec_var(s: Seq<u64>) -> int {
    dot_seq(s, s) / s.len() as int - spec_mean(s) * spec_mean(s)
}

/// Integer square root: the largest `r` with `r * r <= n`.
pub open spec fn spec_isqrt(n: int) -> int
    decreases n,
{
    if n <= 0 {
        0
    } else {
        let r = spec_isqrt(n - 1);
        if (r + 1) * (r + 1) <= n {
            r + 1
        } else {
            r
        }
    }
}

/// Population standard deviation of a nonempty sequence.
pub open spec fn spec_stdev(s: Seq<u64>) -> int {
    spec_isqrt(spec_var(s))
}

pub proof fn lemma_sum_nonneg(s: Seq<u64>)
    ensures
        sum_seq(s) >= 0,
    decreases s.len(),
{
    if s.len() > 0 {
        lemma_sum_nonneg(s.drop_last());
    }
}

pub proof fn lemma_sum_bound(s: Seq<u64>)
    requires
        forall|i: int| 0 <= i < s.len() ==> s[i] <= VAL_MAX,
    ensures
        sum_seq(s) <= s.len() * VAL_MAX,
    decreases s.len(),
{
    if s.len() > 0 {
        assert(forall|i: int| 0 <= i < s.drop_last().len() ==> s.drop_last()[i] <= VAL_MAX);
        lemma_sum_bound(s.drop_last());
    }
}

pub proof fn lemma_dot_nonneg(a: Seq<u64>, b: Seq<u64>)
    requires
        a.len() == b.len(),
    ensures
        dot_seq(a, b) >= 0,
    decreases a.len(),
{
    if a.len() > 0 {
        lemma_dot_nonneg(a.drop_last(), b.drop_last());
        assert(a.last() * b.last() >= 0) by (nonlinear_arith)
            requires a.last() >= 0 && b.last() >= 0;
    }
}

proof fn lemma_isqrt_bounds(n: int)
    requires
        n >= 0,
    ensures
        spec_isqrt(n) >= 0,
        spec_isqrt(n) * spec_isqrt(n) <= n,
        n < (spec_isqrt(n) + 1) * (spec_isqrt(n) + 1),
    decreases n,
{
    if n > 0 {
        lemma_isqrt_bounds(n - 1);
        let r = spec_isqrt(n - 1);
        if (r + 1) * (r + 1) <= n {
            assert(n < (r + 2) * (r + 2)) by (nonlinear_arith)
                requires n - 1 < (r + 1) * (r + 1) && r >= 0;
        }
    }
}

proof fn lemma_isqrt_unique(n: int, r: int)
    requires
        n >= 0,
        r >= 0,
        r * r <= n,
        n < (r + 1) * (r + 1),
    ensures
        r == spec_isqrt(n),
{
    lemma_isqrt_bounds(n);
    let s = spec_isqrt(n);
    assert(r == s) by (nonlinear_arith)
        requires
            r >= 0 && s >= 0 && r * r <= n && n < (r + 1) * (r + 1) && s * s <= n && n < (s + 1)
                * (s + 1);
}

/// Integer square root of `x`, exact per `spec_isqrt`.
pub fn isqrt(x: u128) -> (r: u64)
    requires
        x < 0x100000000000000000000,  // 2^80, so the search bound squares safely
    ensures
        r == spec_isqrt(x as int),
        r * r <= x,
{
    let mut lo: u128 = 0;
    let mut hi: u128 = 0x10000000000;  // 2^40
    assert(0x10000000000u128 * 0x10000000000u128 == 0x100000000000000000000u128)
        by (nonlinear_arith);
    while lo + 1 < hi
        invariant
            0 <= lo < hi <= 0x10000000000,
            lo * lo <= x,
            x < hi * hi,
        decreases hi - lo,
    {
        let mid = lo + (hi - lo) / 2;
        assert(lo < mid < hi);
        proof {
            assert(mid * mid <= 0x100000000000000000000) by (nonlinear_arith)
                requires 0 <= mid <= 0x10000000000;
        }
        if mid * mid <= x {
            lo = mid;
        } else {
            hi = mid;
        }
    }
    proof {
        assert(hi == lo + 1);
        lemma_isqrt_unique(x as int, lo as int);
        assert(lo * lo <= x);
        assert(lo < 0x10000000000) by (nonlinear_arith)
            requires lo >= 0 && lo * lo <= x && x < 0x100000000000000000000;
    }
    lo as u64
}

/// Sum of the elements of `data` (exact, in 128-bit arithmetic).
fn sum(data: &Vec<u64>) -> (r: u128)
    requires
        data@.len() <= LEN_MAX,
        forall|i: int| 0 <= i < data@.len() ==> data@[i] <= VAL_MAX,
    ensures
        r == sum_seq(data@),
{
    let mut acc: u128 = 0;
    let mut i: usize = 0;
    while i < data.len()
        invariant
            0 <= i <= data@.len(),
            data@.len() <= LEN_MAX,
            forall|k: int| 0 <= k < data@.len() ==> data@[k] <= VAL_MAX,
            acc == sum_seq(data@.take(i as int)),
            acc <= (i as int) * VAL_MAX,
        decreases data@.len() - i,
    {
        proof {
            assert(data@.take(i as int + 1).drop_last() =~= data@.take(i as int));
            assert(data@.take(i as int + 1).last() == data@[i as int]);
        }
        acc = acc + data[i] as u128;
        i = i + 1;
    }
    proof {
        assert(data@.take(data@.len() as int) =~= data@);
    }
    acc
}

/// Arithmetic mean of a nonempty `data`, exact per `spec_mean`.
pub fn mean(data: &Vec<u64>) -> (r: u64)
    requires
        1 <= data@.len() <= LEN_MAX,
        forall|i: int| 0 <= i < data@.len() ==> data@[i] <= VAL_MAX,
    ensures
        r == spec_mean(data@),
        r <= VAL_MAX,
{
    let s = sum(data);
    let n = data.len() as u128;
    proof {
        lemma_sum_nonneg(data@);
        lemma_sum_bound(data@);
        vstd::arithmetic::div_mod::lemma_div_multiples_vanish(VAL_MAX as int, n as int);
        vstd::arithmetic::div_mod::lemma_div_is_ordered(
            s as int,
            (n as int) * VAL_MAX,
            n as int,
        );
        assert((n as int) * VAL_MAX == VAL_MAX * (n as int)) by (nonlinear_arith);
    }
    (s / n) as u64
}

/// Dot product of `a` and `b` (exact, in 128-bit arithmetic).
pub fn dot(a: &Vec<u64>, b: &Vec<u64>) -> (r: u128)
    requires
        a@.len() == b@.len(),
        a@.len() <= LEN_MAX,
        forall|i: int| 0 <= i < a@.len() ==> a@[i] <= VAL_MAX,
        forall|i: int| 0 <= i < b@.len() ==> b@[i] <= VAL_MAX,
    ensures
        r == dot_seq(a@, b@),
{
    let mut acc: u128 = 0;
    let mut i: usize = 0;
    while i < a.len()
        invariant
            0 <= i <= a@.len(),
            a@.len() == b@.len(),
            a@.len() <= LEN_MAX,
            forall|k: int| 0 <= k < a@.len() ==> a@[k] <= VAL_MAX,
            forall|k: int| 0 <= k < b@.len() ==> b@[k] <= VAL_MAX,
            acc == dot_seq(a@.take(i as int), b@.take(i as int)),
            acc <= (i as int) * (VAL_MAX * VAL_MAX),
        decreases a@.len() - i,
    {
        proof {
            assert(a@.take(i as int + 1).drop_last() =~= a@.take(i as int));
            assert(b@.take(i as int + 1).drop_last() =~= b@.take(i as int));
            assert(a@[i as int] * b@[i as int] <= VAL_MAX * VAL_MAX) by (nonlinear_arith)
                requires
                    0 <= a@[i as int] <= VAL_MAX && 0 <= b@[i as int] <= VAL_MAX;
            assert((i as int) * (VAL_MAX * VAL_MAX) + VAL_MAX * VAL_MAX == (i as int + 1) * (
            VAL_MAX * VAL_MAX)) by (nonlinear_arith);
            assert((i as int + 1) * (VAL_MAX * VAL_MAX) <= LEN_MAX * (VAL_MAX * VAL_MAX))
                by (nonlinear_arith)
                requires i as int + 1 <= LEN_MAX;
            assert(LEN_MAX * (VAL_MAX as int * VAL_MAX as int)
                == 10_000_000_000_000_000_000_000_000_000) by (nonlinear_arith);
        }
        acc = acc + (a[i] as u128) * (b[i] as u128);
        i = i + 1;
    }
    proof {
        assert(a@.take(a@.len() as int) =~= a@);
        assert(b@.take(b@.len() as int) =~= b@);
    }
    acc
}

/// Integer Cauchy–Schwarz: `n * dot(s, s) >= sum(s)^2`.
///
/// This is what makes the single-pass variance formula safe: the mean
/// square dominates the squared mean.
pub proof fn lemma_cauchy_schwarz(s: Seq<u64>)
    ensures
        s.len() * dot_seq(s, s) >= sum_seq(s) * sum_seq(s),
    decreases s.len(),
{
    if s.len() == 0 {
        assert(sum_seq(s) == 0);
    } else {
        let t = s.drop_last();
        let x = s.last() as int;
        lemma_cauchy_schwarz(t);
        lemma_sum_nonneg(t);
        lemma_dot_nonneg(t, t);
        let n = t.len() as int;
        let sm = sum_seq(t);
        let q = dot_seq(t, t);
        if n == 0 {
            assert(sm == 0);
            assert((n + 1) * (q + x * x) >= (sm + x) * (sm + x)) by (nonlinear_arith)
                requires n == 0 && sm == 0 && q == 0 && x >= 0;
        } else {
            assert((n + 1) * (q + x * x) >= (sm + x) * (sm + x)) by (nonlinear_arith)
                requires
                    n >= 1 && x >= 0 && sm >= 0 && q >= 0 && n * q >= sm * sm;
        }
        assert(s.len() * dot_seq(s, s) == (n + 1) * (q + x * x));
        assert(sum_seq(s) * sum_seq(s) == (sm + x) * (sm + x));
    }
}

/// The single-pass variance of a nonempty sequence is nonnegative:
/// `dot(s, s) / n >= mean(s)^2`.
proof fn lemma_var_nonneg(s: Seq<u64>)
    requires
        s.len() >= 1,
    ensures
        spec_var(s) >= 0,
        spec_mean(s) >= 0,
{
    let n = s.len() as int;
    let sm = sum_seq(s);
    let q = dot_seq(s, s);
    let m = spec_mean(s);
    lemma_cauchy_schwarz(s);
    lemma_sum_nonneg(s);
    lemma_dot_nonneg(s, s);
    vstd::arithmetic::div_mod::lemma_div_pos_is_pos(sm, n);
    vstd::arithmetic::div_mod::lemma_fundamental_div_mod(sm, n);
    vstd::arithmetic::div_mod::lemma_mod_bound(sm, n);
    // m * n <= sm, hence (m * n)^2 <= sm^2 <= n * q, hence n * (n * m^2) <= n * q,
    // hence n * m^2 <= q.
    assert(n * (m * m) <= q) by (nonlinear_arith)
        requires
            n >= 1 && m >= 0 && sm >= 0 && q >= 0 && n * m <= sm && n * q >= sm * sm;
    vstd::arithmetic::div_mod::lemma_div_multiples_vanish(m * m, n);
    vstd::arithmetic::div_mod::lemma_div_is_ordered(n * (m * m), q, n);
    assert(q / n >= m * m);
}

/// Population standard deviation of a nonempty `data`, exact per
/// `spec_stdev`. The subtraction inside cannot underflow: see
/// `lemma_var_nonneg`.
pub fn stdev(data: &Vec<u64>) -> (r: u64)
    requires
        1 <= data@.len() <= LEN_MAX,
        forall|i: int| 0 <= i < data@.len() ==> data@[i] <= VAL_MAX,
    ensures
        r == spec_stdev(data@),
        r <= VAL_MAX,
{
    let d = dot(data, data);
    let n = data.len() as u128;
    let m = mean(data);
    let ex2 = d / n;
    proof {
        lemma_var_nonneg(data@);
        lemma_dot_nonneg(data@, data@);
        // ex2 bound: d <= n * VAL_MAX^2, so d / n <= VAL_MAX^2
        lemma_dot_bound(data@);
        vstd::arithmetic::div_mod::lemma_div_multiples_vanish(
            VAL_MAX as int * VAL_MAX as int,
            n as int,
        );
        vstd::arithmetic::div_mod::lemma_div_is_ordered(
            d as int,
            (n as int) * (VAL_MAX as int * VAL_MAX as int),
            n as int,
        );
        assert((n as int) * (VAL_MAX as int * VAL_MAX as int) == (VAL_MAX as int * VAL_MAX as int)
            * (n as int)) by (nonlinear_arith);
    }
    let variance = ex2 - (m as u128) * (m as u128);
    let r = isqrt(variance);
    proof {
        lemma_isqrt_bounds(variance as int);
        assert(r <= VAL_MAX) by (nonlinear_arith)
            requires
                r >= 0 && r * r <= variance && variance <= VAL_MAX as int * VAL_MAX as int;
    }
    r
}

proof fn lemma_dot_bound(s: Seq<u64>)
    requires
        forall|i: int| 0 <= i < s.len() ==> s[i] <= VAL_MAX,
    ensures
        dot_seq(s, s) <= s.len() * (VAL_MAX * VAL_MAX),
    decreases s.len(),
{
    if s.len() > 0 {
        assert(forall|i: int| 0 <= i < s.drop_last().len() ==> s.drop_last()[i] <= VAL_MAX);
        lemma_dot_bound(s.drop_last());
        assert(s.last() * s.last() <= VAL_MAX * VAL_MAX) by (nonlinear_arith)
            requires 0 <= s.last() <= VAL_MAX;
    }
}


/// The standard deviation is well defined and nonnegative for every
/// sequence of at least two values: the single-pass variance
/// `dot(d, d) / n - mean(d)^2` never goes negative, so taking its square
/// root cannot fail or underflow.
pub proof fn lemma_stdev_nonneg(d: Seq<u64>)
    requires
        d.len() >= 2,
    ensures
        spec_var(d) >= 0,
        spec_stdev(d) >= 0,
        dot_seq(d, d) / d.len() as int >= spec_mean(d) * spec_mean(d),
{
    lemma_var_nonneg(d);
    lemma_isqrt_bounds(spec_var(d));
}

/// The sequence holding `n` copies of `v`.
pub open spec fn repeat_seq(v: u64, n: nat) -> Seq<u64> {
    Seq::new(n, |i: int| v)
}

proof fn lemma_sum_const(v: u64, n: nat)
    ensures
        sum_seq(repeat_seq(v, n)) == n * v,
    decreases n,
{
    let s = repeat_seq(v, n);
    if n == 0 {
        assert(n * v == 0) by (nonlinear_arith)
            requires n == 0;
    } else {
        lemma_sum_const(v, (n - 1) as nat);
        assert(s.drop_last() =~= repeat_seq(v, (n - 1) as nat));
        assert(s.last() == v);
        assert((n - 1) * v + v == n * v) by (nonlinear_arith);
    }
}

proof fn lemma_dot_const(v: u64, n: nat)
    ensures
        dot_seq(repeat_seq(v, n), repeat_seq(v, n)) == n * (v * v),
    decreases n,
{
    let s = repeat_seq(v, n);
    if n == 0 {
        assert(n * (v * v) == 0) by (nonlinear_arith)
            requires n == 0;
    } else {
        lemma_dot_const(v, (n - 1) as nat);
        assert(s.drop_last() =~= repeat_seq(v, (n - 1) as nat));
        assert(s.last() == v);
        assert((n - 1) * (v * v) + v * v == n * (v * v)) by (nonlinear_arith);
    }
}

/// Over a sequence holding a single repeated value `v`, the mean is `v`
/// itself and the standard deviation is exactly zero.
pub proof fn lemma_repeated_value(v: u64, n: nat)
    requires
        n >= 1,
    ensures
        spec_mean(repeat_seq(v, n)) == v,
        spec_stdev(repeat_seq(v, n)) == 0,
{
    let s = repeat_seq(v, n);
    lemma_sum_const(v, n);
    lemma_dot_const(v, n);
    assert(n * v == n as int * (v as int)) by (nonlinear_arith);
    vstd::arithmetic::div_mod::lemma_div_multiples_vanish(v as int, n as int);
    assert(spec_mean(s) == v);
    vstd::arithmetic::div_mod::lemma_div_multiples_vanish((v * v) as int, n as int);
    assert(n * ((v as int) * (v as int)) == (n as int) * ((v * v) as int)) by (nonlinear_arith);
    assert(dot_seq(s, s) / s.len() as int == v * v);
    assert(spec_var(s) == 0);
    assert(spec_isqrt(0) == 0);
}

} // verus!
