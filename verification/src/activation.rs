//! Exponential decay and the two squashing functions of the network.

use vstd::prelude::*;
use crate::fixed::{
    ONE, fx_mul, lemma_quot_bound, lemma_times_monotone, lemma_times_shrinks, quot, times,
};

verus! {

/// The reciprocal of Euler's number.
pub const INV_E: i64 = 441_455;

/// From this exponent on, the decay is below the resolution and counts as zero.
pub const DECAY_REACH: i64 = 19_200_000;

/// From this argument on, the hyperbolic tangent counts as one.
pub const TANH_REACH: i64 = 9_600_000;

/// `base` raised to the power `n`, for a base between zero and one.
pub open spec fn power(base: int, n: nat) -> int
    decreases n,
{
    if n == 0 {
        ONE as int
    } else {
        times(power(base, (n - 1) as nat), base)
    }
}

/// The tail of the exponential series of `-r` from its `k`-th factor on:
/// `1 - r/k * (1 - r/(k+1) * (...))`, cut after the eighth factor.
pub open spec fn decay_series(r: int, k: int) -> int
    decreases 9 - k,
{
    if k < 1 || k > 8 {
        ONE as int
    } else {
        ONE - quot(times(r, decay_series(r, k + 1)), k)
    }
}

/// `e` raised to the power `-x`, for `x >= 0`: whole units of the exponent
/// are powers of `INV_E`, the rest is the series.
pub open spec fn decay(x: int) -> int {
    if x >= DECAY_REACH {
        0
    } else {
        times(power(INV_E as int, (x / (ONE as int)) as nat), decay_series(x % (ONE as int), 1))
    }
}

/// The hyperbolic tangent of `x >= 0`.
pub open spec fn tanh_half(x: int) -> int {
    quot((ONE - decay(2 * x)) * ONE, ONE + decay(2 * x))
}

/// The hyperbolic tangent: `(1 - e^(-2x)) / (1 + e^(-2x))`, continued as an
/// odd function.
pub open spec fn tanh_of(x: int) -> int {
    if x < 0 {
        -tanh_half(-x)
    } else {
        tanh_half(x)
    }
}

/// The logistic function of `x >= 0`.
pub open spec fn sigmoid_half(x: int) -> int {
    quot(ONE * ONE, ONE + decay(x))
}

/// The logistic function `1 / (1 + e^(-x))`; its values at `x` and `-x` add
/// up to one.
pub open spec fn sigmoid_of(x: int) -> int {
    if x < 0 {
        ONE - sigmoid_half(-x)
    } else {
        sigmoid_half(x)
    }
}

/// A power of a base between zero and one lies between zero and one.
pub proof fn lemma_power_bounds(base: int, n: nat)
    requires
        0 <= base <= ONE,
    ensures
        0 <= power(base, n) <= ONE,
    decreases n,
{
    if n > 0 {
        lemma_power_bounds(base, (n - 1) as nat);
        lemma_times_shrinks(power(base, (n - 1) as nat), base, ONE as int);
    }
}

/// Every tail of the series lies between zero and one.
pub proof fn lemma_series_bounds(r: int, k: int)
    requires
        0 <= r <= ONE,
    ensures
        0 <= decay_series(r, k) <= ONE,
    decreases 9 - k,
{
    if 1 <= k <= 8 {
        lemma_series_bounds(r, k + 1);
        lemma_times_shrinks(decay_series(r, k + 1), r, ONE as int);
        lemma_times_shrinks(r, decay_series(r, k + 1), ONE as int);
        lemma_quot_bound(times(r, decay_series(r, k + 1)), k, ONE as int);
    }
}

/// The decay lies between zero and one, and is one at zero.
pub proof fn lemma_decay_bounds(x: int)
    requires
        x >= 0,
    ensures
        0 <= decay(x) <= ONE,
        decay(0) == ONE,
{
    if x < DECAY_REACH {
        lemma_power_bounds(INV_E as int, (x / (ONE as int)) as nat);
        lemma_series_bounds(x % (ONE as int), 1);
        lemma_times_shrinks(
            power(INV_E as int, (x / (ONE as int)) as nat),
            decay_series(x % (ONE as int), 1),
            ONE as int,
        );
    }
    assert(decay(0) == ONE) by {
        reveal_with_fuel(decay_series, 10);
        assert(times(0, ONE as int) == 0);
        assert(decay_series(0, 1) == ONE);
        assert(power(INV_E as int, 0) == ONE);
        assert(times(ONE as int, ONE as int) == ONE);
    }
}

/// Below one, the decay lies between the sums of its series up to the
/// first and up to the second power, `1 - x` and `1 - x + x^2/2`, as `e`
/// to the power `-x` does; and at a whole number it is that power of
/// `INV_E`.
pub proof fn lemma_decay_enclosed(x: int, k: nat)
    requires
        0 <= x < ONE,
        k < 16,
    ensures
        ONE - x <= decay(x) <= ONE - times(x, ONE - quot(x, 2)),
        decay(k * ONE) == power(INV_E as int, k),
        decay(ONE as int) == INV_E,
{
    reveal_with_fuel(decay_series, 3);
    reveal_with_fuel(power, 2);
    let one = ONE as int;
    lemma_series_bounds(x, 3);
    let s3 = decay_series(x, 3);
    lemma_times_shrinks(x, s3, one);
    lemma_times_monotone(x, s3, one);
    lemma_times_shrinks(x, s3, x);
    let s2 = decay_series(x, 2);
    assert(s2 == one - quot(times(x, s3), 2));
    assert(0 <= times(x, s3) <= x);
    assert(quot(times(x, s3), 2) <= quot(x, 2)) by (nonlinear_arith)
        requires
            0 <= times(x, s3) <= x,
    ;
    lemma_quot_bound(times(x, s3), 2, one);
    lemma_times_monotone(x, one - quot(x, 2), s2);
    lemma_times_monotone(x, s2, one);
    let s1 = decay_series(x, 1);
    assert(s1 == one - quot(times(x, s2), 1));
    lemma_series_bounds(x, 1);
    lemma_times_monotone(s1, one, one);
    assert(x / one == 0 && x % one == x);
    assert(decay(x) == times(one, s1));
    assert((k * one) / one == k && (k * one) % one == 0) by (nonlinear_arith)
        requires
            one > 0,
            k >= 0,
    ;
    assert(k * one < DECAY_REACH) by (nonlinear_arith)
        requires
            k < 16,
            one == 1_200_000,
    ;
    assert(times(0, decay_series(0, 2)) == 0);
    assert(decay_series(0, 1) == one);
    lemma_power_bounds(INV_E as int, k);
    lemma_times_monotone(power(INV_E as int, k), one, one);
    assert(1 * one == one);
    assert(times(one, INV_E as int) == INV_E) by {
        lemma_times_monotone(INV_E as int, one, one);
    }
}

/// The hyperbolic tangent lies between minus one and one, is odd, and is
/// zero at zero.
pub proof fn lemma_tanh_bounds(x: int)
    ensures
        -ONE <= tanh_of(x) <= ONE,
        x >= 0 ==> tanh_of(x) >= 0,
        tanh_of(-x) == -tanh_of(x),
        tanh_of(0) == 0,
{
    let y = if x < 0 { -x } else { x };
    lemma_decay_bounds(2 * y);
    let e = decay(2 * y);
    assert(0 <= (ONE - e) * ONE <= (ONE + e) * ONE) by (nonlinear_arith)
        requires
            0 <= e <= ONE,
    ;
    assert(0 <= quot((ONE - e) * ONE, ONE + e) <= ONE) by (nonlinear_arith)
        requires
            0 <= (ONE - e) * ONE <= (ONE + e) * ONE,
            0 <= e <= ONE,
    ;
    lemma_decay_bounds(0);
}

/// The logistic function lies between zero and one, is at least a half
/// from zero on, and is a half at zero.
pub proof fn lemma_sigmoid_bounds(x: int)
    ensures
        0 <= sigmoid_of(x) <= ONE,
        x >= 0 ==> 2 * sigmoid_of(x) >= ONE,
        x != 0 ==> sigmoid_of(x) + sigmoid_of(-x) == ONE,
        sigmoid_of(0) == ONE / 2,
{
    let y = if x < 0 { -x } else { x };
    lemma_decay_bounds(y);
    let e = decay(y);
    assert(ONE / 2 <= quot(ONE * ONE, ONE + e) <= ONE) by (nonlinear_arith)
        requires
            0 <= e <= ONE,
    ;
    lemma_decay_bounds(0);
}

/// Raises a base between zero and one to the power `n`.
pub fn raise(base: i64, n: u64) -> (r: i64)
    requires
        0 <= base <= ONE,
    ensures
        r == power(base as int, n as nat),
        0 <= r <= ONE,
{
    let mut r: i64 = ONE;
    let mut i: u64 = 0;
    while i < n
        invariant
            i <= n,
            0 <= base <= ONE,
            r == power(base as int, i as nat),
            0 <= r <= ONE,
        decreases n - i,
    {
        proof {
            lemma_power_bounds(base as int, (i + 1) as nat);
        }
        r = fx_mul(r, base);
        i = i + 1;
    }
    r
}

/// Sums the series of `e` to the power `-r` for `r` between zero and one.
fn series(r: i64) -> (t: i64)
    requires
        0 <= r <= ONE,
    ensures
        t == decay_series(r as int, 1),
        0 <= t <= ONE,
{
    let mut t: i64 = ONE;
    let mut k: i64 = 8;
    while k >= 1
        invariant
            0 <= k <= 8,
            0 <= r <= ONE,
            t == decay_series(r as int, k + 1),
            0 <= t <= ONE,
        decreases k,
    {
        proof {
            lemma_series_bounds(r as int, k as int);
            lemma_times_shrinks(r as int, t as int, ONE as int);
        }
        t = ONE - fx_mul(r, t) / k;
        k = k - 1;
    }
    t
}

/// Computes `e` to the power `-x` for `x >= 0`.
pub fn decay_at(x: i64) -> (r: i64)
    requires
        x >= 0,
    ensures
        r == decay(x as int),
        0 <= r <= ONE,
{
    proof {
        lemma_decay_bounds(x as int);
    }
    if x >= DECAY_REACH {
        0
    } else {
        let whole: i64 = x / ONE;
        let part: i64 = x % ONE;
        let p: i64 = raise(INV_E, whole as u64);
        let t: i64 = series(part);
        fx_mul(p, t)
    }
}

/// The hyperbolic tangent of `x`.
pub fn tanh(x: i64) -> (r: i64)
    ensures
        r == tanh_of(x as int),
        -ONE <= r <= ONE,
{
    proof {
        lemma_tanh_bounds(x as int);
    }
    if x >= TANH_REACH {
        ONE
    } else if x <= -TANH_REACH {
        -ONE
    } else if x < 0 {
        let y: i64 = -x;
        let e: i64 = decay_at(2 * y);
        -(((ONE - e) * ONE) / (ONE + e))
    } else {
        let e: i64 = decay_at(2 * x);
        ((ONE - e) * ONE) / (ONE + e)
    }
}

/// The logistic function of `x`.
pub fn sigmoid(x: i64) -> (r: i64)
    ensures
        r == sigmoid_of(x as int),
        0 <= r <= ONE,
{
    proof {
        lemma_sigmoid_bounds(x as int);
    }
    if x >= DECAY_REACH {
        ONE
    } else if x <= -DECAY_REACH {
        0
    } else if x < 0 {
        let e: i64 = decay_at(-x);
        ONE - (ONE * ONE) / (ONE + e)
    } else {
        let e: i64 = decay_at(x);
        (ONE * ONE) / (ONE + e)
    }
}

/// `INV_E` is the reciprocal of Euler's number to within one unit, and
/// the two reaches are where the functions have run out of resolution.
pub proof fn lemma_activation_constants()
    ensures
        367_879 * ONE < 1_000_000 * INV_E < 367_880 * ONE,
        DECAY_REACH == 16 * ONE,
        2 * TANH_REACH == DECAY_REACH,
{
}

} // verus!
