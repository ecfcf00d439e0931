//! Sine and cosine of fixed-point angles.
//!
//! Angles are in radians. An eighth of a turn is rounded to a whole number of
//! units and the other fractions of a turn are multiples of it, so the two
//! functions have exactly the period `FULL_TURN`. On the first eighth of a
//! turn the sine is summed as a series and the cosine is the root of what
//! the square of the sine leaves of one, so the squares of the two add up
//! to one but for the rounding of that root.

use vstd::prelude::*;
use crate::fixed::{
    ONE, fx_mul, lemma_quot_bound, lemma_root_down, lemma_times_monotone, lemma_times_shrinks,
    quot, residue, root_down, root_floor, times,
};

verus! {

/// An eighth of a turn: a quarter of pi.
pub const EIGHTH_TURN: i64 = 942_478;

/// A quarter of a turn.
pub const QUARTER_TURN: i64 = 1_884_956;

/// Half a turn: pi.
pub const HALF_TURN: i64 = 3_769_912;

/// A whole turn.
pub const FULL_TURN: i64 = 7_539_824;

/// The square of an angle of at most an eighth of a turn.
pub open spec fn squared(r: int) -> int {
    times(r, r)
}

/// The sine of an angle between zero and an eighth of a turn: the series
/// `r - r^3/3! + r^5/5! - r^7/7!`, nested.
pub open spec fn sine_small(r: int) -> int {
    let t3 = ONE - quot(squared(r), 42);
    let t2 = ONE - times(quot(squared(r), 20), t3);
    let t1 = ONE - times(quot(squared(r), 6), t2);
    times(r, t1)
}

/// The cosine of an angle between zero and an eighth of a turn: the root
/// of one minus the square of the sine, rounded down.
pub open spec fn cosine_small(r: int) -> int {
    root_down(ONE * ONE - sine_small(r) * sine_small(r))
}

/// The most by which the squares of sine and cosine fall short of one.
pub const PYTHAGORAS_SLACK: i64 = 2 * ONE;

/// The sine of an angle within the first quarter of a turn.
pub open spec fn sine_quarter(r: int) -> int {
    if r <= EIGHTH_TURN {
        sine_small(r)
    } else {
        cosine_small(QUARTER_TURN - r)
    }
}

/// The cosine of an angle within the first quarter of a turn.
pub open spec fn cosine_quarter(r: int) -> int {
    if r <= EIGHTH_TURN {
        cosine_small(r)
    } else {
        sine_small(QUARTER_TURN - r)
    }
}

/// The sine of any angle.
pub open spec fn sine(angle: int) -> int {
    let a = angle % (FULL_TURN as int);
    let r = a % (QUARTER_TURN as int);
    let q = a / (QUARTER_TURN as int);
    if q == 0 {
        sine_quarter(r)
    } else if q == 1 {
        cosine_quarter(r)
    } else if q == 2 {
        -sine_quarter(r)
    } else {
        -cosine_quarter(r)
    }
}

/// The cosine of any angle.
pub open spec fn cosine(angle: int) -> int {
    let a = angle % (FULL_TURN as int);
    let r = a % (QUARTER_TURN as int);
    let q = a / (QUARTER_TURN as int);
    if q == 0 {
        cosine_quarter(r)
    } else if q == 1 {
        -sine_quarter(r)
    } else if q == 2 {
        -cosine_quarter(r)
    } else {
        sine_quarter(r)
    }
}

/// One nested factor of a series: `1 - (r^2 / d) * inner` stays between zero
/// and one when `inner` does.
proof fn lemma_factor(r: int, d: int, inner: int)
    requires
        0 <= r <= EIGHTH_TURN,
        d >= 2,
        0 <= inner <= ONE,
    ensures
        0 <= quot(squared(r), d) <= ONE,
        0 <= ONE - times(quot(squared(r), d), inner) <= ONE,
{
    lemma_times_shrinks(r, r, ONE as int);
    lemma_quot_bound(squared(r), d, ONE as int);
    lemma_times_shrinks(quot(squared(r), d), inner, ONE as int);
}

/// On the first eighth of a turn sine and cosine lie between zero and
/// one, and their squares add up to one but for the rounding of the root.
pub proof fn lemma_small_bounds(r: int)
    requires
        0 <= r <= EIGHTH_TURN,
    ensures
        0 <= sine_small(r) <= EIGHTH_TURN,
        0 <= cosine_small(r) <= ONE,
        0 <= ONE * ONE - sine_small(r) * sine_small(r) < ONE * ONE + 1,
        ONE * ONE - PYTHAGORAS_SLACK <= sine_small(r) * sine_small(r) + cosine_small(r)
            * cosine_small(r) <= ONE * ONE,
{
    lemma_times_shrinks(r, r, ONE as int);
    lemma_quot_bound(squared(r), 42, ONE as int);
    let t3 = ONE - quot(squared(r), 42);
    lemma_factor(r, 20, t3);
    let t2 = ONE - times(quot(squared(r), 20), t3);
    lemma_factor(r, 6, t2);
    let t1 = ONE - times(quot(squared(r), 6), t2);
    lemma_times_shrinks(r, t1, r);
    let s = sine_small(r);
    let one = ONE as int;
    assert(0 <= s * s <= one * one) by (nonlinear_arith)
        requires
            0 <= s <= one,
    ;
    let n = one * one - s * s;
    lemma_root_down(n);
    let c = cosine_small(r);
    assert(c <= one) by (nonlinear_arith)
        requires
            c >= 0,
            c * c <= one * one,
            one > 0,
    ;
    assert((c + 1) * (c + 1) == c * c + 2 * c + 1) by (nonlinear_arith);
}

/// Neither function leaves the interval from minus one to one.
pub proof fn lemma_sine_cosine_bounds(angle: int)
    ensures
        -ONE <= sine(angle) <= ONE,
        -ONE <= cosine(angle) <= ONE,
{
    let a = angle % (FULL_TURN as int);
    let r = a % (QUARTER_TURN as int);
    if r <= EIGHTH_TURN {
        lemma_small_bounds(r);
    } else {
        lemma_small_bounds(QUARTER_TURN - r);
    }
}

/// On the first eighth of a turn the sine lies between the sums of its
/// series up to the third and up to the fifth power, `r - r^3/6` and
/// `r - r^3/6 + r^5/120`, as the sine of a real angle does; so it is no
/// further from that than the two sums are from each other.
pub proof fn lemma_sine_enclosed(r: int)
    requires
        0 <= r <= EIGHTH_TURN,
    ensures
        times(r, ONE - quot(squared(r), 6)) <= sine_small(r),
        sine_small(r) <= times(
            r,
            ONE - times(quot(squared(r), 6), ONE - quot(squared(r), 20)),
        ),
        sine_small(r) <= r,
        sine_small(0) == 0,
{
    lemma_times_shrinks(r, r, ONE as int);
    lemma_quot_bound(squared(r), 42, ONE as int);
    let q6 = quot(squared(r), 6);
    let q20 = quot(squared(r), 20);
    let t3 = ONE - quot(squared(r), 42);
    lemma_factor(r, 20, t3);
    lemma_factor(r, 6, ONE as int);
    let t2 = ONE - times(q20, t3);
    lemma_times_monotone(q20, t3, ONE as int);
    lemma_factor(r, 6, t2);
    let t1 = ONE - times(q6, t2);
    lemma_times_monotone(q6, ONE - q20, t2);
    lemma_times_monotone(q6, t2, ONE as int);
    lemma_times_monotone(r, ONE - q6, t1);
    lemma_times_monotone(r, t1, ONE - times(q6, ONE - q20));
    lemma_times_monotone(r, t1, ONE as int);
    assert(times(0, ONE as int) == 0);
    assert(sine_small(0) == 0) by {
        assert(squared(0) == 0);
        assert(times(0, ONE - times(quot(0, 6), ONE - times(quot(0, 20), ONE - quot(0, 42)))) == 0);
    }
}

/// The squares of the sine and the cosine of an angle add up to one, but
/// for the rounding of a root: they fall short of it by at most
/// `PYTHAGORAS_SLACK` of the square of the unit, which is less than two
/// millionths of it.
pub proof fn lemma_pythagoras(angle: int)
    ensures
        ONE * ONE - PYTHAGORAS_SLACK <= sine(angle) * sine(angle) + cosine(angle) * cosine(angle)
            <= ONE * ONE,
        500_000 * PYTHAGORAS_SLACK < ONE * ONE,
{
    let a = angle % (FULL_TURN as int);
    let r = a % (QUARTER_TURN as int);
    let x = if r <= EIGHTH_TURN { r } else { QUARTER_TURN - r };
    lemma_small_bounds(x);
    let s = sine_small(x);
    let c = cosine_small(x);
    assert((-s) * (-s) == s * s && (-c) * (-c) == c * c) by (nonlinear_arith);
    assert(ONE * ONE == 1_440_000_000_000) by (nonlinear_arith);
}

/// Both functions repeat after a whole turn.
pub proof fn lemma_periodic(angle: int)
    ensures
        sine(angle + FULL_TURN) == sine(angle),
        cosine(angle + FULL_TURN) == cosine(angle),
{
    assert((angle + FULL_TURN) % (FULL_TURN as int) == angle % (FULL_TURN as int));
}

/// Computes sine and cosine on the first eighth of a turn.
fn small_pair(r: i64) -> (p: (i64, i64))
    requires
        0 <= r <= EIGHTH_TURN,
    ensures
        p.0 == sine_small(r as int),
        p.1 == cosine_small(r as int),
{
    let r2: i64 = fx_mul(r, r);
    proof {
        lemma_times_shrinks(r as int, r as int, ONE as int);
        lemma_quot_bound(squared(r as int), 42, ONE as int);
    }
    let t3: i64 = ONE - r2 / 42;
    proof {
        lemma_factor(r as int, 20, t3 as int);
    }
    let t2: i64 = ONE - fx_mul(r2 / 20, t3);
    proof {
        lemma_factor(r as int, 6, t2 as int);
    }
    let t1: i64 = ONE - fx_mul(r2 / 6, t2);
    let s: i64 = fx_mul(r, t1);
    proof {
        lemma_small_bounds(r as int);
        assert(ONE * ONE == 1_440_000_000_000) by (nonlinear_arith);
        assert(0 <= s * s <= ONE * ONE) by (nonlinear_arith)
            requires
                0 <= s <= ONE,
        ;
    }
    let c: u64 = root_floor((ONE * ONE - s * s) as u64);
    (s, c as i64)
}

/// The sine and the cosine of `angle`, in this order.
pub fn sin_cos(angle: i64) -> (p: (i64, i64))
    ensures
        p.0 == sine(angle as int),
        p.1 == cosine(angle as int),
        -ONE <= p.0 <= ONE,
        -ONE <= p.1 <= ONE,
{
    proof {
        lemma_sine_cosine_bounds(angle as int);
    }
    let a: i64 = residue(angle, FULL_TURN);
    let q: i64 = a / QUARTER_TURN;
    let r: i64 = a % QUARTER_TURN;
    let (s, c) = if r <= EIGHTH_TURN {
        small_pair(r)
    } else {
        let (s1, c1) = small_pair(QUARTER_TURN - r);
        (c1, s1)
    };
    proof {
        if r <= EIGHTH_TURN {
            lemma_small_bounds(r as int);
        } else {
            lemma_small_bounds(QUARTER_TURN - r);
        }
    }
    if q == 0 {
        (s, c)
    } else if q == 1 {
        (c, -s)
    } else if q == 2 {
        (-s, -c)
    } else {
        (-c, s)
    }
}

/// The fractions of a turn fit together, and half a turn is pi to within
/// one unit.
pub proof fn lemma_turns()
    ensures
        QUARTER_TURN == 2 * EIGHTH_TURN,
        HALF_TURN == 2 * QUARTER_TURN,
        FULL_TURN == 2 * HALF_TURN,
        3_141_592 * ONE < 1_000_000 * HALF_TURN < 3_141_594 * ONE,
{
}

} // verus!
