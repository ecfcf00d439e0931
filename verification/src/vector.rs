//! Vectors: their length and their direction.
//!
//! A length is counted in whole units of the fixed-point scale, so the
//! length of a short vector is coarse. Before a vector is divided by its
//! length to get its direction, it is therefore enlarged until its longer
//! component fills more than half of what the arithmetic can take.

use vstd::prelude::*;
use crate::fixed::{
    LIMIT, ONE, fx_div, in_reach, length, lemma_root_up, lemma_scaled_square, measure, quot,
    ratio,
};

verus! {

/// The most by which the squares of the components of a direction fall
/// short of the square of the unit: four times the unit for the rounding
/// of the two quotients, and the rest for the rounding of the length.
pub const DIRECTION_SLACK: i64 = 4_801_922;

/// The greater of the magnitudes of `x` and `y`.
pub open spec fn magnitude(x: int, y: int) -> int {
    let ax = if x < 0 { -x } else { x };
    let ay = if y < 0 { -y } else { y };
    if ax >= ay {
        ax
    } else {
        ay
    }
}

/// The whole factor by which a vector other than zero is enlarged: the
/// greatest that keeps it within reach of the arithmetic.
pub open spec fn zoom(x: int, y: int) -> int {
    (LIMIT as int) / magnitude(x, y)
}

/// The unit vector along `(x, y)`; along the first axis for the zero
/// vector, which has no direction of its own.
pub open spec fn direction(x: int, y: int) -> (int, int) {
    if x == 0 && y == 0 {
        (ONE as int, 0)
    } else {
        (
            ratio(x * zoom(x, y), length(x * zoom(x, y), y * zoom(x, y))),
            ratio(y * zoom(x, y), length(x * zoom(x, y), y * zoom(x, y))),
        )
    }
}

/// Whether `(s, c)` is a unit vector but for rounding: its squares add up
/// to one, less at most `slack` of the square of the unit.
pub open spec fn unit_pair(s: int, c: int, slack: int) -> bool {
    ONE * ONE - slack <= s * s + c * c <= ONE * ONE
}

/// A vector is at least as long as each of its components, and a vector
/// whose square is below that of `m` is no longer than `m`.
pub proof fn lemma_length_bounds(x: int, y: int, m: int)
    requires
        m >= 0,
        x * x + y * y <= m * m,
    ensures
        -length(x, y) <= x <= length(x, y),
        -length(x, y) <= y <= length(x, y),
        0 <= length(x, y) <= m,
        x * x + y * y > 0 ==> length(x, y) > 0,
{
    let n = x * x + y * y;
    let l = length(x, y);
    lemma_root_up(n);
    assert(-l <= x <= l && -l <= y <= l) by (nonlinear_arith)
        requires
            l >= 0,
            l * l >= x * x + y * y,
    ;
    if l > m {
        assert((l - 1) * (l - 1) >= m * m) by (nonlinear_arith)
            requires
                l - 1 >= m,
                m >= 0,
        ;
    }
}

/// An enlarged vector is within reach, and its longer component fills more
/// than half of the reach.
pub proof fn lemma_zoom(x: int, y: int)
    requires
        in_reach(x),
        in_reach(y),
        x != 0 || y != 0,
    ensures
        1 <= zoom(x, y) <= LIMIT,
        in_reach(x * zoom(x, y)),
        in_reach(y * zoom(x, y)),
        2 * magnitude(x * zoom(x, y), y * zoom(x, y)) > LIMIT,
        magnitude(x * zoom(x, y), y * zoom(x, y)) == magnitude(x, y) * zoom(x, y),
{
    let m = magnitude(x, y);
    let k = zoom(x, y);
    let limit = LIMIT as int;
    let mk = m * k;
    assert(1 <= k <= limit && mk <= limit && mk > limit - m) by (nonlinear_arith)
        requires
            0 < m <= limit,
            k == limit / m,
            mk == m * k,
    ;
    assert(2 * m > limit ==> k == 1) by (nonlinear_arith)
        requires
            0 < m <= limit,
            k == limit / m,
    ;
    assert(2 * mk > limit) by {
        if 2 * m > limit {
            assert(mk == m) by (nonlinear_arith)
                requires
                    k == 1,
                    mk == m * k,
            ;
        }
    }
    assert(-mk <= x * k <= mk && -mk <= y * k <= mk) by (nonlinear_arith)
        requires
            -m <= x <= m,
            -m <= y <= m,
            k >= 1,
            mk == m * k,
    ;
    assert(magnitude(x * k, y * k) == mk) by (nonlinear_arith)
        requires
            m == magnitude(x, y),
            k >= 1,
            mk == m * k,
    ;
}

/// The direction of a vector is a unit vector but for rounding: no
/// component exceeds one, and the squares of the two add up to one, less
/// at most `DIRECTION_SLACK` of the square of the unit, which is less than
/// four millionths of it. This holds of every vector within reach, however
/// short.
pub proof fn lemma_direction(x: int, y: int)
    requires
        in_reach(x),
        in_reach(y),
    ensures
        -ONE <= direction(x, y).0 <= ONE,
        -ONE <= direction(x, y).1 <= ONE,
        unit_pair(direction(x, y).0, direction(x, y).1, DIRECTION_SLACK as int),
        250_000 * DIRECTION_SLACK < ONE * ONE,
        (x != 0 || y != 0) ==> length(x * zoom(x, y), y * zoom(x, y)) > 0,
{
    let one = ONE as int;
    assert(one * one == 1_440_000_000_000) by (nonlinear_arith)
        requires
            one == 1_200_000,
    ;
    if x != 0 || y != 0 {
        lemma_zoom(x, y);
        let k = zoom(x, y);
        let xs = x * k;
        let ys = y * k;
        let ms = magnitude(xs, ys);
        let n = xs * xs + ys * ys;
        let l = length(xs, ys);
        lemma_root_up(n);
        assert(n >= ms * ms && ms * ms > 0) by (nonlinear_arith)
            requires
                ms == magnitude(xs, ys),
                2 * ms > 3_000_000_000,
                n == xs * xs + ys * ys,
        ;
        assert(l >= ms) by (nonlinear_arith)
            requires
                l >= 0,
                ms > 0,
                l * l >= ms * ms,
        ;
        let ux = direction(x, y).0;
        let uy = direction(x, y).1;
        assert(ux == quot(xs * one, l) && uy == quot(ys * one, l));
        lemma_scaled_square(xs, one, l);
        lemma_scaled_square(ys, one, l);
        let a = quot(if xs >= 0 { xs * one } else { -(xs * one) }, l);
        let b = quot(if ys >= 0 { ys * one } else { -(ys * one) }, l);
        let l2 = l * l;
        let one2 = one * one;
        let p = ux * ux;
        let q = uy * uy;
        assert(l2 > 0) by (nonlinear_arith)
            requires
                l > 0,
                l2 == l * l,
        ;
        assert((p + q) * l2 <= n * one2) by (nonlinear_arith)
            requires
                p * l2 <= (xs * xs) * one2,
                q * l2 <= (ys * ys) * one2,
                n == xs * xs + ys * ys,
        ;
        assert(n * one2 <= l2 * one2) by (nonlinear_arith)
            requires
                n <= l2,
                one2 >= 0,
        ;
        assert(p + q <= one2) by (nonlinear_arith)
            requires
                (p + q) * l2 <= l2 * one2,
                l2 > 0,
        ;
        assert(p >= 0 && q >= 0) by (nonlinear_arith)
            requires
                p == ux * ux,
                q == uy * uy,
        ;
        assert(-one <= ux <= one && -one <= uy <= one && a <= one && b <= one) by (nonlinear_arith)
            requires
                ux * ux <= one2,
                uy * uy <= one2,
                a * a <= one2,
                b * b <= one2,
                a >= 0,
                b >= 0,
                one2 == one * one,
                one > 0,
        ;
        assert((p + q + 2 * (a + b) + 2) * l2 > n * one2) by (nonlinear_arith)
            requires
                (p + 2 * a + 1) * l2 > (xs * xs) * one2,
                (q + 2 * b + 1) * l2 > (ys * ys) * one2,
                n == xs * xs + ys * ys,
        ;
        assert(n * one2 >= (l - 1) * (l - 1) * one2) by (nonlinear_arith)
            requires
                n > (l - 1) * (l - 1),
                one2 >= 0,
        ;
        assert((l - 1) * (l - 1) * one2 >= (one2 - 1920) * l2) by (nonlinear_arith)
            requires
                2 * l > 3_000_000_000,
                one2 == 1_440_000_000_000,
                l2 == l * l,
        ;
        assert(p + q + 2 * (a + b) + 2 > one2 - 1920) by (nonlinear_arith)
            requires
                (p + q + 2 * (a + b) + 2) * l2 > (one2 - 1920) * l2,
                l2 > 0,
        ;
        assert(one2 - DIRECTION_SLACK <= p + q <= one2);
        assert(unit_pair(ux, uy, DIRECTION_SLACK as int));
    } else {
        assert(one * one + 0 * 0 == one * one);
        assert(unit_pair(one, 0, DIRECTION_SLACK as int));
    }
}

/// Computes the direction and the length of a vector.
pub fn unit(x: i64, y: i64) -> (u: (i64, i64, i64))
    requires
        in_reach(x as int),
        in_reach(y as int),
    ensures
        u.0 == direction(x as int, y as int).0,
        u.1 == direction(x as int, y as int).1,
        u.2 == length(x as int, y as int),
        -ONE <= u.0 <= ONE,
        -ONE <= u.1 <= ONE,
        unit_pair(u.0 as int, u.1 as int, DIRECTION_SLACK as int),
        u.2 >= 0,
{
    proof {
        lemma_direction(x as int, y as int);
    }
    let len: i64 = measure(x, y);
    if x == 0 && y == 0 {
        (ONE, 0, len)
    } else {
        proof {
            lemma_zoom(x as int, y as int);
        }
        let ax: i64 = if x < 0 {
            -x
        } else {
            x
        };
        let ay: i64 = if y < 0 {
            -y
        } else {
            y
        };
        let k: i64 = LIMIT / (if ax >= ay {
            ax
        } else {
            ay
        });
        let xs: i64 = x * k;
        let ys: i64 = y * k;
        let l: i64 = measure(xs, ys);
        (fx_div(xs, l), fx_div(ys, l), len)
    }
}

} // verus!
