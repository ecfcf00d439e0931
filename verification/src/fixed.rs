//! Fixed-point arithmetic on `i64`.
//!
//! A quantity `q` is stored as the integer `q * ONE`. Products and quotients
//! round toward zero, so every operation is odd in each argument.

use vstd::prelude::*;

verus! {

/// The integer that stands for the quantity 1. It is a multiple of 60 and
/// of 100, so a sixtieth of a second and the two-decimal tuning constants
/// are exact.
pub const ONE: i64 = 1_200_000;

/// Largest magnitude that the operations below take: the product of two such
/// numbers fits in an `i64`, and the sum of two such squares in a `u64`.
pub const LIMIT: i64 = 3_000_000_000;

/// Whether `x` is within the magnitude that the operations take.
pub open spec fn in_reach(x: int) -> bool {
    -LIMIT <= x <= LIMIT
}

/// `n / d` rounded toward zero.
pub open spec fn quot(n: int, d: int) -> int
    recommends
        d > 0,
{
    if n >= 0 {
        n / d
    } else {
        -((-n) / d)
    }
}

/// The fixed-point product of `a` and `b`.
pub open spec fn times(a: int, b: int) -> int {
    quot(a * b, ONE as int)
}

/// The fixed-point quotient of `a` by `b`.
pub open spec fn ratio(a: int, b: int) -> int
    recommends
        b > 0,
{
    quot(a * ONE, b)
}

/// `x` limited to the interval from `lo` to `hi`.
pub open spec fn clamped(x: int, lo: int, hi: int) -> int
    recommends
        lo <= hi,
{
    if x < lo {
        lo
    } else if x > hi {
        hi
    } else {
        x
    }
}

/// The least `r >= 0` with `r * r >= n`.
pub open spec fn root_up(n: int) -> int
    decreases n,
{
    if n <= 0 {
        0
    } else {
        let r = root_up(n - 1);
        if r * r >= n {
            r
        } else {
            r + 1
        }
    }
}

/// The greatest `r >= 0` with `r * r <= n`, for `n >= 0`.
pub open spec fn root_down(n: int) -> int {
    root_up(n + 1) - 1
}

/// The length of the vector `(x, y)`, rounded up.
pub open spec fn length(x: int, y: int) -> int {
    root_up(x * x + y * y)
}

/// A product is no larger in magnitude than the product of the bounds of
/// its factors.
pub proof fn lemma_product_bound(a: int, b: int, ma: int, mb: int)
    by (nonlinear_arith)
    requires
        -ma <= a <= ma,
        -mb <= b <= mb,
    ensures
        -(ma * mb) <= a * b <= ma * mb,
{
}

/// A quotient is no larger in magnitude than its numerator, and has its sign.
pub proof fn lemma_quot_bound(n: int, d: int, m: int)
    by (nonlinear_arith)
    requires
        d > 0,
        -m <= n <= m,
    ensures
        -m <= quot(n, d) <= m,
        n >= 0 ==> quot(n, d) >= 0,
        n <= 0 ==> quot(n, d) <= 0,
        quot(-n, d) == -quot(n, d),
{
}

/// Multiplying by a factor of magnitude at most one does not enlarge.
pub proof fn lemma_times_shrinks(a: int, b: int, m: int)
    requires
        -m <= a <= m,
        -ONE <= b <= ONE,
    ensures
        -m <= times(a, b) <= m,
        (a >= 0 && b >= 0) ==> times(a, b) >= 0,
{
    let one = ONE as int;
    assert(-(m * one) <= a * b <= m * one) by {
        lemma_product_bound(a, b, m, one);
    }
    assert(-m <= quot(a * b, one) <= m) by (nonlinear_arith)
        requires
            -(m * one) <= a * b <= m * one,
            one > 0,
    ;
    if a >= 0 && b >= 0 {
        assert(a * b >= 0) by (nonlinear_arith)
            requires
                a >= 0,
                b >= 0,
        ;
    }
}

/// The product with a number that is not negative grows with the other
/// factor.
pub proof fn lemma_times_monotone(a: int, b: int, c: int)
    requires
        a >= 0,
        b <= c,
    ensures
        times(a, b) <= times(a, c),
        times(a, ONE as int) == a,
        times(ONE as int, a) == a,
{
    let one = ONE as int;
    assert(a * b <= a * c) by (nonlinear_arith)
        requires
            a >= 0,
            b <= c,
    ;
    assert(quot(a * b, one) <= quot(a * c, one)) by (nonlinear_arith)
        requires
            a * b <= a * c,
            one > 0,
    ;
    assert(quot(a * one, one) == a && quot(one * a, one) == a) by (nonlinear_arith)
        requires
            a >= 0,
            one > 0,
    ;
}

/// Multiplying by a factor of at most `k` enlarges at most `k` times.
pub proof fn lemma_times_stretches(a: int, b: int, m: int, k: int)
    requires
        -m <= a <= m,
        0 <= b <= k * ONE,
    ensures
        -(k * m) <= times(a, b) <= k * m,
        a >= 0 ==> times(a, b) >= 0,
{
    let one = ONE as int;
    assert(-((k * m) * one) <= a * b <= (k * m) * one) by (nonlinear_arith)
        requires
            -m <= a <= m,
            0 <= b <= k * one,
    ;
    assert(-(k * m) <= quot(a * b, one) <= k * m) by (nonlinear_arith)
        requires
            -((k * m) * one) <= a * b <= (k * m) * one,
            one > 0,
    ;
    if a >= 0 {
        assert(a * b >= 0) by (nonlinear_arith)
            requires
                a >= 0,
                b >= 0,
        ;
    }
}

/// `root_up(n)` is the least non-negative root bound of `n`.
pub proof fn lemma_root_up(n: int)
    ensures
        root_up(n) >= 0,
        root_up(n) * root_up(n) >= n,
        n > 0 ==> (root_up(n) - 1) * (root_up(n) - 1) < n,
        n <= 0 ==> root_up(n) == 0,
    decreases n,
{
    if n > 0 {
        lemma_root_up(n - 1);
        let r = root_up(n - 1);
        if r * r < n {
            assert((r + 1) * (r + 1) >= n) by (nonlinear_arith)
                requires
                    r >= 0,
                    r * r >= n - 1,
            ;
            assert((r + 1 - 1) * (r + 1 - 1) == r * r);
        }
    }
}

/// Only `root_up(n)` is a root bound of `n` whose predecessor is none.
pub proof fn lemma_root_up_unique(n: int, r: int)
    requires
        r >= 0,
        r * r >= n,
        r == 0 || (r - 1) * (r - 1) < n,
    ensures
        r == root_up(n),
{
    lemma_root_up(n);
    let s = root_up(n);
    if r < s {
        assert(r * r <= (s - 1) * (s - 1)) by (nonlinear_arith)
            requires
                0 <= r <= s - 1,
        ;
    } else if s < r {
        assert(s * s <= (r - 1) * (r - 1)) by (nonlinear_arith)
            requires
                0 <= s <= r - 1,
        ;
    }
}

/// `root_down(n)` is the greatest number whose square does not exceed `n`.
pub proof fn lemma_root_down(n: int)
    requires
        n >= 0,
    ensures
        root_down(n) >= 0,
        root_down(n) * root_down(n) <= n,
        (root_down(n) + 1) * (root_down(n) + 1) > n,
{
    lemma_root_up(n + 1);
    let r = root_up(n + 1);
    assert(r >= 1) by (nonlinear_arith)
        requires
            r >= 0,
            r * r >= n + 1,
            n >= 0,
    ;
}

/// A number scaled by `m / l` and rounded toward zero has, times `l`, at
/// most the magnitude of the number times `m`, and misses it by less than
/// `l`.
pub proof fn lemma_scaled_square(v: int, m: int, l: int)
    requires
        l > 0,
        m >= 0,
    ensures
        (quot(v * m, l) * quot(v * m, l)) * (l * l) <= (v * v) * (m * m),
        ((quot(v * m, l) * quot(v * m, l)) + 2 * quot(if v >= 0 { v * m } else { -(v * m) }, l) + 1)
            * (l * l) > (v * v) * (m * m),
        quot(if v >= 0 { v * m } else { -(v * m) }, l) >= 0,
        quot(if v >= 0 { v * m } else { -(v * m) }, l) * quot(
            if v >= 0 { v * m } else { -(v * m) },
            l,
        ) == quot(v * m, l) * quot(v * m, l),
{
    let n = if v >= 0 { v * m } else { -(v * m) };
    assert(n >= 0 && n * n == (v * v) * (m * m)) by (nonlinear_arith)
        requires
            m >= 0,
            n == if v >= 0 { v * m } else { -(v * m) },
    ;
    let q = n / l;
    assert(0 <= q * l <= n < (q + 1) * l && q >= 0) by (nonlinear_arith)
        requires
            n >= 0,
            l > 0,
            q == n / l,
    ;
    assert((q * q) * (l * l) <= n * n) by (nonlinear_arith)
        requires
            0 <= q * l <= n,
    ;
    assert(((q + 1) * (q + 1)) * (l * l) > n * n) by (nonlinear_arith)
        requires
            0 <= n < (q + 1) * l,
    ;
    assert((q + 1) * (q + 1) == q * q + 2 * q + 1) by (nonlinear_arith);
    assert(quot(v * m, l) == q || quot(v * m, l) == -q) by (nonlinear_arith)
        requires
            m >= 0,
            l > 0,
            n == if v >= 0 { v * m } else { -(v * m) },
            q == n / l,
    ;
    assert(quot(v * m, l) * quot(v * m, l) == q * q) by (nonlinear_arith)
        requires
            quot(v * m, l) == q || quot(v * m, l) == -q,
    ;
}

/// Multiplies two fixed-point numbers.
pub fn fx_mul(a: i64, b: i64) -> (r: i64)
    requires
        in_reach(a as int),
        in_reach(b as int),
    ensures
        r == times(a as int, b as int),
{
    proof {
        lemma_product_bound(a as int, b as int, LIMIT as int, LIMIT as int);
        lemma_quot_bound(a * b, ONE as int, i64::MAX as int);
    }
    (a * b) / ONE
}

/// Divides one fixed-point number by another, which is positive.
pub fn fx_div(a: i64, b: i64) -> (r: i64)
    requires
        b > 0,
        in_reach(a as int),
    ensures
        r == ratio(a as int, b as int),
{
    proof {
        lemma_quot_bound(a * ONE, b as int, i64::MAX as int);
    }
    (a * ONE) / b
}

/// Computes `a * n / d`, rounded toward zero.
pub fn scale(a: i64, n: i64, d: i64) -> (r: i64)
    requires
        d > 0,
        in_reach(a as int),
        in_reach(n as int),
    ensures
        r == quot(a * n, d as int),
{
    proof {
        lemma_product_bound(a as int, n as int, LIMIT as int, LIMIT as int);
        lemma_quot_bound(a * n, d as int, i64::MAX as int);
    }
    (a * n) / d
}

/// Limits `x` to the interval from `lo` to `hi`.
pub fn clamp(x: i64, lo: i64, hi: i64) -> (r: i64)
    requires
        lo <= hi,
    ensures
        r == clamped(x as int, lo as int, hi as int),
{
    if x < lo {
        lo
    } else if x > hi {
        hi
    } else {
        x
    }
}

/// The square root of `n`, rounded up.
pub fn root_ceil(n: u64) -> (r: u64)
    ensures
        r == root_up(n as int),
        r <= 0x1_0000_0000,
{
    let mut lo: u64 = 0;
    let mut hi: u64 = 0x1_0000_0000;
    assert(n < hi * hi) by (nonlinear_arith)
        requires
            hi == 0x1_0000_0000,
            n <= u64::MAX,
    ;
    while hi - lo > 1
        invariant
            lo < hi <= 0x1_0000_0000,
            lo * lo <= n < hi * hi,
        decreases hi - lo,
    {
        let mid: u64 = lo + (hi - lo) / 2;
        assert(mid * mid <= 0xffff_ffff * 0xffff_ffff) by (nonlinear_arith)
            requires
                0 <= mid <= 0xffff_ffff,
        ;
        if mid * mid <= n {
            lo = mid;
        } else {
            hi = mid;
        }
    }
    assert(hi == lo + 1);
    assert(lo * lo <= 0xffff_ffff * 0xffff_ffff) by (nonlinear_arith)
        requires
            0 <= lo <= 0xffff_ffff,
    ;
    let r: u64 = if lo * lo == n {
        lo
    } else {
        hi
    };
    proof {
        if lo * lo == n {
            if lo > 0 {
                assert((lo - 1) * (lo - 1) < lo * lo) by (nonlinear_arith)
                    requires
                        lo > 0,
                ;
            }
        } else {
            assert((hi - 1) * (hi - 1) == lo * lo);
        }
        lemma_root_up_unique(n as int, r as int);
    }
    r
}

/// The square root of `n`, rounded down.
pub fn root_floor(n: u64) -> (r: u64)
    requires
        n < u64::MAX,
    ensures
        r == root_down(n as int),
        r < 0x1_0000_0000,
{
    proof {
        lemma_root_down(n as int);
        lemma_root_up(n + 1);
    }
    root_ceil(n + 1) - 1
}

/// Measures the vector `(x, y)`, rounding up.
pub fn measure(x: i64, y: i64) -> (r: i64)
    requires
        in_reach(x as int),
        in_reach(y as int),
    ensures
        r == length(x as int, y as int),
        0 <= r <= 0x1_0000_0000,
{
    let ghost limit: int = LIMIT as int;
    assert(0 <= x * x <= limit * limit) by (nonlinear_arith)
        requires
            -limit <= x <= limit,
    ;
    assert(0 <= y * y <= limit * limit) by (nonlinear_arith)
        requires
            -limit <= y <= limit,
    ;
    let xx: u64 = (x * x) as u64;
    let yy: u64 = (y * y) as u64;
    root_ceil(xx + yy) as i64
}

/// The residue of a negative number, from that of its opposite.
pub proof fn lemma_residue_of_negative(v: int, m: int)
    requires
        m > 0,
    ensures
        v % m == if (-v) % m == 0 {
            0
        } else {
            m - (-v) % m
        },
{
    let q = (-v) / m;
    let t = (-v) % m;
    assert(-v == m * q + t && 0 <= t < m) by {
        vstd::arithmetic::div_mod::lemma_fundamental_div_mod(-v, m);
    }
    if t == 0 {
        assert(v == m * (-q) + 0) by (nonlinear_arith)
            requires
                -v == m * q,
        ;
        vstd::arithmetic::div_mod::lemma_fundamental_div_mod_converse(v, m, -q, 0);
    } else {
        assert(v == m * (-q - 1) + (m - t)) by (nonlinear_arith)
            requires
                -v == m * q + t,
        ;
        vstd::arithmetic::div_mod::lemma_fundamental_div_mod_converse(v, m, -q - 1, m - t);
    }
}

/// The residue of `v` modulo `m`, between zero and `m`.
pub fn residue(v: i64, m: i64) -> (r: i64)
    requires
        m > 0,
    ensures
        r == v % m,
        0 <= r < m,
{
    proof {
        lemma_residue_of_negative(v as int, m as int);
    }
    let r: i64 = v % m;
    if r < 0 {
        r + m
    } else {
        r
    }
}

} // verus!
