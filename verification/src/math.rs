//! Integer points, exact cross products, and Euclidean lengths rounded
//! down and rounded up.

use vstd::prelude::*;

verus! {

/// A point, or a displacement, on the integer plane.
pub type Point2D = (i64, i64);

/// Largest magnitude of a coordinate for which every test of this library
/// is computed without overflow.
pub const COORD_LIMIT: i64 = 1073741824;

/// Every floored distance between two points in range is below this.
pub const DIST_LIMIT: u64 = 4294967296;

/// The coordinate is no larger in magnitude than the coordinate limit.
pub open spec fn coord_in_range(c: int) -> bool {
    -COORD_LIMIT <= c <= COORD_LIMIT
}

/// Both coordinates of the point are in range.
pub open spec fn point_in_range(p: Point2D) -> bool {
    coord_in_range(p.0 as int) && coord_in_range(p.1 as int)
}

/// Whether both coordinates of the point are in range.
pub fn in_range(p: &Point2D) -> (r: bool)
    ensures
        r == point_in_range(*p),
{
    -COORD_LIMIT <= p.0 && p.0 <= COORD_LIMIT && -COORD_LIMIT <= p.1 && p.1 <= COORD_LIMIT
}

/// Squared Euclidean length of the displacement `(x, y)`.
pub open spec fn sq_norm(x: int, y: int) -> int {
    x * x + y * y
}

/// Squared Euclidean distance between two points.
pub open spec fn sq_dist(a: Point2D, b: Point2D) -> int {
    sq_norm(a.0 - b.0, a.1 - b.1)
}

/// `r` is the floor of the square root of `n`.
pub open spec fn is_sqrt_floor(n: int, r: int) -> bool {
    0 <= r && r * r <= n < (r + 1) * (r + 1)
}

/// The floor of the square root of `n`, for `n >= 0`.
pub open spec fn sqrt_floor(n: int) -> int {
    choose|r: int| is_sqrt_floor(n, r)
}

/// Floored Euclidean distance between two points.
pub open spec fn dist(a: Point2D, b: Point2D) -> int {
    sqrt_floor(sq_dist(a, b))
}

/// The square root of `n` rounded up, for `n >= 0`.
pub open spec fn sqrt_ceil(n: int) -> int {
    let f = sqrt_floor(n);
    if f * f == n {
        f
    } else {
        f + 1
    }
}

/// Euclidean distance between two points, rounded up. Rounded up, the
/// distance between two points is never more than the way over a third.
pub open spec fn dist_up(a: Point2D, b: Point2D) -> int {
    sqrt_ceil(sq_dist(a, b))
}

/// Two-dimensional cross product `ax * by - ay * bx`.
pub open spec fn cross(ax: int, ay: int, bx: int, by: int) -> int {
    ax * by - ay * bx
}

/// The quotient `num / den` is defined and lies in the closed unit interval.
pub open spec fn in_unit_interval(num: int, den: int) -> bool {
    if den > 0 {
        0 <= num <= den
    } else {
        den < 0 && den <= num <= 0
    }
}

/// The segment from `a1` to `a2` meets the segment from `b1` to `b2`, by the
/// parametrisation `a1 + t (a2 - a1) = b1 + u (b2 - b1)` with `t` and `u` in
/// the unit interval. Parallel and colinear segments have no such
/// parametrisation and count as apart.
pub open spec fn segments_meet(a1: Point2D, a2: Point2D, b1: Point2D, b2: Point2D) -> bool {
    let den = cross(a2.0 - a1.0, a2.1 - a1.1, b2.0 - b1.0, b2.1 - b1.1);
    let t = cross(b1.0 - a1.0, b1.1 - a1.1, b2.0 - b1.0, b2.1 - b1.1);
    let u = cross(b1.0 - a1.0, b1.1 - a1.1, a2.0 - a1.0, a2.1 - a1.1);
    den != 0 && in_unit_interval(t, den) && in_unit_interval(u, den)
}

/// A number has one floored square root at most.
pub proof fn lemma_sqrt_floor_unique(n: int, r1: int, r2: int)
    requires
        is_sqrt_floor(n, r1),
        is_sqrt_floor(n, r2),
    ensures
        r1 == r2,
{
    assert(r1 == r2) by (nonlinear_arith)
        requires
            0 <= r1,
            r1 * r1 <= n < (r1 + 1) * (r1 + 1),
            0 <= r2,
            r2 * r2 <= n < (r2 + 1) * (r2 + 1),
    ;
}

/// A witness of the floored square root is the floored square root.
pub proof fn lemma_sqrt_floor_is(n: int, r: int)
    requires
        is_sqrt_floor(n, r),
    ensures
        sqrt_floor(n) == r,
{
    let c = choose|c: int| is_sqrt_floor(n, c);
    lemma_sqrt_floor_unique(n, r, c);
}

/// Squaring keeps the order of natural numbers.
proof fn lemma_square_monotone(a: int, b: int)
    requires
        0 <= a <= b,
    ensures
        a * a <= b * b,
{
    assert(a * a <= b * b) by (nonlinear_arith)
        requires
            0 <= a <= b,
    ;
}

/// The floor of the square root of `n`.
pub fn isqrt_wide(n: u128) -> (r: u128)
    ensures
        is_sqrt_floor(n as int, r as int),
        r == sqrt_floor(n as int),
        r < 18446744073709551616,
{
    let mut lo: u128 = 0;
    let mut hi: u128 = 18446744073709551616;
    assert(18446744073709551616int * 18446744073709551616int > n);
    while hi - lo > 1
        invariant
            lo < hi <= 18446744073709551616,
            lo * lo <= n,
            n < hi * hi,
        decreases hi - lo,
    {
        let mid: u128 = lo + (hi - lo) / 2;
        proof {
            lemma_square_monotone(mid as int, 18446744073709551615int);
        }
        if mid * mid <= n {
            lo = mid;
        } else {
            hi = mid;
        }
    }
    proof {
        assert(hi == lo + 1);
        lemma_sqrt_floor_is(n as int, lo as int);
    }
    lo
}

/// The floor of the square root of `n`.
pub fn isqrt(n: u64) -> (r: u64)
    ensures
        is_sqrt_floor(n as int, r as int),
        r == sqrt_floor(n as int),
        r < DIST_LIMIT,
{
    let r = isqrt_wide(n as u128);
    assert(r < 4294967296) by (nonlinear_arith)
        requires
            r * r <= n,
            n < 18446744073709551616,
            r >= 0,
    ;
    r as u64
}

/// The floor of the binary logarithm of `n`, for `n >= 1`.
pub open spec fn log2_floor(n: int) -> int
    decreases n,
{
    if n <= 1 {
        0
    } else {
        1 + log2_floor(n / 2)
    }
}

/// Two to the power `k`.
pub open spec fn pow2(k: int) -> int
    decreases k,
{
    if k <= 0 {
        1
    } else {
        2 * pow2(k - 1)
    }
}

/// The floor of the binary logarithm of `n`, and two to that power.
pub fn ilog2(n: u64) -> (r: (u32, u64))
    requires
        n >= 1,
    ensures
        r.0 == log2_floor(n as int),
        r.1 == pow2(r.0 as int),
        r.0 < 64,
        1 <= r.1 <= n < 2 * r.1,
{
    let mut k: u32 = 0;
    let mut p: u64 = 1;
    let mut m: u64 = n;
    while m > 1
        invariant
            m >= 1,
            p >= 1,
            k < 64,
            p == pow2(k as int),
            p * m <= n,
            k + log2_floor(m as int) == log2_floor(n as int),
            m > 1 ==> k < 63,
            n < p * (m + 1),
        decreases m,
    {
        assert(p * 2 * (m / 2) <= p * m && p * 2 <= p * m && p * (m + 1) <= p * 2 * (m / 2 + 1))
            by (nonlinear_arith)
            requires
                m >= 2,
                p >= 1,
        ;
        proof {
            let h = (m / 2) as int;
            if h > 1 {
                assert(p * 2 * 2 <= p * 2 * h) by (nonlinear_arith)
                    requires
                        h >= 2,
                        p >= 1,
                ;
                assert(pow2(k as int + 1) == 2 * pow2(k as int));
                assert(pow2(k as int + 2) == 2 * pow2(k as int + 1));
                if k as int + 2 >= 64 {
                    lemma_pow2_bound(k as int + 2);
                }
            }
        }
        p = p * 2;
        m = m / 2;
        k = k + 1;
    }
    assert(p * m == p && p * (m + 1) == 2 * p) by (nonlinear_arith)
        requires
            m == 1,
    ;
    (k, p)
}

/// Two to the power 64 is beyond the 64-bit integers.
proof fn lemma_pow2_bound(k: int)
    requires
        k >= 64,
    ensures
        pow2(k) >= 18446744073709551616,
    decreases k,
{
    if k == 64 {
        reveal_with_fuel(pow2, 9);
        assert(pow2(8) == 256);
        lemma_pow2_adds(8, 8);
        lemma_pow2_adds(16, 16);
        lemma_pow2_adds(32, 32);
        assert(pow2(16) == 65536);
        assert(pow2(32) == 4294967296);
    } else {
        lemma_pow2_bound(k - 1);
    }
}

/// Two to the power of the binary logarithm of `n` is the largest power
/// of two that is no more than `n`.
pub proof fn lemma_log2_floor_bounds(n: int)
    requires
        n >= 1,
    ensures
        0 <= log2_floor(n),
        1 <= pow2(log2_floor(n)) <= n < 2 * pow2(log2_floor(n)),
    decreases n,
{
    if n > 1 {
        lemma_log2_floor_bounds(n / 2);
    }
}

/// Powers of two grow with their exponents.
pub proof fn lemma_pow2_grows(a: int, b: int)
    requires
        0 <= a <= b,
    ensures
        0 < pow2(a) <= pow2(b),
    decreases b,
{
    if a == b {
        lemma_pow2_adds(a, 0);
        if a > 0 {
            lemma_pow2_grows(a - 1, a - 1);
        }
    } else {
        lemma_pow2_grows(a, b - 1);
    }
}

/// Two to the powers 8, 16, 32 and 34.
pub proof fn lemma_pow2_values()
    ensures
        pow2(8) == 256,
        pow2(16) == 65536,
        pow2(32) == 4294967296,
        pow2(34) == 17179869184,
{
    reveal_with_fuel(pow2, 9);
    assert(pow2(8) == 256);
    lemma_pow2_adds(8, 8);
    lemma_pow2_adds(16, 16);
    lemma_pow2_adds(32, 2);
    assert(pow2(2) == 4);
}

/// Powers of two multiply as their exponents add.
pub proof fn lemma_pow2_adds(a: int, b: int)
    requires
        a >= 0,
        b >= 0,
    ensures
        pow2(a + b) == pow2(a) * pow2(b),
    decreases b,
{
    if b == 0 {
        assert(pow2(a) * 1 == pow2(a));
    } else {
        lemma_pow2_adds(a, b - 1);
        assert(2 * (pow2(a) * pow2(b - 1)) == pow2(a) * (2 * pow2(b - 1))) by (nonlinear_arith);
    }
}

/// The quotient of `a` by a positive `b`, rounded toward zero.
pub open spec fn div_toward_zero(a: int, b: int) -> int {
    if a >= 0 {
        a / b
    } else {
        -((-a) / b)
    }
}

/// Rounding toward zero never leaves the interval between zero and the
/// exact quotient.
pub proof fn lemma_div_toward_zero_bounds(a: int, b: int)
    requires
        b > 0,
    ensures
        a >= 0 ==> 0 <= div_toward_zero(a, b) <= a,
        a <= 0 ==> a <= div_toward_zero(a, b) <= 0,
        a >= 0 ==> div_toward_zero(a, b) * b <= a,
        a <= 0 ==> div_toward_zero(a, b) * b >= a,
{
    if a >= 0 {
        assert(0 <= a / b <= a && (a / b) * b <= a) by (nonlinear_arith)
            requires
                a >= 0,
                b > 0,
        ;
    } else {
        let m = -a;
        assert(0 <= m / b <= m && (m / b) * b <= m) by (nonlinear_arith)
            requires
                m >= 0,
                b > 0,
        ;
        assert((-(m / b)) * b == -((m / b) * b)) by (nonlinear_arith);
    }
}

/// The quotient of `a` by a positive `b`, rounded toward zero.
pub fn div_round_to_zero(a: i64, b: i64) -> (r: i64)
    requires
        b > 0,
    ensures
        r == div_toward_zero(a as int, b as int),
{
    a / b
}

/// Componentwise difference `pt0 - pt1`.
pub fn subtract(pt0: &Point2D, pt1: &Point2D) -> (r: Point2D)
    requires
        i64::MIN <= pt0.0 - pt1.0 <= i64::MAX,
        i64::MIN <= pt0.1 - pt1.1 <= i64::MAX,
    ensures
        r.0 == pt0.0 - pt1.0,
        r.1 == pt0.1 - pt1.1,
{
    (pt0.0 - pt1.0, pt0.1 - pt1.1)
}

/// The square of a displacement component.
fn square(v: i64) -> (r: u64)
    requires
        -2 * COORD_LIMIT <= v <= 2 * COORD_LIMIT,
    ensures
        r == v * v,
        r <= 4611686018427387904,
{
    assert(0 <= v * v <= 4611686018427387904) by (nonlinear_arith)
        requires
            -2147483648 <= v <= 2147483648,
    ;
    (v * v) as u64
}

/// Floored Euclidean length of the displacement `pt`.
pub fn euclidean_distance(pt: &Point2D) -> (r: u64)
    requires
        -2 * COORD_LIMIT <= pt.0 <= 2 * COORD_LIMIT,
        -2 * COORD_LIMIT <= pt.1 <= 2 * COORD_LIMIT,
    ensures
        r == sqrt_floor(sq_norm(pt.0 as int, pt.1 as int)),
        is_sqrt_floor(sq_norm(pt.0 as int, pt.1 as int), r as int),
        r < DIST_LIMIT,
{
    isqrt(square(pt.0) + square(pt.1))
}

/// Squared Euclidean distance between two points in range.
pub fn squared_distance(a: &Point2D, b: &Point2D) -> (r: u64)
    requires
        point_in_range(*a),
        point_in_range(*b),
    ensures
        r == sq_dist(*a, *b),
{
    square(a.0 - b.0) + square(a.1 - b.1)
}

/// Floored Euclidean distance between two points in range.
pub fn distance(a: &Point2D, b: &Point2D) -> (r: u64)
    requires
        point_in_range(*a),
        point_in_range(*b),
    ensures
        r == dist(*a, *b),
        is_sqrt_floor(sq_dist(*a, *b), r as int),
        r < DIST_LIMIT,
{
    isqrt(squared_distance(a, b))
}

/// Distinct points are at least one unit apart, and a point is at distance
/// zero from itself.
pub proof fn lemma_dist_zero_iff_same(a: Point2D, b: Point2D)
    ensures
        dist(a, b) == 0 <==> a == b,
        dist(a, b) >= 0,
        sq_dist(a, b) == 0 <==> a == b,
        sq_dist(a, b) >= 0,
{
    let dx = a.0 - b.0;
    let dy = a.1 - b.1;
    assert(dx * dx >= 0 && dy * dy >= 0 && (dx * dx == 0 ==> dx == 0) && (dy * dy == 0 ==> dy
        == 0)) by (nonlinear_arith);
    lemma_sqrt_floor_exists(sq_dist(a, b));
    let r = dist(a, b);
    assert(is_sqrt_floor(sq_dist(a, b), r));
    if a == b {
        assert(sq_dist(a, b) == 0);
        lemma_sqrt_floor_is(0, 0);
    } else {
        assert(sq_dist(a, b) >= 1);
        if r == 0 {
            assert((r + 1) * (r + 1) == 1) by (nonlinear_arith)
                requires
                    r == 0,
            ;
        }
    }
}

/// Every natural number has a floored square root.
pub proof fn lemma_sqrt_floor_exists(n: int)
    requires
        n >= 0,
    ensures
        is_sqrt_floor(n, sqrt_floor(n)),
    decreases n,
{
    if n == 0 {
        assert(is_sqrt_floor(0, 0));
    } else {
        lemma_sqrt_floor_exists(n - 1);
        let r = sqrt_floor(n - 1);
        if (r + 1) * (r + 1) <= n {
            assert(is_sqrt_floor(n, r + 1)) by (nonlinear_arith)
                requires
                    0 <= r,
                    r * r <= n - 1 < (r + 1) * (r + 1),
                    (r + 1) * (r + 1) <= n,
            ;
        } else {
            assert(is_sqrt_floor(n, r));
        }
    }
}

/// Euclidean distance between two points in range, rounded up.
pub fn distance_up(a: &Point2D, b: &Point2D) -> (r: u64)
    requires
        point_in_range(*a),
        point_in_range(*b),
    ensures
        r == dist_up(*a, *b),
        dist(*a, *b) <= r <= dist(*a, *b) + 1,
        r <= 3037000500,
{
    let sq = squared_distance(a, b);
    let f = isqrt(sq);
    assert(sq <= 9223372036854775808) by (nonlinear_arith)
        requires
            sq == (a.0 - b.0) * (a.0 - b.0) + (a.1 - b.1) * (a.1 - b.1),
            -2147483648 <= a.0 - b.0 <= 2147483648,
            -2147483648 <= a.1 - b.1 <= 2147483648,
    ;
    assert(f <= 3037000499) by (nonlinear_arith)
        requires
            f * f <= sq,
            sq <= 9223372036854775808,
            f >= 0,
    ;
    assert(f * f <= 9223372036854775808) by (nonlinear_arith)
        requires
            0 <= f <= 3037000499,
    ;
    if f * f == sq {
        f
    } else {
        f + 1
    }
}

/// The rounded-up root of `n` is the least natural number whose square is
/// at least `n`.
pub proof fn lemma_sqrt_ceil_least(n: int, r: int)
    requires
        n >= 0,
        r >= 0,
        r * r >= n,
    ensures
        0 <= sqrt_ceil(n) <= r,
        sqrt_ceil(n) * sqrt_ceil(n) >= n,
        sqrt_floor(n) <= sqrt_ceil(n) <= sqrt_floor(n) + 1,
{
    lemma_sqrt_floor_exists(n);
    let f = sqrt_floor(n);
    assert(f <= r) by (nonlinear_arith)
        requires
            0 <= f,
            0 <= r,
            f * f <= n,
            n <= r * r,
    ;
    if f * f != n {
        assert(f < r) by (nonlinear_arith)
            requires
                0 <= f,
                0 <= r,
                f * f < n,
                n <= r * r,
        ;
    }
}

/// The distance rounded up is the same in both directions.
pub proof fn lemma_dist_up_symmetric(a: Point2D, b: Point2D)
    ensures
        dist_up(a, b) == dist_up(b, a),
{
    assert((a.0 - b.0) * (a.0 - b.0) == (b.0 - a.0) * (b.0 - a.0)) by (nonlinear_arith);
    assert((a.1 - b.1) * (a.1 - b.1) == (b.1 - a.1) * (b.1 - a.1)) by (nonlinear_arith);
}

/// The way over a third point is never shorter than the distance, both
/// rounded up.
pub proof fn lemma_dist_up_triangle(a: Point2D, b: Point2D, c: Point2D)
    ensures
        dist_up(a, c) <= dist_up(a, b) + dist_up(b, c),
        dist_up(a, b) >= 0,
{
    let ux = a.0 - b.0;
    let uy = a.1 - b.1;
    let vx = b.0 - c.0;
    let vy = b.1 - c.1;
    let d1 = sq_dist(a, b);
    let d2 = sq_dist(b, c);
    let d3 = sq_dist(a, c);
    lemma_dist_zero_iff_same(a, b);
    lemma_dist_zero_iff_same(b, c);
    lemma_dist_zero_iff_same(a, c);
    lemma_sqrt_floor_exists(d1);
    lemma_sqrt_floor_exists(d2);
    let f1 = sqrt_floor(d1);
    let f2 = sqrt_floor(d2);
    assert((f1 + 1) * (f1 + 1) >= d1);
    assert((f2 + 1) * (f2 + 1) >= d2);
    lemma_sqrt_ceil_least(d1, f1 + 1);
    lemma_sqrt_ceil_least(d2, f2 + 1);
    let p = dist_up(a, b);
    let q = dist_up(b, c);
    let w = ux * vx + uy * vy;
    assert(d3 == d1 + d2 + 2 * w) by (nonlinear_arith)
        requires
            d1 == ux * ux + uy * uy,
            d2 == vx * vx + vy * vy,
            d3 == (ux + vx) * (ux + vx) + (uy + vy) * (uy + vy),
            w == ux * vx + uy * vy,
    ;
    let aa = ux * vx;
    let bb = uy * vy;
    let cc = ux * vy;
    let dd = uy * vx;
    assert((ux * ux) * (vx * vx) == aa * aa) by (nonlinear_arith)
        requires
            aa == ux * vx,
    ;
    assert((uy * uy) * (vy * vy) == bb * bb) by (nonlinear_arith)
        requires
            bb == uy * vy,
    ;
    assert((ux * ux) * (vy * vy) == cc * cc) by (nonlinear_arith)
        requires
            cc == ux * vy,
    ;
    assert((uy * uy) * (vx * vx) == dd * dd) by (nonlinear_arith)
        requires
            dd == uy * vx,
    ;
    assert(aa * bb == cc * dd) by (nonlinear_arith)
        requires
            aa == ux * vx,
            bb == uy * vy,
            cc == ux * vy,
            dd == uy * vx,
    ;
    assert(d1 * d2 == aa * aa + cc * cc + dd * dd + bb * bb) by (nonlinear_arith)
        requires
            d1 == ux * ux + uy * uy,
            d2 == vx * vx + vy * vy,
            (ux * ux) * (vx * vx) == aa * aa,
            (uy * uy) * (vy * vy) == bb * bb,
            (ux * ux) * (vy * vy) == cc * cc,
            (uy * uy) * (vx * vx) == dd * dd,
    ;
    assert(w * w <= d1 * d2) by (nonlinear_arith)
        requires
            w == aa + bb,
            d1 * d2 == aa * aa + cc * cc + dd * dd + bb * bb,
            aa * bb == cc * dd,
    {
        assert((cc - dd) * (cc - dd) >= 0);
    }
    assert(d1 * d2 <= (p * q) * (p * q)) by (nonlinear_arith)
        requires
            0 <= d1 <= p * p,
            0 <= d2 <= q * q,
    ;
    assert(w <= p * q) by (nonlinear_arith)
        requires
            w * w <= (p * q) * (p * q),
            p >= 0,
            q >= 0,
    ;
    assert((p + q) * (p + q) >= d3) by (nonlinear_arith)
        requires
            d3 == d1 + d2 + 2 * w,
            d1 <= p * p,
            d2 <= q * q,
            w <= p * q,
    ;
    lemma_sqrt_ceil_least(d3, p + q);
}

/// Cross product of two displacements between points in range.
pub fn cross_of(ax: i64, ay: i64, bx: i64, by: i64) -> (r: i128)
    requires
        -2 * COORD_LIMIT <= ax <= 2 * COORD_LIMIT,
        -2 * COORD_LIMIT <= ay <= 2 * COORD_LIMIT,
        -2 * COORD_LIMIT <= bx <= 2 * COORD_LIMIT,
        -2 * COORD_LIMIT <= by <= 2 * COORD_LIMIT,
    ensures
        r == cross(ax as int, ay as int, bx as int, by as int),
        -9223372036854775808 <= r <= 9223372036854775808,
{
    assert(-4611686018427387904 <= ax * by <= 4611686018427387904) by (nonlinear_arith)
        requires
            -2147483648 <= ax <= 2147483648,
            -2147483648 <= by <= 2147483648,
    ;
    assert(-4611686018427387904 <= ay * bx <= 4611686018427387904) by (nonlinear_arith)
        requires
            -2147483648 <= ay <= 2147483648,
            -2147483648 <= bx <= 2147483648,
    ;
    (ax as i128) * (by as i128) - (ay as i128) * (bx as i128)
}

/// Whether `num / den` is defined and lies in the closed unit interval.
fn ratio_in_unit_interval(num: i128, den: i128) -> (r: bool)
    ensures
        r == in_unit_interval(num as int, den as int),
{
    if den > 0 {
        0 <= num && num <= den
    } else {
        den < 0 && den <= num && num <= 0
    }
}

/// Whether the segment from `a1` to `a2` meets the segment from `b1` to `b2`.
/// Parallel and colinear segments are reported as apart.
pub fn line_seg_intersects(a1: &Point2D, a2: &Point2D, b1: &Point2D, b2: &Point2D) -> (r: bool)
    requires
        point_in_range(*a1),
        point_in_range(*a2),
        point_in_range(*b1),
        point_in_range(*b2),
    ensures
        r == segments_meet(*a1, *a2, *b1, *b2),
{
    let b = subtract(a2, a1);
    let d = subtract(b2, b1);
    let bdotd = cross_of(b.0, b.1, d.0, d.1);
    if bdotd == 0 {
        return false;
    }
    let c = subtract(b1, a1);
    let t = cross_of(c.0, c.1, d.0, d.1);
    if !ratio_in_unit_interval(t, bdotd) {
        return false;
    }
    let u = cross_of(c.0, c.1, b.0, b.1);
    ratio_in_unit_interval(u, bdotd)
}

} // verus!
