//! The natural logarithm of a whole number, in fixed point.
//!
//! The logarithm is told from the series of the inverse hyperbolic
//! tangent: with `p = 2^k` the largest power of two that is no more than
//! `n`, `ln n = 2 * (k * artanh(1/3) + artanh((n - p) / (n + p)))`, and
//! `artanh z = z + z^3 / 3 + z^5 / 5 + ...`. Both arguments are at most
//! a third, so that every term is less than a ninth of the one before.
//!
//! Every rounding goes down and the series is cut short, so the result
//! never exceeds the logarithm. How far it falls short is proved against
//! the exact sums of the series, which are fractions of whole numbers: the
//! powers and terms in `lemma_odd_power_error`, their sum in
//! `lemma_artanh_sum_error`, the terms left out in `lemma_series_error`,
//! and the whole in `lemma_ln_scaled_error`. That the exact sums grow
//! toward the logarithm is the one step these numbers cannot state.

use crate::math::{
    ilog2, lemma_log2_floor_bounds, lemma_pow2_grows, lemma_pow2_values, log2_floor, pow2,
};
use vstd::prelude::*;

verus! {

/// The unit of the fixed-point numbers: they count in parts of one in
/// `LN_SCALE`.
pub const LN_SCALE: u128 = 1000000000000000000;

/// The logarithm in fixed point falls short of the exact value of the
/// series by no more than this many parts, however many terms are taken:
/// 81 parts for each of up to 34 sums, twice.
pub const LN_SLACK: u128 = 6000;

/// The number of terms of the series that are summed.
pub const LN_TERMS: u32 = 20;

/// The quotient `a / b` in fixed point, rounded down.
pub open spec fn ratio_scaled(a: int, b: int) -> int {
    (LN_SCALE * a) / b
}

/// The power `z^(2 i + 1)` of the fixed-point number `z`, each product
/// rounded down.
pub open spec fn odd_power(z: int, i: nat) -> int
    decreases i,
{
    if i == 0 {
        z
    } else {
        (odd_power(z, (i - 1) as nat) * ((z * z) / (LN_SCALE as int))) / (LN_SCALE as int)
    }
}

/// The sum of the first `terms` terms `z^(2 i + 1) / (2 i + 1)` of the
/// series of the inverse hyperbolic tangent at the fixed-point number `z`,
/// each term rounded down.
pub open spec fn artanh_sum(z: int, terms: nat) -> int
    decreases terms,
{
    if terms == 0 {
        0
    } else {
        artanh_sum(z, (terms - 1) as nat) + odd_power(z, (terms - 1) as nat) / (2 * (terms - 1)
            + 1)
    }
}

/// The natural logarithm of `n >= 1` in fixed point, from below: every
/// rounding goes down, and the series is cut after `LN_TERMS` terms.
pub open spec fn ln_scaled(n: int) -> int {
    let k = log2_floor(n);
    let p = pow2(k);
    2 * (k * artanh_sum(ratio_scaled(1, 3), LN_TERMS as nat) + artanh_sum(
        ratio_scaled(n - p, n + p),
        LN_TERMS as nat,
    ))
}

/// The power `x^e`.
pub open spec fn power(x: int, e: nat) -> int
    decreases e,
{
    if e == 0 {
        1
    } else {
        x * power(x, (e - 1) as nat)
    }
}

/// The square of the fixed-point quotient `a / b`, rounded down, is within
/// two parts of the exact square.
pub proof fn lemma_square_error(a: int, b: int)
    requires
        0 <= a,
        0 < b,
        3 * a <= b,
    ensures
        ({
            let z = ratio_scaled(a, b);
            let z2 = (z * z) / (LN_SCALE as int);
            &&& 0 <= z && 3 * z <= LN_SCALE
            &&& z * b <= LN_SCALE * a < (z + 1) * b
            &&& 0 <= z2 && 9 * z2 <= LN_SCALE
            &&& z2 * (b * b) <= LN_SCALE * (a * a) <= (z2 + 2) * (b * b)
        }),
{
    let s = LN_SCALE as int;
    let z = ratio_scaled(a, b);
    let z2 = (z * z) / s;
    assert(0 <= z && z * b <= s * a < (z + 1) * b && 3 * z <= s) by (nonlinear_arith)
        requires
            z == (s * a) / b,
            0 <= a,
            0 < b,
            3 * a <= b,
            s == 1000000000000000000,
    ;
    assert(0 <= z2 && z2 * s <= z * z < (z2 + 1) * s && 9 * z2 <= s) by (nonlinear_arith)
        requires
            z2 == (z * z) / s,
            0 <= z,
            3 * z <= s,
            s == 1000000000000000000,
    ;
    let zb = z * b;
    let sa = s * a;
    assert(zb * zb <= sa * sa) by (nonlinear_arith)
        requires
            0 <= zb <= sa,
    ;
    assert(zb * zb == (z * z) * (b * b)) by (nonlinear_arith)
        requires
            zb == z * b,
    ;
    assert(sa * sa == s * (s * (a * a))) by (nonlinear_arith)
        requires
            sa == s * a,
    ;
    assert((z2 * s) * (b * b) <= (z * z) * (b * b)) by (nonlinear_arith)
        requires
            z2 * s <= z * z,
            b * b >= 0,
    ;
    assert(z2 * (b * b) <= s * (a * a)) by (nonlinear_arith)
        requires
            (z2 * s) * (b * b) <= s * (s * (a * a)),
            s > 0,
    ;
    let z1b = (z + 1) * b;
    assert(sa * sa <= z1b * z1b) by (nonlinear_arith)
        requires
            0 <= sa <= z1b,
    ;
    assert(z1b * z1b == ((z + 1) * (z + 1)) * (b * b)) by (nonlinear_arith)
        requires
            z1b == (z + 1) * b,
    ;
    assert((z + 1) * (z + 1) <= (z2 + 2) * s) by (nonlinear_arith)
        requires
            z * z < (z2 + 1) * s,
            0 <= z,
            3 * z <= s,
    ;
    assert(((z + 1) * (z + 1)) * (b * b) <= ((z2 + 2) * s) * (b * b)) by (nonlinear_arith)
        requires
            (z + 1) * (z + 1) <= (z2 + 2) * s,
            b * b >= 0,
    ;
    assert(s * (a * a) <= (z2 + 2) * (b * b)) by (nonlinear_arith)
        requires
            s * (s * (a * a)) <= ((z2 + 2) * s) * (b * b),
            s > 0,
    ;
}

/// Every power of the fixed-point quotient `a / b` that the series uses is
/// within three parts of the exact power, and every term within four parts
/// of the exact term; neither is above the exact one.
pub proof fn lemma_odd_power_error(a: int, b: int, i: nat)
    requires
        0 <= a,
        0 < b,
        3 * a <= b,
    ensures
        ({
            let pw = odd_power(ratio_scaled(a, b), i);
            let term = pw / (2 * i + 1) as int;
            let num = power(a, 2 * i + 1);
            let den = power(b, 2 * i + 1);
            &&& 0 <= pw && 3 * pw <= LN_SCALE
            &&& 0 <= num && 0 < den
            &&& pw * den <= LN_SCALE * num <= (pw + 3) * den
            &&& term * ((2 * i + 1) * den) <= LN_SCALE * num <= (term + 4) * ((2 * i + 1) * den)
        }),
    decreases i,
{
    let s = LN_SCALE as int;
    let z = ratio_scaled(a, b);
    let z2 = (z * z) / s;
    lemma_square_error(a, b);
    let pw = odd_power(z, i);
    let num = power(a, 2 * i + 1);
    let den = power(b, 2 * i + 1);
    if i == 0 {
        reveal_with_fuel(power, 2);
        assert(num == a && den == b) by (nonlinear_arith)
            requires
                num == a * 1,
                den == b * 1,
        ;
        assert((pw + 3) * den >= (pw + 1) * den) by (nonlinear_arith)
            requires
                den > 0,
        ;
    } else {
        let j = (i - 1) as nat;
        lemma_odd_power_error(a, b, j);
        let pw0 = odd_power(z, j);
        let num0 = power(a, 2 * j + 1);
        let den0 = power(b, 2 * j + 1);
        reveal_with_fuel(power, 3);
        assert(num == a * (a * num0));
        assert(den == b * (b * den0));
        let aa = a * a;
        let bb = b * b;
        assert(num == aa * num0 && den == bb * den0 && aa >= 0 && bb > 0 && num >= 0 && den > 0)
            by (nonlinear_arith)
            requires
                num == a * (a * num0),
                den == b * (b * den0),
                aa == a * a,
                bb == b * b,
                a >= 0,
                b > 0,
                num0 >= 0,
                den0 > 0,
        ;
        assert(pw == (pw0 * z2) / s);
        assert(0 <= pw && pw * s <= pw0 * z2 < (pw + 1) * s && 9 * pw <= pw0) by (nonlinear_arith)
            requires
                pw == (pw0 * z2) / s,
                0 <= pw0,
                0 <= z2,
                9 * z2 <= s,
                s == 1000000000000000000,
        ;
        // from below
        let left = pw0 * den0;
        let right = s * num0;
        let zl = z2 * bb;
        let zr = s * aa;
        assert(left * zl <= right * zr) by (nonlinear_arith)
            requires
                0 <= left <= right,
                0 <= zl <= zr,
        ;
        assert(left * zl == (pw0 * z2) * den) by (nonlinear_arith)
            requires
                left == pw0 * den0,
                zl == z2 * bb,
                den == bb * den0,
        ;
        assert(right * zr == s * (s * num)) by (nonlinear_arith)
            requires
                right == s * num0,
                zr == s * aa,
                num == aa * num0,
        ;
        assert((pw * s) * den <= (pw0 * z2) * den) by (nonlinear_arith)
            requires
                pw * s <= pw0 * z2,
                den > 0,
        ;
        assert(pw * den <= s * num) by (nonlinear_arith)
            requires
                (pw * s) * den <= s * (s * num),
                s > 0,
        ;
        // from above
        let up = (pw0 + 3) * den0;
        let zu = (z2 + 2) * bb;
        assert(right * zr <= up * zu) by (nonlinear_arith)
            requires
                0 <= right <= up,
                0 <= zr <= zu,
        ;
        assert(up * zu == ((pw0 + 3) * (z2 + 2)) * den) by (nonlinear_arith)
            requires
                up == (pw0 + 3) * den0,
                zu == (z2 + 2) * bb,
                den == bb * den0,
        ;
        assert((pw0 + 3) * (z2 + 2) <= (pw + 3) * s) by (nonlinear_arith)
            requires
                pw0 * z2 < (pw + 1) * s,
                0 <= pw0,
                3 * pw0 <= s,
                0 <= z2,
                9 * z2 <= s,
                s == 1000000000000000000,
        ;
        assert(((pw0 + 3) * (z2 + 2)) * den <= ((pw + 3) * s) * den) by (nonlinear_arith)
            requires
                (pw0 + 3) * (z2 + 2) <= (pw + 3) * s,
                den > 0,
        ;
        assert(s * num <= (pw + 3) * den) by (nonlinear_arith)
            requires
                s * (s * num) <= ((pw + 3) * s) * den,
                s > 0,
        ;
    }
    let odd = (2 * i + 1) as int;
    let term = pw / odd;
    assert(0 <= term && term * odd <= pw < (term + 1) * odd) by (nonlinear_arith)
        requires
            term == pw / odd,
            pw >= 0,
            odd >= 1,
    ;
    assert(term * (odd * den) <= pw * den) by (nonlinear_arith)
        requires
            term * odd <= pw,
            den > 0,
    ;
    assert((pw + 3) * den <= (term + 4) * (odd * den)) by (nonlinear_arith)
        requires
            pw < (term + 1) * odd,
            odd >= 1,
            den > 0,
    ;
}

/// The numerator of the exact sum of the first `terms` terms of the series
/// at `a / b`, over the denominator `exact_sum_den(a, b, terms)`.
pub open spec fn exact_sum_num(a: int, b: int, terms: nat) -> int
    decreases terms,
{
    if terms == 0 {
        0
    } else {
        let t = (terms - 1) as nat;
        exact_sum_num(a, b, t) * ((2 * t + 1) * power(b, 2 * t + 1)) + power(a, 2 * t + 1)
            * exact_sum_den(a, b, t)
    }
}

/// The denominator of the exact sum of the first `terms` terms of the
/// series at `a / b`.
pub open spec fn exact_sum_den(a: int, b: int, terms: nat) -> int
    decreases terms,
{
    if terms == 0 {
        1
    } else {
        let t = (terms - 1) as nat;
        exact_sum_den(a, b, t) * ((2 * t + 1) * power(b, 2 * t + 1))
    }
}

/// The sum in fixed point is never above the exact sum of the same terms,
/// and below it by no more than four parts for each term.
pub proof fn lemma_artanh_sum_error(a: int, b: int, terms: nat)
    requires
        0 <= a,
        0 < b,
        3 * a <= b,
    ensures
        ({
            let sum = artanh_sum(ratio_scaled(a, b), terms);
            let num = exact_sum_num(a, b, terms);
            let den = exact_sum_den(a, b, terms);
            &&& 0 <= sum && 0 <= num && 0 < den
            &&& sum * den <= LN_SCALE * num <= (sum + 4 * terms) * den
        }),
    decreases terms,
{
    let s = LN_SCALE as int;
    if terms > 0 {
        let t = (terms - 1) as nat;
        lemma_artanh_sum_error(a, b, t);
        lemma_odd_power_error(a, b, t);
        let z = ratio_scaled(a, b);
        let sum0 = artanh_sum(z, t);
        let num0 = exact_sum_num(a, b, t);
        let den0 = exact_sum_den(a, b, t);
        let term = odd_power(z, t) / (2 * t + 1) as int;
        let top = power(a, 2 * t + 1);
        let d = (2 * t + 1) * power(b, 2 * t + 1);
        let sum = artanh_sum(z, terms);
        let num = exact_sum_num(a, b, terms);
        let den = exact_sum_den(a, b, terms);
        assert(sum == sum0 + term);
        assert(num == num0 * d + top * den0);
        assert(den == den0 * d);
        assert(d > 0) by (nonlinear_arith)
            requires
                d == (2 * t + 1) * power(b, 2 * t + 1),
                power(b, 2 * t + 1) > 0,
        ;
        assert(den > 0 && num >= 0) by (nonlinear_arith)
            requires
                den == den0 * d,
                num == num0 * d + top * den0,
                den0 > 0,
                d > 0,
                num0 >= 0,
                top >= 0,
        ;
        let x0 = sum0 * den0;
        let y0 = s * num0;
        let x1 = term * d;
        let y1 = s * top;
        let w0 = (sum0 + 4 * t) * den0;
        let w1 = (term + 4) * d;
        assert(x0 * d <= y0 * d && y0 * d <= w0 * d) by (nonlinear_arith)
            requires
                x0 <= y0 <= w0,
                d > 0,
        ;
        assert(x1 * den0 <= y1 * den0 && y1 * den0 <= w1 * den0) by (nonlinear_arith)
            requires
                x1 <= y1 <= w1,
                den0 > 0,
        ;
        assert(sum * den == x0 * d + x1 * den0) by (nonlinear_arith)
            requires
                sum == sum0 + term,
                den == den0 * d,
                x0 == sum0 * den0,
                x1 == term * d,
        ;
        assert(s * num == y0 * d + y1 * den0) by (nonlinear_arith)
            requires
                num == num0 * d + top * den0,
                y0 == s * num0,
                y1 == s * top,
        ;
        assert((sum + 4 * terms) * den == w0 * d + w1 * den0) by (nonlinear_arith)
            requires
                sum == sum0 + term,
                den == den0 * d,
                w0 == (sum0 + 4 * t) * den0,
                w1 == (term + 4) * d,
                terms == t + 1,
        ;
    }
}

/// With `3 a <= b`, the power `a^e` is no more than `b^e / 3^e`.
pub proof fn lemma_power_of_a_third(a: int, b: int, e: nat)
    requires
        0 <= a,
        0 < b,
        3 * a <= b,
    ensures
        0 <= power(a, e),
        0 < power(b, e),
        0 < power(3, e),
        power(3, e) * power(a, e) <= power(b, e),
    decreases e,
{
    if e > 0 {
        let f = (e - 1) as nat;
        lemma_power_of_a_third(a, b, f);
        let x = power(a, f);
        let y = power(b, f);
        let t = power(3, f);
        assert(power(a, e) == a * x && power(b, e) == b * y && power(3, e) == 3 * t);
        assert(a * x >= 0 && b * y > 0 && (3 * t) * (a * x) <= b * y) by (nonlinear_arith)
            requires
                0 <= a,
                0 < b,
                3 * a <= b,
                0 <= x,
                0 < y,
                0 < t,
                t * x <= y,
        ;
    }
}

/// One more term keeps the exact sum below a bound `k` by a margin that
/// shrinks with the terms: with `n / d` the sum so far, `x / y` the power
/// of the next term and `m >= 41` its odd index, the margin
/// `9 s x / (328 y)` is enough for all the terms that follow.
proof fn lemma_tail_step(s: int, k: int, n: int, d: int, x: int, y: int, m: int, aa: int, bb: int)
    requires
        0 <= s,
        0 <= k,
        0 <= n,
        0 < d,
        0 <= x,
        0 < y,
        41 <= m,
        0 <= aa,
        0 < bb,
        9 * aa <= bb,
        s * n * (328 * y) + 9 * s * x * d <= k * d * (328 * y),
    ensures
        s * (n * (m * y) + x * d) * (328 * (y * bb)) + 9 * s * (x * aa) * (d * (m * y)) <= k * (d
            * (m * y)) * (328 * (y * bb)),
{
    let e = m * y;
    let g = e * bb;
    let left = s * n * (328 * y) + 9 * s * x * d;
    let right = k * d * (328 * y);
    let sxd = s * x * d;
    assert(e > 0 && g > 0 && sxd >= 0) by (nonlinear_arith)
        requires
            e == m * y,
            g == e * bb,
            sxd == s * x * d,
            m >= 41,
            y > 0,
            bb > 0,
            s >= 0,
            x >= 0,
            d > 0,
    ;
    assert(left * g <= right * g) by (nonlinear_arith)
        requires
            left <= right,
            g > 0,
    ;
    let w = 328 * (y * bb) + 9 * (aa * e);
    assert(w <= 9 * g) by (nonlinear_arith)
        requires
            w == 328 * (y * bb) + 9 * (aa * e),
            g == e * bb,
            e == m * y,
            m >= 41,
            y > 0,
            0 <= aa,
            0 < bb,
            9 * aa <= bb,
    ;
    assert(sxd * w <= sxd * (9 * g)) by (nonlinear_arith)
        requires
            w <= 9 * g,
            sxd >= 0,
    ;
    let p = s * n;
    let ybb = y * bb;
    let head = s * (n * e + x * d);
    assert(head == p * e + sxd) by (nonlinear_arith)
        requires
            head == s * (n * e + x * d),
            p == s * n,
            sxd == s * x * d,
    ;
    assert((p * e) * (328 * ybb) == (p * (328 * y)) * g) by (nonlinear_arith)
        requires
            ybb == y * bb,
            g == e * bb,
    ;
    assert(head * (328 * ybb) == (p * e) * (328 * ybb) + sxd * (328 * ybb)) by (nonlinear_arith)
        requires
            head == p * e + sxd,
    ;
    assert(9 * s * (x * aa) * (d * e) == sxd * (9 * (aa * e))) by (nonlinear_arith)
        requires
            sxd == s * x * d,
    ;
    assert(sxd * w == sxd * (328 * ybb) + sxd * (9 * (aa * e))) by (nonlinear_arith)
        requires
            w == 328 * ybb + 9 * (aa * e),
    ;
    assert(s * (n * e + x * d) * (328 * (y * bb)) + 9 * s * (x * aa) * (d * e) == (s * n * (328
        * y)) * g + sxd * w);
    assert(left * g == (s * n * (328 * y)) * g + sxd * (9 * g)) by (nonlinear_arith)
        requires
            left == s * n * (328 * y) + 9 * s * x * d,
            sxd == s * x * d,
    ;
    assert(right * g == k * (d * e) * (328 * (y * bb))) by (nonlinear_arith)
        requires
            right == k * d * (328 * y),
            g == e * bb,
    ;
}

/// The margin of `lemma_tail_step` holds of the exact sum of `terms` terms,
/// for every number of terms from `LN_TERMS` on, below the sum in fixed
/// point and 81 parts.
proof fn lemma_tail_margin(a: int, b: int, terms: nat)
    requires
        0 <= a,
        0 < b,
        3 * a <= b,
        terms >= LN_TERMS,
    ensures
        ({
            let sum = artanh_sum(ratio_scaled(a, b), LN_TERMS as nat);
            let num = exact_sum_num(a, b, terms);
            let den = exact_sum_den(a, b, terms);
            let x = power(a, 2 * terms + 1);
            let y = power(b, 2 * terms + 1);
            &&& 0 <= sum && 0 <= num && 0 < den && 0 <= x && 0 < y
            &&& sum * den <= LN_SCALE * num
            &&& LN_SCALE * num * (328 * y) + 9 * LN_SCALE * x * den <= (sum + 81) * den * (328
                * y)
        }),
    decreases terms,
{
    let s = LN_SCALE as int;
    let sum = artanh_sum(ratio_scaled(a, b), LN_TERMS as nat);
    let num = exact_sum_num(a, b, terms);
    let den = exact_sum_den(a, b, terms);
    let x = power(a, 2 * terms + 1);
    let y = power(b, 2 * terms + 1);
    lemma_power_of_a_third(a, b, 2 * terms + 1);
    if terms == LN_TERMS {
        lemma_artanh_sum_error(a, b, terms);
        lemma_three_to_the_41();
        let t = power(3, 41);
        assert(9 * s * x <= 328 * y) by (nonlinear_arith)
            requires
                t * x <= y,
                t == 36472996377170786403,
                s == 1000000000000000000,
                x >= 0,
        ;
        let sn = s * num;
        let bound = (sum + 80) * den;
        assert(sn * (328 * y) + (9 * s * x) * den <= (bound + den) * (328 * y))
            by (nonlinear_arith)
            requires
                sn <= bound,
                9 * s * x <= 328 * y,
                y > 0,
                den > 0,
        ;
        assert(bound + den == (sum + 81) * den) by (nonlinear_arith)
            requires
                bound == (sum + 80) * den,
        ;
        assert(sn * (328 * y) == s * num * (328 * y));
        assert((9 * s * x) * den == 9 * s * x * den);
    } else {
        let t = (terms - 1) as nat;
        lemma_tail_margin(a, b, t);
        let n0 = exact_sum_num(a, b, t);
        let d0 = exact_sum_den(a, b, t);
        let x0 = power(a, 2 * t + 1);
        let y0 = power(b, 2 * t + 1);
        let m = (2 * t + 1) as int;
        let aa = a * a;
        let bb = b * b;
        reveal_with_fuel(power, 3);
        assert(x == a * (a * x0));
        assert(y == b * (b * y0));
        assert(x == x0 * aa && y == y0 * bb && aa >= 0 && bb > 0 && 9 * aa <= bb)
            by (nonlinear_arith)
            requires
                x == a * (a * x0),
                y == b * (b * y0),
                aa == a * a,
                bb == b * b,
                0 <= a,
                0 < b,
                3 * a <= b,
        ;
        assert(num == n0 * (m * y0) + x0 * d0);
        assert(den == d0 * (m * y0));
        lemma_tail_step(s, sum + 81, n0, d0, x0, y0, m, aa, bb);
        let e = m * y0;
        assert(e > 0 && den > 0 && num >= 0 && sum * den <= s * num) by (nonlinear_arith)
            requires
                e == m * y0,
                m >= 41,
                y0 > 0,
                den == d0 * e,
                num == n0 * e + x0 * d0,
                d0 > 0,
                n0 >= 0,
                x0 >= 0,
                sum * d0 <= s * n0,
                s >= 0,
        ;
    }
}

/// The value of `3^41`.
proof fn lemma_three_to_the_41()
    ensures
        power(3, 41) == 36472996377170786403,
{
    reveal_with_fuel(power, 11);
    assert(power(3, 10) == 59049);
    assert(power(3, 20) == 59049 * power(3, 10));
    assert(power(3, 30) == 59049 * power(3, 20));
    assert(power(3, 40) == 59049 * power(3, 30));
    assert(power(3, 41) == 3 * power(3, 40));
}

/// The sum in fixed point of the first `LN_TERMS` terms is never above the
/// exact sum of the first `terms` terms of the series at `a / b`, however
/// many terms beyond `LN_TERMS` are taken, and never below it by more than
/// 81 parts. The exact sums grow with the terms toward the inverse
/// hyperbolic tangent of `a / b`, which therefore lies within the same 81
/// parts.
pub proof fn lemma_series_error(a: int, b: int, terms: nat)
    requires
        0 <= a,
        0 < b,
        3 * a <= b,
        terms >= LN_TERMS,
    ensures
        ({
            let sum = artanh_sum(ratio_scaled(a, b), LN_TERMS as nat);
            let num = exact_sum_num(a, b, terms);
            let den = exact_sum_den(a, b, terms);
            &&& 0 <= sum && 0 <= num && 0 < den
            &&& sum * den <= LN_SCALE * num <= (sum + 81) * den
        }),
{
    let s = LN_SCALE as int;
    let sum = artanh_sum(ratio_scaled(a, b), LN_TERMS as nat);
    let num = exact_sum_num(a, b, terms);
    let den = exact_sum_den(a, b, terms);
    let x = power(a, 2 * terms + 1);
    let y = power(b, 2 * terms + 1);
    lemma_tail_margin(a, b, terms);
    let sn = s * num;
    let k = (sum + 81) * den;
    let rest = 9 * s * x * den;
    assert(rest >= 0) by (nonlinear_arith)
        requires
            rest == 9 * s * x * den,
            s >= 0,
            x >= 0,
            den > 0,
    ;
    assert(sn <= k) by (nonlinear_arith)
        requires
            sn * (328 * y) + rest <= k * (328 * y),
            rest >= 0,
            y > 0,
    ;
}

/// The numerator of `2 * (k * t(1/3) + t((n - p) / (n + p)))`, where `k`
/// is the binary logarithm of `n`, `p = 2^k`, and `t` is the exact sum of
/// the first `terms` terms of the series; its denominator is
/// `ln_series_den(n, terms)`. As the terms grow this value grows toward
/// `k * ln 2 + ln(n / p)`, the natural logarithm of `n`.
pub open spec fn ln_series_num(n: int, terms: nat) -> int {
    let k = log2_floor(n);
    let p = pow2(k);
    2 * (k * exact_sum_num(1, 3, terms) * exact_sum_den(n - p, n + p, terms) + exact_sum_num(
        n - p,
        n + p,
        terms,
    ) * exact_sum_den(1, 3, terms))
}

/// The denominator of the exact value whose numerator is
/// `ln_series_num(n, terms)`.
pub open spec fn ln_series_den(n: int, terms: nat) -> int {
    let p = pow2(log2_floor(n));
    exact_sum_den(1, 3, terms) * exact_sum_den(n - p, n + p, terms)
}

/// The logarithm in fixed point against the series it is told from: the
/// exact value of the series is never below `ln_scaled(n)` and never above
/// it by more than `LN_SLACK` parts, however many terms beyond `LN_TERMS`
/// are taken. The natural logarithm of `n`, toward which the exact values
/// grow, therefore lies within the same `LN_SLACK` parts.
pub proof fn lemma_ln_scaled_error(n: int, terms: nat)
    requires
        1 <= n <= 8589934592,
        terms >= LN_TERMS,
    ensures
        0 < ln_series_den(n, terms),
        ln_scaled(n) * ln_series_den(n, terms) <= LN_SCALE * ln_series_num(n, terms) <= (
        ln_scaled(n) + LN_SLACK) * ln_series_den(n, terms),
{
    let s = LN_SCALE as int;
    let k = log2_floor(n);
    let p = pow2(k);
    lemma_log2_floor_bounds(n);
    if k >= 34 {
        lemma_pow2_grows(34, k);
        lemma_pow2_values();
    }
    let n1 = exact_sum_num(1, 3, terms);
    let d1 = exact_sum_den(1, 3, terms);
    let n2 = exact_sum_num(n - p, n + p, terms);
    let d2 = exact_sum_den(n - p, n + p, terms);
    let s1 = artanh_sum(ratio_scaled(1, 3), LN_TERMS as nat);
    let s2 = artanh_sum(ratio_scaled(n - p, n + p), LN_TERMS as nat);
    lemma_series_error(1, 3, terms);
    lemma_series_error(n - p, n + p, terms);
    let dd = d1 * d2;
    let low1 = s1 * d1;
    let mid1 = s * n1;
    let top1 = (s1 + 81) * d1;
    let low2 = s2 * d2;
    let mid2 = s * n2;
    let top2 = (s2 + 81) * d2;
    assert(dd > 0) by (nonlinear_arith)
        requires
            dd == d1 * d2,
            d1 > 0,
            d2 > 0,
    ;
    assert(k * (low1 * d2) <= k * (mid1 * d2) <= k * (top1 * d2)) by (nonlinear_arith)
        requires
            low1 <= mid1 <= top1,
            d2 > 0,
            k >= 0,
    ;
    assert(low2 * d1 <= mid2 * d1 <= top2 * d1) by (nonlinear_arith)
        requires
            low2 <= mid2 <= top2,
            d1 > 0,
    ;
    let ln = ln_scaled(n);
    assert(ln == 2 * (k * s1 + s2));
    lemma_weighted_pair(k, s1, d1, s2, d2);
    lemma_weighted_pair(k, s1 + 81, d1, s2 + 81, d2);
    assert(2 * (k * (s1 + 81) + (s2 + 81)) == ln + 162 * (k + 1)) by (nonlinear_arith)
        requires
            ln == 2 * (k * s1 + s2),
    ;
    let kn = k * n1;
    assert(s * (kn * d2) == k * (mid1 * d2)) by (nonlinear_arith)
        requires
            kn == k * n1,
            mid1 == s * n1,
    ;
    assert(s * (n2 * d1) == mid2 * d1) by (nonlinear_arith)
        requires
            mid2 == s * n2,
    ;
    assert(s * (2 * (kn * d2 + n2 * d1)) == 2 * (s * (kn * d2) + s * (n2 * d1)))
        by (nonlinear_arith);
    assert((ln + 162 * (k + 1)) * dd <= (ln + 6000) * dd) by (nonlinear_arith)
        requires
            0 <= k <= 33,
            dd > 0,
    ;
}

/// `2 (k u1 + u2)` over the product of two denominators, as the sum of the
/// two fractions `u1 d1` and `u2 d2` each over the other's denominator.
proof fn lemma_weighted_pair(k: int, u1: int, d1: int, u2: int, d2: int)
    ensures
        (2 * (k * u1 + u2)) * (d1 * d2) == 2 * (k * ((u1 * d1) * d2) + (u2 * d2) * d1),
{
    let dd = d1 * d2;
    let ku = k * u1;
    assert(ku * dd == k * ((u1 * d1) * d2)) by (nonlinear_arith)
        requires
            ku == k * u1,
            dd == d1 * d2,
    ;
    assert(u2 * dd == (u2 * d2) * d1) by (nonlinear_arith)
        requires
            dd == d1 * d2,
    ;
    assert((2 * (ku + u2)) * dd == 2 * (ku * dd + u2 * dd)) by (nonlinear_arith);
}

/// The sum of the series at a fixed-point number `z` of no more than a
/// third lies between `z` and nine eighths of `z`.
pub proof fn lemma_artanh_sum_bounds(z: int, terms: nat)
    requires
        0 <= z,
        3 * z <= LN_SCALE,
    ensures
        0 <= odd_power(z, terms),
        0 <= artanh_sum(z, terms),
        8 * artanh_sum(z, terms) + 9 * odd_power(z, terms) <= 9 * z,
        terms >= 1 ==> artanh_sum(z, terms) >= z,
    decreases terms,
{
    if terms > 0 {
        let t = (terms - 1) as nat;
        lemma_artanh_sum_bounds(z, t);
        let s = LN_SCALE as int;
        let z2 = (z * z) / s;
        let pw = odd_power(z, t);
        let term = pw / (2 * t + 1) as int;
        let next = odd_power(z, terms);
        assert(0 <= z2 && 9 * z2 <= s) by (nonlinear_arith)
            requires
                z2 == (z * z) / s,
                0 <= z,
                3 * z <= s,
                s == 1000000000000000000,
        ;
        assert(next == (pw * z2) / s);
        assert(0 <= next && 9 * next <= pw) by (nonlinear_arith)
            requires
                next == (pw * z2) / s,
                9 * z2 <= s,
                s == 1000000000000000000,
                pw >= 0,
                z2 >= 0,
        ;
        assert(0 <= term <= pw && (t == 0 ==> term == pw)) by (nonlinear_arith)
            requires
                term == pw / (2 * t + 1) as int,
                pw >= 0,
        ;
        assert(artanh_sum(z, terms) == artanh_sum(z, t) + term);
        if t == 0 {
            assert(artanh_sum(z, 0) == 0);
            assert(odd_power(z, 0) == z);
        }
    }
}

/// The logarithm in fixed point is no more than 26, and from `n = 2` on
/// no less than two thirds.
pub proof fn lemma_ln_scaled_bounds(n: int)
    requires
        1 <= n <= 8589934592,
    ensures
        0 <= ln_scaled(n) <= 26 * LN_SCALE,
        n >= 2 ==> 3 * ln_scaled(n) >= 2 * LN_SCALE - 6,
{
    let s = LN_SCALE as int;
    let k = log2_floor(n);
    let p = pow2(k);
    lemma_log2_floor_bounds(n);
    if k >= 34 {
        lemma_pow2_grows(34, k);
        lemma_pow2_values();
    }
    let z1 = ratio_scaled(1, 3);
    let z2 = ratio_scaled(n - p, n + p);
    lemma_square_error(n - p, n + p);
    assert(z1 == 333333333333333333);
    lemma_artanh_sum_bounds(z1, LN_TERMS as nat);
    lemma_artanh_sum_bounds(z2, LN_TERMS as nat);
    let s1 = artanh_sum(z1, LN_TERMS as nat);
    let s2 = artanh_sum(z2, LN_TERMS as nat);
    assert(0 <= k * s1 <= 33 * 375000000000000000 && (k >= 1 ==> k * s1 >= s1))
        by (nonlinear_arith)
        requires
            0 <= k <= 33,
            0 <= s1 <= 375000000000000000,
    ;
    if n >= 2 {
        assert(log2_floor(n) == 1 + log2_floor(n / 2));
        lemma_log2_floor_bounds(n / 2);
    }
}

/// The sum of the first `LN_TERMS` terms of the series at `z`, for `z` no
/// more than a third.
pub fn artanh_series(z: u128) -> (r: u128)
    requires
        3 * z <= LN_SCALE,
    ensures
        r == artanh_sum(z as int, LN_TERMS as nat),
        z <= r,
        8 * r <= 9 * z,
{
    assert(z * z <= 111111111111111111 * LN_SCALE) by (nonlinear_arith)
        requires
            0 <= z <= 333333333333333333,
            LN_SCALE == 1000000000000000000,
    ;
    let z2: u128 = (z * z) / LN_SCALE;
    let mut sum: u128 = 0;
    let mut pw: u128 = z;
    let mut i: u32 = 0;
    while i < LN_TERMS
        invariant
            i <= LN_TERMS,
            3 * z <= LN_SCALE,
            z2 == (z * z) / (LN_SCALE as int),
            9 * z2 <= LN_SCALE,
            sum == artanh_sum(z as int, i as nat),
            pw == odd_power(z as int, i as nat),
            8 * sum + 9 * pw <= 9 * z,
            i == 0 ==> pw == z,
            i >= 1 ==> sum >= z,
        decreases LN_TERMS - i,
    {
        let term: u128 = pw / (2 * i as u128 + 1);
        assert(i == 0 ==> term == z) by (nonlinear_arith)
            requires
                term == pw / ((2 * i + 1) as u128),
                i == 0 ==> pw == z,
        ;
        assert(pw * z2 <= 333333333333333333 * 111111111111111111) by (nonlinear_arith)
            requires
                0 <= pw <= 333333333333333333,
                0 <= z2 <= 111111111111111111,
        ;
        let next: u128 = (pw * z2) / LN_SCALE;
        assert(9 * next <= pw) by (nonlinear_arith)
            requires
                next == (pw * z2) / (LN_SCALE as int),
                9 * z2 <= LN_SCALE,
                LN_SCALE == 1000000000000000000,
                pw >= 0,
                z2 >= 0,
        ;
        sum = sum + term;
        pw = next;
        i = i + 1;
    }
    sum
}

/// The natural logarithm of `n` in fixed point, from below.
pub fn ln_fixed(n: u64) -> (r: u128)
    requires
        1 <= n <= 8589934592,
    ensures
        r == ln_scaled(n as int),
        r <= 26 * LN_SCALE,
        n >= 2 ==> 3 * r >= 2 * LN_SCALE - 6,
{
    let (k, p) = ilog2(n);
    assert(k <= 33) by {
        if k >= 34 {
            lemma_pow2_grows(34, k as int);
            lemma_pow2_values();
        }
    }
    let a: u128 = (n - p) as u128;
    let b: u128 = n as u128 + p as u128;
    assert(LN_SCALE * a <= 1000000000000000000 * 8589934592) by (nonlinear_arith)
        requires
            0 <= a <= 8589934592,
            LN_SCALE == 1000000000000000000,
    ;
    let zm: u128 = (LN_SCALE * a) / b;
    assert(3 * zm <= LN_SCALE) by (nonlinear_arith)
        requires
            zm == (LN_SCALE * a) / (b as int),
            3 * a <= b,
            b > 0,
            a >= 0,
            LN_SCALE == 1000000000000000000,
    ;
    let z2: u128 = LN_SCALE / 3;
    assert(z2 == ratio_scaled(1, 3));
    let half_two: u128 = artanh_series(z2);
    let half_rest: u128 = artanh_series(zm);
    assert(k * half_two <= 33 * 375000000000000000) by (nonlinear_arith)
        requires
            0 <= k <= 33,
            0 <= half_two <= 375000000000000000,
    ;
    assert(n >= 2 ==> k * half_two >= half_two) by (nonlinear_arith)
        requires
            n >= 2 ==> k >= 1,
            half_two >= 0,
    ;
    2 * ((k as u128) * half_two + half_rest)
}

} // verus!
