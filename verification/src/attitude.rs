//! How far rounding carries the axes of an attitude from a rotation.
//!
//! The axes are computed from sines and cosines, with a rounding at every step. The
//! laws here bound what the roundings add up to.

use vstd::arithmetic::power2::{lemma2_to64, lemma2_to64_rest, lemma_pow2_adds, lemma_pow2_pos, lemma_pow2_strictly_increases, pow2};
use vstd::prelude::*;

use crate::arithmetic::{integer, lemma_double_of, lemma_double_of_exact, lemma_integer, lemma_size};
use crate::number::{magnitude_units, one, Double, INFINITE, LEADING};
use crate::pose::{boresight_of, camera_axes, east_of, north_of, right_of, Matrix, SinCos, Vector};
use crate::rounding::{
    distance, is_double, law_rounding_is_nearest, lemma_level_bounds, lemma_nearest_is_double, lemma_shifted_is_double,
    level, nearest_units,
};

verus! {

/// The number that a double stands for.
pub open spec fn value(x: Double) -> real {
    x.units() as real / one() as real
}

/// Half of what lies between one and the next double: 2^-53.
pub open spec fn ulp() -> real {
    (1 as real) / (0x20_0000_0000_0000 as real)
}

pub open spec fn within(x: real, y: real, e: real) -> bool {
    -e <= x - y <= e
}

/// Two is a double.
proof fn lemma_two()
    ensures
        is_double(2 * one()),
        2 * one() < magnitude_units(INFINITE as int),
        one() > 0,
        one() == 0x20_0000_0000_0000 * pow2(1021),
{
    lemma2_to64();
    lemma2_to64_rest();
    lemma_pow2_pos(1074);
    lemma_pow2_adds(1074, 1);
    lemma_pow2_adds(52, 1023);
    lemma_pow2_adds(53, 1021);
    lemma_shifted_is_double(LEADING as int, 1023);
    assert(INFINITE as int / LEADING as int == 2047 && INFINITE as int % LEADING as int == 0);
    lemma_pow2_adds(52, 2046);
    lemma_pow2_strictly_increases(1075, 2098);
}

/// A fraction below two is rounded by no more than 2^-53.
proof fn lemma_small_error(num: int, den: int)
    requires
        0 <= num,
        0 < den,
        num < (2 * one()) * den,
    ensures
        0x20_0000_0000_0000 * distance(num, den, nearest_units(num, den)) <= den * one(),
        0 <= nearest_units(num, den) <= 2 * one(),
        is_double(nearest_units(num, den)),
{
    lemma_two();
    let n = num / den;
    assert(0 <= n < 2 * one()) by (nonlinear_arith)
        requires
            0 <= num < (2 * one()) * den,
            0 < den,
            n == num / den,
    ;
    let k = level(n);
    lemma_level_bounds(n);
    lemma2_to64();
    lemma_pow2_adds(1074, 1);
    assert(k <= 1022) by {
        if k > 1022 {
            if 52 + k > 1075 {
                lemma_pow2_strictly_increases(1075, (52 + k) as nat);
            }
        }
    }
    let g = pow2(k) as int;
    if k < 1022 {
        lemma_pow2_strictly_increases(k, 1022);
    }
    lemma_pow2_adds(1021, 1);
    let d = distance(num, den, nearest_units(num, den));
    lemma_nearest_is_double(num, den);
    law_rounding_is_nearest(num, den, 2 * one());
    let h = pow2(1021) as int;
    assert(d <= den * h) by (nonlinear_arith)
        requires
            2 * d <= den * g,
            g <= 2 * h,
            0 < den,
    ;
    assert(0x20_0000_0000_0000 * d <= den * one()) by (nonlinear_arith)
        requires
            d <= den * h,
            one() == 0x20_0000_0000_0000 * h,
    ;
}

/// From integers to numbers: a value that is near a fraction of integers.
proof fn lemma_near_fraction(r: int, num: int, o: int)
    requires
        o > 0,
        0x20_0000_0000_0000 * (r * o - num) <= o * o,
        0x20_0000_0000_0000 * (num - r * o) <= o * o,
    ensures
        within(r as real / o as real, num as real / (o as real * o as real), ulp()),
{
    let x = r as real / o as real;
    let t = o as real;
    let y = num as real / (t * t);
    assert(t > 0 as real);
    assert(x * t == r as real) by (nonlinear_arith)
        requires
            x == r as real / t,
            t > 0 as real,
    ;
    assert(t * t > 0 as real) by (nonlinear_arith)
        requires
            t > 0 as real,
    ;
    let tt = t * t;
    assert(y * tt == num as real) by (nonlinear_arith)
        requires
            y == num as real / tt,
            tt > 0 as real,
    ;
    assert((r * o) as real == r as real * t && (o * o) as real == tt) by (nonlinear_arith)
        requires
            t == o as real,
            tt == t * t,
    ;
    assert((x - y) * tt == (r * o) as real - num as real) by (nonlinear_arith)
        requires
            x * t == r as real,
            y * tt == num as real,
            tt == t * t,
            (r * o) as real == r as real * t,
    ;
    let big = 0x20_0000_0000_0000 as real;
    let d = x - y;
    assert(big * (d * tt) <= tt && -(big * (d * tt)) <= tt);
    assert(big * d <= 1 as real && -(big * d) <= 1 as real) by (nonlinear_arith)
        requires
            big * (d * tt) <= tt,
            -(big * (d * tt)) <= tt,
            tt > 0 as real,
    ;
    assert(ulp() * big == 1 as real);
}

/// The product of two values, as a fraction of integers.
proof fn lemma_product_of_values(p: int, q: int, o: int)
    requires
        o > 0,
    ensures
        (p as real / o as real) * (q as real / o as real) == (p * q) as real / (o as real * o as real),
{
    let t = o as real;
    let x = p as real / t;
    let y = q as real / t;
    assert(x * t == p as real && y * t == q as real) by (nonlinear_arith)
        requires
            x == p as real / t,
            y == q as real / t,
            t > 0 as real,
    ;
    assert((p * q) as real == p as real * q as real) by (nonlinear_arith);
    assert(t * t > 0 as real) by (nonlinear_arith)
        requires
            t > 0 as real,
    ;
    let tt = t * t;
    assert((x * y) * tt == p as real * q as real) by (nonlinear_arith)
        requires
            x * t == p as real,
            y * t == q as real,
            tt == t * t,
    ;
    assert(x * y == (p * q) as real / tt) by (nonlinear_arith)
        requires
            (x * y) * tt == (p * q) as real,
            tt > 0 as real,
    ;
}

/// A product below two is off by no more than 2^-53.
proof fn lemma_times_value(a: Double, b: Double)
    requires
        a.finite(),
        b.finite(),
        -(2 as real) < value(a) * value(b) < 2 as real,
    ensures
        a.times(b).finite(),
        within(value(a.times(b)), value(a) * value(b), ulp()),
{
    reveal(Double::times);
    lemma_two();
    lemma_size(a);
    lemma_size(b);
    let o = one();
    let t = o as real;
    let (p, q) = (a.units(), b.units());
    let num = a.size() * b.size();
    lemma_product_of_values(p, q, o);
    let negative = a.negative() != b.negative();
    assert(p * q == (if negative { -num } else { num })) by (nonlinear_arith)
        requires
            num == a.size() * b.size(),
            p == (if a.negative() { -a.size() } else { a.size() }),
            q == (if b.negative() { -b.size() } else { b.size() }),
            negative == (a.negative() != b.negative()),
    ;
    assert(0 <= num) by (nonlinear_arith)
        requires
            num == a.size() * b.size(),
            a.size() >= 0,
            b.size() >= 0,
    ;
    let tt = t * t;
    assert((o * o) as real == tt && tt > 0 as real) by (nonlinear_arith)
        requires
            t == o as real,
            tt == t * t,
            t > 0 as real,
    ;
    let z = (p * q) as real / tt;
    assert(z * tt == (p * q) as real) by (nonlinear_arith)
        requires
            z == (p * q) as real / tt,
            tt > 0 as real,
    ;
    assert(-(2 as real) * tt < z * tt < 2 as real * tt) by (nonlinear_arith)
        requires
            -(2 as real) < z < 2 as real,
            tt > 0 as real,
    ;
    assert((2 * (o * o)) as real == 2 as real * tt);
    assert(num < 2 * (o * o));
    assert((2 * o) * o == 2 * (o * o)) by (nonlinear_arith);
    lemma_small_error(num, o);
    let near = nearest_units(num, o);
    lemma_double_of(negative, near);
    lemma_double_of_exact(negative, near);
    let r = a.times(b);
    lemma_size(r);
    assert(r.units() * o == (if negative { -(near * o) } else { near * o })) by (nonlinear_arith)
        requires
            r.units() == (if negative { -near } else { near }),
    ;
    lemma_near_fraction(r.units(), p * q, o);
}

/// A sum below two is off by no more than 2^-53.
proof fn lemma_plus_value(a: Double, b: Double)
    requires
        a.finite(),
        b.finite(),
        -(2 as real) < value(a) + value(b) < 2 as real,
    ensures
        a.plus(b).finite(),
        within(value(a.plus(b)), value(a) + value(b), ulp()),
{
    reveal(Double::plus);
    lemma_two();
    let o = one();
    let t = o as real;
    let (p, q) = (a.units(), b.units());
    let sum = p + q;
    let x = p as real / t;
    let y = q as real / t;
    assert(x * t == p as real && y * t == q as real) by (nonlinear_arith)
        requires
            x == p as real / t,
            y == q as real / t,
            t > 0 as real,
    ;
    let z = x + y;
    assert(z * t == sum as real) by (nonlinear_arith)
        requires
            x * t == p as real,
            y * t == q as real,
            z == x + y,
            sum as real == p as real + q as real,
    ;
    assert(-(2 as real) * t < z * t < 2 as real * t) by (nonlinear_arith)
        requires
            -(2 as real) < z < 2 as real,
            t > 0 as real,
    ;
    assert((2 * o) as real == 2 as real * t);
    assert(-2 * o < sum < 2 * o);
    let u = if sum < 0 {
        -sum
    } else {
        sum
    };
    assert((2 * o) * 1 == 2 * o);
    lemma_small_error(u, 1);
    let near = nearest_units(u, 1);
    lemma_double_of(sum < 0, near);
    lemma_double_of_exact(sum < 0, near);
    let r = a.plus(b);
    let n = r.units();
    if sum == 0 {
        assert(is_double(0)) by {
            lemma2_to64();
            assert(0int % 1 == 0);
        }
        lemma_double_of(a.negative() && b.negative(), 0);
        lemma_double_of_exact(a.negative() && b.negative(), 0);
    }
    lemma_size(r);
    assert(0x20_0000_0000_0000 * (n - sum) <= o && 0x20_0000_0000_0000 * (sum - n) <= o);
    assert(0x20_0000_0000_0000 * (n * o - sum * o) <= o * o && 0x20_0000_0000_0000 * (sum * o - n * o) <= o * o)
        by (nonlinear_arith)
        requires
            0x20_0000_0000_0000 * (n - sum) <= o,
            0x20_0000_0000_0000 * (sum - n) <= o,
            o > 0,
    ;
    lemma_near_fraction(n, sum * o, o);
    assert((sum * o) as real == sum as real * t) by (nonlinear_arith)
        requires
            t == o as real,
    ;
    assert((sum * o) as real / (t * t) == z) by (nonlinear_arith)
        requires
            (sum * o) as real == sum as real * t,
            z * t == sum as real,
            t > 0 as real,
    ;
}

proof fn lemma_negation_value(x: Double)
    ensures
        value(x.negation()) == -value(x),
        x.finite() ==> x.negation().finite(),
{
    let t = one() as real;
    let p = x.units();
    lemma_two();
    assert((-p) as real / t == -(p as real / t)) by (nonlinear_arith)
        requires
            t > 0 as real,
    ;
}

proof fn lemma_zero_value()
    ensures
        integer(0).finite(),
        value(integer(0)) == 0 as real,
{
    lemma_integer(0);
    lemma_two();
    assert(0 * one() == 0);
    let t = one() as real;
    assert(0int as real / t == 0 as real) by (nonlinear_arith)
        requires
            t > 0 as real,
    ;
}

/// Between `-e` and `e`.
pub open spec fn small(x: real, e: real) -> bool {
    -e <= x <= e
}

proof fn lemma_small_product(a: real, b: real, ma: real, mb: real)
    requires
        small(a, ma),
        small(b, mb),
    ensures
        small(a * b, ma * mb),
{
    assert(-(ma * mb) <= a * b <= ma * mb) by (nonlinear_arith)
        requires
            -ma <= a <= ma,
            -mb <= b <= mb,
    ;
}

/// How far a product is off when its factors are.
proof fn lemma_product_off(b: real, i: real, x: real, j: real, eb: real, ex: real, mi: real, mx: real)
    requires
        within(b, i, eb),
        within(x, j, ex),
        small(i, mi),
        small(x, mx),
    ensures
        within(b * x, i * j, eb * mx + mi * ex),
{
    lemma_small_product(b - i, x, eb, mx);
    lemma_small_product(i, x - j, mi, ex);
    assert(b * x - i * j == (b - i) * x + i * (x - j)) by (nonlinear_arith);
}

/// Two legs of a triangle whose hypotenuse is little more than one.
proof fn lemma_legs(a: real, b: real)
    requires
        10 as real * (a * a + b * b) <= 11 as real,
    ensures
        small(a + b, 3 as real / 2 as real),
        small(a - b, 3 as real / 2 as real),
{
    let h = 3 as real / 2 as real;
    assert(h * h == 9 as real / 4 as real) by (nonlinear_arith)
        requires
            h == 3 as real / 2 as real,
    ;
    assert((a + b) * (a + b) + (a - b) * (a - b) == 2 as real * (a * a + b * b)) by (nonlinear_arith);
    assert((a + b) * (a + b) >= 0 as real && (a - b) * (a - b) >= 0 as real) by (nonlinear_arith);
    let s = a + b;
    let d = a - b;
    assert(-h <= s <= h) by (nonlinear_arith)
        requires
            s * s <= 11 as real / 5 as real,
            h * h == 9 as real / 4 as real,
            h > 0 as real,
    ;
    assert(-h <= d <= h) by (nonlinear_arith)
        requires
            d * d <= 11 as real / 5 as real,
            h * h == 9 as real / 4 as real,
            h > 0 as real,
    ;
}

/// A sine and a cosine: neither is beyond one, and together they are `d` off the unit
/// circle at most.
pub open spec fn on_circle(a: SinCos, d: real) -> bool {
    &&& a.sin.finite() && a.cos.finite()
    &&& small(value(a.sin), 1 as real) && small(value(a.cos), 1 as real)
    &&& within(value(a.sin) * value(a.sin) + value(a.cos) * value(a.cos), 1 as real, d)
}

/// Scaling down by a factor of at most one keeps a square from growing.
proof fn lemma_scaled_square(a: real, e: real)
    requires
        small(e, 1 as real),
    ensures
        (a * e) * (a * e) <= a * a,
{
    assert(e * e <= 1 as real) by (nonlinear_arith)
        requires
            -(1 as real) <= e <= 1 as real,
    ;
    let f = e * e;
    let g = a * a;
    assert(g >= 0 as real) by (nonlinear_arith)
        requires
            g == a * a,
    ;
    assert(g * f <= g) by (nonlinear_arith)
        requires
            g >= 0 as real,
            f <= 1 as real,
    ;
    assert((a * e) * (a * e) == g * f) by (nonlinear_arith)
        requires
            f == e * e,
            g == a * a,
    ;
}

/// A sum of two products, as one component of the camera's right is computed.
proof fn lemma_blend(ct: Double, st: Double, e: Double, n: Double, m: real)
    requires
        ct.finite() && st.finite() && e.finite() && n.finite(),
        small(value(ct), 1 as real) && small(value(st), 1 as real) && small(value(e), 1 as real),
        10 as real * (value(ct) * value(ct) + value(st) * value(st)) <= 11 as real,
        small(m, 1 as real),
        within(value(n), m, ulp()),
    ensures
        ct.times(e).plus(st.times(n)).finite(),
        within(value(ct.times(e).plus(st.times(n))), value(ct) * value(e) + value(st) * m, 4 as real * ulp()),
        small(value(ct) * value(e) + value(st) * m, 3 as real / 2 as real),
{
    let (c, s, f, v) = (value(ct), value(st), value(e), value(n));
    lemma_small_product(c, f, 1 as real, 1 as real);
    lemma_small_product(s, v, 1 as real, 1 as real + ulp());
    lemma_times_value(ct, e);
    lemma_times_value(st, n);
    lemma_product_off(s, s, v, m, 0 as real, ulp(), 1 as real, 1 as real + ulp());
    lemma_scaled_square(c, f);
    lemma_scaled_square(s, m);
    lemma_legs(c * f, s * m);
    lemma_plus_value(ct.times(e), st.times(n));
}

/// The boresight, and the direction north, as computed and as they should be.
proof fn lemma_directions(ra: SinCos, dec: SinCos)
    requires
        on_circle(ra, 1 as real),
        on_circle(dec, 1 as real),
    ensures
        ({
            let (cr, sr, cd, sd) = (value(ra.cos), value(ra.sin), value(dec.cos), value(dec.sin));
            let b = boresight_of(ra, dec);
            let n = north_of(ra, dec);
            let e = east_of(ra);
            &&& b.x.finite() && within(value(b.x), cd * cr, ulp()) && small(cd * cr, 1 as real)
            &&& b.y.finite() && within(value(b.y), cd * sr, ulp()) && small(cd * sr, 1 as real)
            &&& b.z.finite() && value(b.z) == sd
            &&& n.x.finite() && within(value(n.x), -sd * cr, ulp()) && small(-sd * cr, 1 as real)
            &&& n.y.finite() && within(value(n.y), -sd * sr, ulp()) && small(-sd * sr, 1 as real)
            &&& n.z.finite() && value(n.z) == cd
            &&& e.x.finite() && value(e.x) == -sr
            &&& e.y.finite() && value(e.y) == cr
            &&& e.z.finite() && value(e.z) == 0 as real
        }),
{
    let (cr, sr, cd, sd) = (value(ra.cos), value(ra.sin), value(dec.cos), value(dec.sin));
    lemma_negation_value(ra.sin);
    lemma_negation_value(dec.sin);
    lemma_zero_value();
    lemma_small_product(cd, cr, 1 as real, 1 as real);
    lemma_small_product(cd, sr, 1 as real, 1 as real);
    lemma_small_product(-sd, cr, 1 as real, 1 as real);
    lemma_small_product(-sd, sr, 1 as real, 1 as real);
    lemma_times_value(dec.cos, ra.cos);
    lemma_times_value(dec.cos, ra.sin);
    lemma_times_value(dec.sin.negation(), ra.cos);
    lemma_times_value(dec.sin.negation(), ra.sin);
}

/// The squares of numbers of at most one are at most one.
proof fn lemma_square(a: real)
    requires
        small(a, 1 as real),
    ensures
        small(a * a, 1 as real),
{
    lemma_small_product(a, a, 1 as real, 1 as real);
}

proof fn lemma_four_factors(a: real, b: real, c: real, d: real)
    ensures
        (a * b) * (c * d) == (a * c) * (b * d),
{
    assert((a * b) * (c * d) == (a * c) * (b * d)) by (nonlinear_arith);
}

proof fn lemma_distribute(a: real, x: real, y: real)
    ensures
        a * (x + y) == a * x + a * y,
        a * (x - y) == a * x - a * y,
        a * (-x) == -(a * x),
        (-x) * a == -(a * x),
{
    assert(a * (x + y) == a * x + a * y) by (nonlinear_arith);
    assert(a * (x - y) == a * x - a * y) by (nonlinear_arith);
    assert(a * (-x) == -(a * x)) by (nonlinear_arith);
    assert((-x) * a == -(a * x)) by (nonlinear_arith);
}

proof fn lemma_square_of_sum(x: real, y: real)
    ensures
        (x + y) * (x + y) == x * x + 2 as real * (x * y) + y * y,
        (x - y) * (x - y) == x * x - 2 as real * (x * y) + y * y,
        (-x) * (-x) == x * x,
{
    assert((x + y) * (x + y) == x * x + 2 as real * (x * y) + y * y) by (nonlinear_arith);
    assert((x - y) * (x - y) == x * x - 2 as real * (x * y) + y * y) by (nonlinear_arith);
    assert((-x) * (-x) == x * x) by (nonlinear_arith);
}

/// The boresight without rounding has a length of nearly one.
proof fn lemma_ideal_boresight(cr: real, sr: real, cd: real, sd: real, d: real)
    requires
        small(cd, 1 as real),
        within(sr * sr + cr * cr, 1 as real, d),
        within(sd * sd + cd * cd, 1 as real, d),
    ensures
        within((cd * cr) * (cd * cr) + (cd * sr) * (cd * sr) + sd * sd, 1 as real, 2 as real * d),
{
    let cd2 = cd * cd;
    let r = sr * sr + cr * cr - 1 as real;
    lemma_square(cd);
    lemma_four_factors(cd, cr, cd, cr);
    lemma_four_factors(cd, sr, cd, sr);
    lemma_distribute(cd2, sr * sr, cr * cr);
    lemma_distribute(cd2, sr * sr + cr * cr, 1 as real);
    lemma_small_product(cd2, r, 1 as real, d);
    assert(1 as real * d == d);
    assert(cd2 * 1 as real == cd2);
}

/// The part of the right that lies along east and north, squared.
proof fn lemma_ideal_plane(cr: real, sr: real, ct: real, k: real)
    ensures
        ({
            let j1 = -(ct * sr) - k * cr;
            let j2 = ct * cr - k * sr;
            j1 * j1 + j2 * j2 == (ct * ct + k * k) * (sr * sr + cr * cr)
        }),
{
    let (a, b, e, f) = (ct * sr, k * cr, ct * cr, k * sr);
    lemma_square_of_sum(a, b);
    lemma_square_of_sum(a + b, 0 as real);
    lemma_square_of_sum(e, f);
    lemma_four_factors(ct, sr, k, cr);
    lemma_four_factors(ct, cr, k, sr);
    lemma_distribute(sr, cr, 0 as real);
    assert(sr * cr == cr * sr) by (nonlinear_arith);
    lemma_four_factors(ct, sr, ct, sr);
    lemma_four_factors(ct, cr, ct, cr);
    lemma_four_factors(k, cr, k, cr);
    lemma_four_factors(k, sr, k, sr);
    let (ct2, k2, sr2, cr2) = (ct * ct, k * k, sr * sr, cr * cr);
    lemma_distribute(ct2 + k2, sr2, cr2);
    assert((ct2 + k2) * sr2 == ct2 * sr2 + k2 * sr2 && (ct2 + k2) * cr2 == ct2 * cr2 + k2 * cr2) by (nonlinear_arith);
    assert(-a - b == -(a + b));
}

/// The image's right without rounding has a length of nearly one.
proof fn lemma_ideal_right(cr: real, sr: real, cd: real, sd: real, ct: real, st: real, d: real)
    requires
        small(ct, 1 as real) && small(st, 1 as real) && small(sd, 1 as real),
        within(sr * sr + cr * cr, 1 as real, d),
        within(sd * sd + cd * cd, 1 as real, d),
        within(st * st + ct * ct, 1 as real, d),
    ensures
        ({
            let j1 = -(ct * sr) - (st * sd) * cr;
            let j2 = ct * cr - (st * sd) * sr;
            let j3 = st * cd;
            within(j1 * j1 + j2 * j2 + j3 * j3, 1 as real, 4 as real * d)
        }),
{
    let k = st * sd;
    let j3 = st * cd;
    let r = sr * sr + cr * cr - 1 as real;
    let v = sd * sd + cd * cd - 1 as real;
    let (ct2, st2, sd2, cd2) = (ct * ct, st * st, sd * sd, cd * cd);
    lemma_ideal_plane(cr, sr, ct, k);
    lemma_four_factors(st, sd, st, sd);
    lemma_four_factors(st, cd, st, cd);
    let k2 = st2 * sd2;
    // (ct2 + k2) * (1 + r) + st2 * cd2 == ct2 + st2 + ct2 * r + k2 * r + st2 * v
    lemma_distribute(ct2 + k2, r, 1 as real);
    assert((ct2 + k2) * (r + 1 as real) == (ct2 + k2) * (sr * sr + cr * cr));
    assert((ct2 + k2) * r == ct2 * r + k2 * r) by (nonlinear_arith);
    assert((ct2 + k2) * 1 as real == ct2 + k2);
    lemma_distribute(st2, sd2, cd2);
    lemma_distribute(st2, sd2 + cd2, 1 as real);
    assert(st2 * 1 as real == st2);
    lemma_square(ct);
    lemma_square(st);
    lemma_square(sd);
    lemma_small_product(ct2, r, 1 as real, d);
    lemma_small_product(st2, v, 1 as real, d);
    lemma_small_product(st2, sd2, 1 as real, 1 as real);
    lemma_small_product(k2, r, 1 as real, d);
    assert(1 as real * d == d);
}

/// The boresight and the image's right without rounding are nearly at right angles.
proof fn lemma_ideal_angle(cr: real, sr: real, cd: real, sd: real, ct: real, st: real, d: real)
    requires
        small(cd, 1 as real) && small(st, 1 as real) && small(sd, 1 as real),
        within(sr * sr + cr * cr, 1 as real, d),
    ensures
        ({
            let j1 = -(ct * sr) - (st * sd) * cr;
            let j2 = ct * cr - (st * sd) * sr;
            let j3 = st * cd;
            within((cd * cr) * j1 + (cd * sr) * j2 + sd * j3, 0 as real, d)
        }),
{
    let k = st * sd;
    let (i1, i2) = (cd * cr, cd * sr);
    let (a, b, e, f) = (ct * sr, k * cr, ct * cr, k * sr);
    let r = sr * sr + cr * cr - 1 as real;
    let w = k * cd;
    assert(-a - b == -(a + b));
    lemma_distribute(i1, a + b, 0 as real);
    lemma_distribute(i1, a, b);
    lemma_distribute(i2, e, f);
    // The east parts cancel.
    lemma_four_factors(cd, cr, ct, sr);
    lemma_four_factors(cd, sr, ct, cr);
    assert(cr * sr == sr * cr) by (nonlinear_arith);
    // The north parts add up.
    lemma_four_factors(cd, cr, k, cr);
    lemma_four_factors(cd, sr, k, sr);
    assert(cd * k == w) by (nonlinear_arith)
        requires
            w == k * cd,
    ;
    lemma_distribute(w, sr * sr, cr * cr);
    lemma_distribute(w, sr * sr + cr * cr, 1 as real);
    assert(w * 1 as real == w);
    assert(sd * (st * cd) == w) by (nonlinear_arith)
        requires
            w == k * cd,
            k == st * sd,
    ;
    lemma_small_product(st, sd, 1 as real, 1 as real);
    lemma_small_product(k, cd, 1 as real, 1 as real);
    lemma_small_product(w, r, 1 as real, d);
    assert(1 as real * d == d);
}

/// The inner product of two vectors.
pub open spec fn inner(a: Vector, b: Vector) -> real {
    value(a.x) * value(b.x) + value(a.y) * value(b.y) + value(a.z) * value(b.z)
}

pub open spec fn is_finite(a: Vector) -> bool {
    a.x.finite() && a.y.finite() && a.z.finite()
}

/// No component is beyond `e`, either way.
pub open spec fn all_small(a: Vector, e: real) -> bool {
    small(value(a.x), e) && small(value(a.y), e) && small(value(a.z), e)
}

/// An inner product of vectors that are off by no more than `eb` and `ex`.
proof fn lemma_inner_off(
    b: Vector,
    i1: real,
    i2: real,
    i3: real,
    x: Vector,
    j1: real,
    j2: real,
    j3: real,
    eb: real,
    ex: real,
    mi: real,
    mx: real,
)
    requires
        within(value(b.x), i1, eb) && within(value(b.y), i2, eb) && within(value(b.z), i3, eb),
        within(value(x.x), j1, ex) && within(value(x.y), j2, ex) && within(value(x.z), j3, ex),
        small(i1, mi) && small(i2, mi) && small(i3, mi),
        all_small(x, mx),
    ensures
        within(inner(b, x), i1 * j1 + i2 * j2 + i3 * j3, 3 as real * (eb * mx + mi * ex)),
{
    lemma_product_off(value(b.x), i1, value(x.x), j1, eb, ex, mi, mx);
    lemma_product_off(value(b.y), i2, value(x.y), j2, eb, ex, mi, mx);
    lemma_product_off(value(b.z), i3, value(x.z), j3, eb, ex, mi, mx);
}

/// The boresight and the image's right, as computed: their lengths, and the angle
/// between them.
proof fn lemma_boresight_and_right(ra: SinCos, dec: SinCos, theta: SinCos, d: real)
    requires
        0 as real <= d <= 1 as real / 1024 as real,
        on_circle(ra, d),
        on_circle(dec, d),
        on_circle(theta, d),
    ensures
        ({
            let b = boresight_of(ra, dec);
            let x = right_of(ra, dec, theta);
            &&& is_finite(b) && all_small(b, 1 as real + ulp())
            &&& is_finite(x) && all_small(x, 3 as real / 2 as real + 4 as real * ulp())
            &&& within(inner(b, b), 1 as real, 2 as real * d + 9 as real * ulp())
            &&& within(inner(x, x), 1 as real, 4 as real * d + 42 as real * ulp())
            &&& within(inner(b, x), 0 as real, d + 18 as real * ulp())
        }),
{
    let (cr, sr, cd, sd) = (value(ra.cos), value(ra.sin), value(dec.cos), value(dec.sin));
    let (ct, st) = (value(theta.cos), value(theta.sin));
    let b = boresight_of(ra, dec);
    let x = right_of(ra, dec, theta);
    let e = east_of(ra);
    let n = north_of(ra, dec);
    let u = ulp();
    lemma_directions(ra, dec);
    lemma_blend(theta.cos, theta.sin, e.x, n.x, -sd * cr);
    lemma_blend(theta.cos, theta.sin, e.y, n.y, -sd * sr);
    lemma_blend(theta.cos, theta.sin, e.z, n.z, cd);
    let k = st * sd;
    let (i1, i2, i3) = (cd * cr, cd * sr, sd);
    let (j1, j2, j3) = (-(ct * sr) - k * cr, ct * cr - k * sr, st * cd);
    assert(ct * (-sr) == -(ct * sr)) by (nonlinear_arith);
    assert(st * (-sd * cr) == -(k * cr)) by (nonlinear_arith)
        requires
            k == st * sd,
    ;
    assert(st * (-sd * sr) == -(k * sr)) by (nonlinear_arith)
        requires
            k == st * sd,
    ;
    assert(ct * 0 as real == 0 as real);
    lemma_ideal_boresight(cr, sr, cd, sd, d);
    lemma_ideal_right(cr, sr, cd, sd, ct, st, d);
    lemma_ideal_angle(cr, sr, cd, sd, ct, st, d);
    lemma_inner_off(b, i1, i2, i3, b, i1, i2, i3, u, u, 1 as real, 1 as real + u);
    lemma_inner_off(b, i1, i2, i3, x, j1, j2, j3, u, 4 as real * u, 1 as real, 2 as real);
    lemma_inner_off(x, j1, j2, j3, x, j1, j2, j3, 4 as real * u, 4 as real * u, 3 as real / 2 as real, 2 as real);
    assert(u * (1 as real + u) <= 2 as real * u) by (nonlinear_arith)
        requires
            0 as real <= u <= 1 as real,
    ;
}

/// One component of a cross product, squared.
proof fn lemma_cross_square(b2: real, b3: real, x2: real, x3: real)
    ensures
        (b2 * x3 - b3 * x2) * (b2 * x3 - b3 * x2) == (b2 * b2) * (x3 * x3) + (b3 * b3) * (x2 * x2) - 2 as real * ((b2
            * x2) * (b3 * x3)),
{
    let (p, q) = (b2 * x3, b3 * x2);
    lemma_square_of_sum(p, q);
    lemma_four_factors(b2, x3, b2, x3);
    lemma_four_factors(b3, x2, b3, x2);
    assert(p * q == (b2 * x2) * (b3 * x3)) by (nonlinear_arith)
        requires
            p == b2 * x3,
            q == b3 * x2,
    ;
}

/// The square of a sum of three.
proof fn lemma_square_of_three(p: real, q: real, r: real)
    ensures
        (p + q + r) * (p + q + r) == p * p + q * q + r * r + 2 as real * (p * q) + 2 as real * (p * r) + 2 as real * (q
            * r),
{
    lemma_square_of_sum(p + q, r);
    lemma_square_of_sum(p, q);
    assert((p + q) * r == p * r + q * r) by (nonlinear_arith);
}

/// The product of two sums of three.
proof fn lemma_three_by_three(a: real, b: real, c: real, x: real, y: real, z: real)
    ensures
        (a + b + c) * (x + y + z) == a * x + a * y + a * z + b * x + b * y + b * z + c * x + c * y + c * z,
{
    let s = x + y + z;
    assert((a + b + c) * s == a * s + b * s + c * s) by (nonlinear_arith);
    assert(a * s == a * x + a * y + a * z) by (nonlinear_arith)
        requires
            s == x + y + z,
    ;
    assert(b * s == b * x + b * y + b * z) by (nonlinear_arith)
        requires
            s == x + y + z,
    ;
    assert(c * s == c * x + c * y + c * z) by (nonlinear_arith)
        requires
            s == x + y + z,
    ;
}

/// A cross product is as long as its factors are, less what they have in common.
proof fn lemma_lagrange(b1: real, b2: real, b3: real, x1: real, x2: real, x3: real)
    ensures
        ({
            let (c1, c2, c3) = (b2 * x3 - b3 * x2, b3 * x1 - b1 * x3, b1 * x2 - b2 * x1);
            let bx = b1 * x1 + b2 * x2 + b3 * x3;
            c1 * c1 + c2 * c2 + c3 * c3 + bx * bx == (b1 * b1 + b2 * b2 + b3 * b3) * (x1 * x1 + x2 * x2 + x3 * x3)
        }),
{
    lemma_cross_square(b2, b3, x2, x3);
    lemma_cross_square(b3, b1, x3, x1);
    lemma_cross_square(b1, b2, x1, x2);
    let (p1, p2, p3) = (b1 * x1, b2 * x2, b3 * x3);
    lemma_square_of_three(p1, p2, p3);
    lemma_four_factors(b1, x1, b1, x1);
    lemma_four_factors(b2, x2, b2, x2);
    lemma_four_factors(b3, x3, b3, x3);
    lemma_three_by_three(b1 * b1, b2 * b2, b3 * b3, x1 * x1, x2 * x2, x3 * x3);
    assert(p3 * p1 == p1 * p3) by (nonlinear_arith);
}

proof fn lemma_three_factors(a: real, b: real, c: real)
    ensures
        a * (b * c) == b * (a * c),
        a * (b * c) == c * (a * b),
{
    assert(a * (b * c) == b * (a * c)) by (nonlinear_arith);
    assert(a * (b * c) == c * (a * b)) by (nonlinear_arith);
}

/// A cross product is at right angles to its factors.
proof fn lemma_cross_angles(b1: real, b2: real, b3: real, x1: real, x2: real, x3: real)
    ensures
        ({
            let (c1, c2, c3) = (b2 * x3 - b3 * x2, b3 * x1 - b1 * x3, b1 * x2 - b2 * x1);
            &&& b1 * c1 + b2 * c2 + b3 * c3 == 0 as real
            &&& x1 * c1 + x2 * c2 + x3 * c3 == 0 as real
        }),
{
    lemma_distribute(b1, b2 * x3, b3 * x2);
    lemma_distribute(b2, b3 * x1, b1 * x3);
    lemma_distribute(b3, b1 * x2, b2 * x1);
    lemma_three_factors(b1, b2, x3);
    lemma_three_factors(b1, b3, x2);
    lemma_three_factors(b2, b3, x1);
    lemma_distribute(x1, b2 * x3, b3 * x2);
    lemma_distribute(x2, b3 * x1, b1 * x3);
    lemma_distribute(x3, b1 * x2, b2 * x1);
    lemma_three_factors(x1, b2, x3);
    lemma_three_factors(x3, b2, x1);
    lemma_three_factors(x1, b3, x2);
    lemma_three_factors(x2, b3, x1);
    lemma_three_factors(x2, b1, x3);
    lemma_three_factors(x3, b1, x2);
    assert(x1 * x3 == x3 * x1 && x1 * x2 == x2 * x1 && x2 * x3 == x3 * x2) by (nonlinear_arith);
}

/// A difference of two products, as one component of a cross product is computed.
proof fn lemma_difference_of_products(a: Double, b: Double, c: Double, e: Double)
    requires
        a.finite() && b.finite() && c.finite() && e.finite(),
        small(value(a) * value(b), 9 as real / 5 as real),
        small(value(c) * value(e), 9 as real / 5 as real),
        small(value(a) * value(b) - value(c) * value(e), 3 as real / 2 as real),
    ensures
        a.times(b).minus(c.times(e)).finite(),
        within(value(a.times(b).minus(c.times(e))), value(a) * value(b) - value(c) * value(e), 3 as real * ulp()),
{
    lemma_times_value(a, b);
    lemma_times_value(c, e);
    lemma_negation_value(c.times(e));
    lemma_plus_value(a.times(b), c.times(e).negation());
}

/// A number whose square is little more than one.
proof fn lemma_root(c: real)
    requires
        10 as real * (c * c) <= 11 as real,
    ensures
        small(c, 3 as real / 2 as real),
{
    assert(c * 0 as real == 0 as real);
    assert(0 as real * 0 as real == 0 as real);
    lemma_legs(c, 0 as real);
}

/// The three components of an exact cross product.
pub open spec fn exact_cross(b: Vector, x: Vector) -> (real, real, real) {
    let (b1, b2, b3) = (value(b.x), value(b.y), value(b.z));
    let (x1, x2, x3) = (value(x.x), value(x.y), value(x.z));
    (b2 * x3 - b3 * x2, b3 * x1 - b1 * x3, b1 * x2 - b2 * x1)
}

/// The length of the exact cross product of two vectors of nearly unit length that
/// are nearly at right angles.
proof fn lemma_cross_length(b: Vector, x: Vector, d: real)
    requires
        0 as real <= d <= 1 as real / 1024 as real,
        within(inner(b, b), 1 as real, 2 as real * d + 9 as real * ulp()),
        within(inner(x, x), 1 as real, 4 as real * d + 42 as real * ulp()),
        within(inner(b, x), 0 as real, d + 18 as real * ulp()),
    ensures
        ({
            let (c1, c2, c3) = exact_cross(b, x);
            &&& within(c1 * c1 + c2 * c2 + c3 * c3, 1 as real, 8 as real * d + 53 as real * ulp())
            &&& small(c1, 3 as real / 2 as real)
            &&& small(c2, 3 as real / 2 as real)
            &&& small(c3, 3 as real / 2 as real)
        }),
{
    let (c1, c2, c3) = exact_cross(b, x);
    lemma_lagrange(value(b.x), value(b.y), value(b.z), value(x.x), value(x.y), value(x.z));
    let (beta, xi, bx) = (inner(b, b) - 1 as real, inner(x, x) - 1 as real, inner(b, x));
    let u = ulp();
    assert((1 as real + beta) * (1 as real + xi) == 1 as real + beta + xi + beta * xi) by (nonlinear_arith);
    let hundredth = 1 as real / 100 as real;
    lemma_small_product(beta, xi, 2 as real * d + 9 as real * u, hundredth);
    lemma_small_product(bx, bx, d + 18 as real * u, hundredth);
    assert((2 as real * d + 9 as real * u) * hundredth <= d + u);
    assert((d + 18 as real * u) * hundredth <= d + u);
    assert(c1 * c1 >= 0 as real && c2 * c2 >= 0 as real && c3 * c3 >= 0 as real) by (nonlinear_arith);
    assert(bx * bx >= 0 as real) by (nonlinear_arith);
    lemma_root(c1);
    lemma_root(c2);
    lemma_root(c3);
}

/// The image's down, as computed, and the exact cross product.
proof fn lemma_down(b: Vector, x: Vector)
    requires
        is_finite(b) && all_small(b, 1 as real + ulp()),
        is_finite(x) && all_small(x, 3 as real / 2 as real + 4 as real * ulp()),
        small(exact_cross(b, x).0, 3 as real / 2 as real),
        small(exact_cross(b, x).1, 3 as real / 2 as real),
        small(exact_cross(b, x).2, 3 as real / 2 as real),
    ensures
        ({
            let (c1, c2, c3) = exact_cross(b, x);
            let y = b.crossed(x);
            &&& is_finite(y)
            &&& within(value(y.x), c1, 3 as real * ulp())
            &&& within(value(y.y), c2, 3 as real * ulp())
            &&& within(value(y.z), c3, 3 as real * ulp())
        }),
{
    let (b1, b2, b3) = (value(b.x), value(b.y), value(b.z));
    let (x1, x2, x3) = (value(x.x), value(x.y), value(x.z));
    let mb = 11 as real / 10 as real;
    let mx = 8 as real / 5 as real;
    assert(mb * mx <= 9 as real / 5 as real) by (nonlinear_arith)
        requires
            mb == 11 as real / 10 as real,
            mx == 8 as real / 5 as real,
    ;
    lemma_small_product(b2, x3, mb, mx);
    lemma_small_product(b3, x2, mb, mx);
    lemma_small_product(b3, x1, mb, mx);
    lemma_small_product(b1, x3, mb, mx);
    lemma_small_product(b1, x2, mb, mx);
    lemma_small_product(b2, x1, mb, mx);
    lemma_difference_of_products(b.y, x.z, b.z, x.y);
    lemma_difference_of_products(b.z, x.x, b.x, x.z);
    lemma_difference_of_products(b.x, x.y, b.y, x.x);
}

/// The determinant of a matrix: the volume that its rows span, with a sign.
pub open spec fn volume(m: Matrix) -> real {
    let (a1, a2, a3) = (value(m.row0.x), value(m.row0.y), value(m.row0.z));
    let (b1, b2, b3) = (value(m.row1.x), value(m.row1.y), value(m.row1.z));
    let (c1, c2, c3) = (value(m.row2.x), value(m.row2.y), value(m.row2.z));
    a1 * (b2 * c3 - b3 * c2) - a2 * (b1 * c3 - b3 * c1) + a3 * (b1 * c2 - b2 * c1)
}

/// The volume is the middle row's part along the cross product of the others.
proof fn lemma_volume(x1: real, x2: real, x3: real, y1: real, y2: real, y3: real, b1: real, b2: real, b3: real)
    ensures
        x1 * (y2 * b3 - y3 * b2) - x2 * (y1 * b3 - y3 * b1) + x3 * (y1 * b2 - y2 * b1) == y1 * (b2 * x3 - b3 * x2) + y2
            * (b3 * x1 - b1 * x3) + y3 * (b1 * x2 - b2 * x1),
{
    lemma_distribute(x1, y2 * b3, y3 * b2);
    lemma_distribute(x2, y1 * b3, y3 * b1);
    lemma_distribute(x3, y1 * b2, y2 * b1);
    lemma_distribute(y1, b2 * x3, b3 * x2);
    lemma_distribute(y2, b3 * x1, b1 * x3);
    lemma_distribute(y3, b1 * x2, b2 * x1);
    lemma_three_factors(x1, y2, b3);
    lemma_three_factors(x1, y3, b2);
    lemma_three_factors(x2, y1, b3);
    lemma_three_factors(x2, y3, b1);
    lemma_three_factors(x3, y1, b2);
    lemma_three_factors(x3, y2, b1);
    assert(b2 * x3 == x3 * b2 && b3 * x2 == x2 * b3 && b3 * x1 == x1 * b3) by (nonlinear_arith);
    assert(b1 * x3 == x3 * b1 && b1 * x2 == x2 * b1 && b2 * x1 == x1 * b2) by (nonlinear_arith);
}

/// How far off a rotation the axes of an attitude may be, when the sines and cosines
/// they are made of are `d` off the unit circle.
pub open spec fn axes_error(d: real) -> real {
    8 as real * d + 100 as real * ulp()
}

/// The axes of an attitude are a proper rotation, but for rounding: the rows are of
/// unit length and at right angles, and the determinant is one, so that the sky is
/// not mirrored.
pub proof fn law_camera_axes_are_a_rotation(ra: SinCos, dec: SinCos, theta: SinCos, m: Matrix, d: real)
    requires
        0 as real <= d <= 1 as real / 1024 as real,
        on_circle(ra, d),
        on_circle(dec, d),
        on_circle(theta, d),
        m.row2 == boresight_of(ra, dec),
        m.row0 == right_of(ra, dec, theta),
        m.row1 == m.row2.crossed(m.row0),
    ensures
        within(inner(m.row0, m.row0), 1 as real, axes_error(d)),
        within(inner(m.row1, m.row1), 1 as real, axes_error(d)),
        within(inner(m.row2, m.row2), 1 as real, axes_error(d)),
        within(inner(m.row0, m.row1), 0 as real, axes_error(d)),
        within(inner(m.row1, m.row2), 0 as real, axes_error(d)),
        within(inner(m.row2, m.row0), 0 as real, axes_error(d)),
        within(volume(m), 1 as real, axes_error(d)),
{
    let (b, x, y) = (m.row2, m.row0, m.row1);
    let u = ulp();
    lemma_boresight_and_right(ra, dec, theta, d);
    lemma_cross_length(b, x, d);
    lemma_down(b, x);
    let (c1, c2, c3) = exact_cross(b, x);
    let (b1, b2, b3) = (value(b.x), value(b.y), value(b.z));
    let (x1, x2, x3) = (value(x.x), value(x.y), value(x.z));
    let (y1, y2, y3) = (value(y.x), value(y.y), value(y.z));
    let e = 3 as real * u;
    let h = 3 as real / 2 as real;
    lemma_cross_angles(b1, b2, b3, x1, x2, x3);
    lemma_inner_off(y, c1, c2, c3, y, c1, c2, c3, e, e, h, 2 as real);
    lemma_inner_off(b, b1, b2, b3, y, c1, c2, c3, 0 as real, e, 2 as real, 2 as real);
    lemma_inner_off(x, x1, x2, x3, y, c1, c2, c3, 0 as real, e, 2 as real, 2 as real);
    lemma_product_off(y1, c1, c1, c1, e, 0 as real, h, h);
    lemma_product_off(y2, c2, c2, c2, e, 0 as real, h, h);
    lemma_product_off(y3, c3, c3, c3, e, 0 as real, h, h);
    lemma_volume(x1, x2, x3, y1, y2, y3, b1, b2, b3);
    lemma_inner_commutes(y, b);
    lemma_inner_commutes(b, x);
}

proof fn lemma_inner_commutes(a: Vector, b: Vector)
    ensures
        inner(a, b) == inner(b, a),
{
    let (a1, a2, a3) = (value(a.x), value(a.y), value(a.z));
    let (b1, b2, b3) = (value(b.x), value(b.y), value(b.z));
    assert(a1 * b1 == b1 * a1 && a2 * b2 == b2 * a2 && a3 * b3 == b3 * a3) by (nonlinear_arith);
}

/// How far the image's right reaches east and north, without rounding.
proof fn lemma_ideal_theta(cr: real, sr: real, cd: real, sd: real, ct: real, st: real, d: real)
    requires
        small(ct, 1 as real) && small(st, 1 as real) && small(sd, 1 as real),
        within(sr * sr + cr * cr, 1 as real, d),
        within(sd * sd + cd * cd, 1 as real, d),
    ensures
        ({
            let j1 = -(ct * sr) - (st * sd) * cr;
            let j2 = ct * cr - (st * sd) * sr;
            let j3 = st * cd;
            &&& within(j1 * -sr + j2 * cr + j3 * 0 as real, ct, d)
            &&& within(j1 * (-sd * cr) + j2 * (-sd * sr) + j3 * cd, st, 2 as real * d)
        }),
{
    let k = st * sd;
    let (a, b, e, f) = (ct * sr, k * cr, ct * cr, k * sr);
    let (j1, j2, j3) = (-a - b, e - f, st * cd);
    let (sr2, cr2, sd2, cd2) = (sr * sr, cr * cr, sd * sd, cd * cd);
    let r = sr2 + cr2 - 1 as real;
    let v = sd2 + cd2 - 1 as real;
    // Along east.
    assert(j1 * -sr == a * sr + b * sr) by (nonlinear_arith)
        requires
            j1 == -a - b,
    ;
    assert(j2 * cr == e * cr - f * cr) by (nonlinear_arith)
        requires
            j2 == e - f,
    ;
    assert(a * sr == ct * sr2) by (nonlinear_arith)
        requires
            a == ct * sr,
            sr2 == sr * sr,
    ;
    assert(e * cr == ct * cr2) by (nonlinear_arith)
        requires
            e == ct * cr,
            cr2 == cr * cr,
    ;
    assert(b * sr == f * cr) by (nonlinear_arith)
        requires
            b == k * cr,
            f == k * sr,
    ;
    lemma_distribute(ct, sr2, cr2);
    lemma_distribute(ct, sr2 + cr2, 1 as real);
    lemma_small_product(ct, r, 1 as real, d);
    assert(ct * 1 as real == ct);
    assert(j3 * 0 as real == 0 as real);
    assert(1 as real * d == d);
    // Along north.
    let (g, h) = (sd * cr, sd * sr);
    assert(-sd * cr == -g && -sd * sr == -h) by (nonlinear_arith)
        requires
            g == sd * cr,
            h == sd * sr,
    ;
    assert(j1 * -g == a * g + b * g) by (nonlinear_arith)
        requires
            j1 == -a - b,
    ;
    assert(j2 * -h == f * h - e * h) by (nonlinear_arith)
        requires
            j2 == e - f,
    ;
    lemma_four_factors(ct, sr, sd, cr);
    lemma_four_factors(ct, cr, sd, sr);
    assert(sr * cr == cr * sr) by (nonlinear_arith);
    lemma_four_factors(k, cr, sd, cr);
    lemma_four_factors(k, sr, sd, sr);
    let w = k * sd;
    lemma_distribute(w, sr2, cr2);
    lemma_distribute(w, sr2 + cr2, 1 as real);
    assert(w * 1 as real == w);
    assert(w == st * sd2) by (nonlinear_arith)
        requires
            w == k * sd,
            k == st * sd,
            sd2 == sd * sd,
    ;
    assert(j3 * cd == st * cd2) by (nonlinear_arith)
        requires
            j3 == st * cd,
            cd2 == cd * cd,
    ;
    lemma_distribute(st, sd2, cd2);
    lemma_distribute(st, sd2 + cd2, 1 as real);
    assert(st * 1 as real == st);
    lemma_small_product(st, v, 1 as real, d);
    lemma_small_product(st, sd, 1 as real, 1 as real);
    lemma_small_product(k, sd, 1 as real, 1 as real);
    lemma_small_product(w, r, 1 as real, d);
}

/// The roll of an attitude can be read off its axes: the image's right reaches east
/// by the cosine of `theta`, and north by its sine.
pub proof fn law_right_lies_at_theta(ra: SinCos, dec: SinCos, theta: SinCos, d: real)
    requires
        0 as real <= d <= 1 as real / 1024 as real,
        on_circle(ra, d),
        on_circle(dec, d),
        on_circle(theta, d),
    ensures
        within(inner(right_of(ra, dec, theta), east_of(ra)), value(theta.cos), axes_error(d)),
        within(inner(right_of(ra, dec, theta), north_of(ra, dec)), value(theta.sin), axes_error(d)),
{
    let (cr, sr, cd, sd) = (value(ra.cos), value(ra.sin), value(dec.cos), value(dec.sin));
    let (ct, st) = (value(theta.cos), value(theta.sin));
    let x = right_of(ra, dec, theta);
    let e = east_of(ra);
    let n = north_of(ra, dec);
    let u = ulp();
    lemma_directions(ra, dec);
    lemma_blend(theta.cos, theta.sin, e.x, n.x, -sd * cr);
    lemma_blend(theta.cos, theta.sin, e.y, n.y, -sd * sr);
    lemma_blend(theta.cos, theta.sin, e.z, n.z, cd);
    let k = st * sd;
    let (j1, j2, j3) = (-(ct * sr) - k * cr, ct * cr - k * sr, st * cd);
    assert(ct * (-sr) == -(ct * sr)) by (nonlinear_arith);
    assert(st * (-sd * cr) == -(k * cr)) by (nonlinear_arith)
        requires
            k == st * sd,
    ;
    assert(st * (-sd * sr) == -(k * sr)) by (nonlinear_arith)
        requires
            k == st * sd,
    ;
    assert(ct * 0 as real == 0 as real);
    lemma_ideal_theta(cr, sr, cd, sd, ct, st, d);
    let h = 3 as real / 2 as real;
    lemma_inner_off(x, j1, j2, j3, e, -sr, cr, 0 as real, 4 as real * u, 0 as real, h, 2 as real);
    lemma_inner_off(x, j1, j2, j3, n, -sd * cr, -sd * sr, cd, 4 as real * u, u, h, 2 as real);
}

/// The axes of an attitude point where they should, but for rounding. The boresight lies
/// at the right ascension and the declination. The image's right lies from east toward
/// north by `theta`, where east and north are those of the boresight. The image's down is
/// at right angles to both, the right-handed way.
pub proof fn law_camera_axes_point(ra: SinCos, dec: SinCos, theta: SinCos, m: Matrix, d: real)
    requires
        0 as real <= d <= 1 as real / 1024 as real,
        on_circle(ra, d),
        on_circle(dec, d),
        on_circle(theta, d),
        call_ensures(camera_axes, (ra, dec, theta), m),
    ensures
        ({
            let (cr, sr, cd, sd) = (value(ra.cos), value(ra.sin), value(dec.cos), value(dec.sin));
            let (ct, st) = (value(theta.cos), value(theta.sin));
            let (b1, b2, b3) = (value(m.row2.x), value(m.row2.y), value(m.row2.z));
            let (x1, x2, x3) = (value(m.row0.x), value(m.row0.y), value(m.row0.z));
            let e = 4 as real * ulp();
            &&& within(b1, cd * cr, e) && within(b2, cd * sr, e) && within(b3, sd, e)
            &&& within(x1, ct * (-sr) + st * (-sd * cr), e)
            &&& within(x2, ct * cr + st * (-sd * sr), e)
            &&& within(x3, st * cd, e)
            &&& within(value(m.row1.x), b2 * x3 - b3 * x2, e)
            &&& within(value(m.row1.y), b3 * x1 - b1 * x3, e)
            &&& within(value(m.row1.z), b1 * x2 - b2 * x1, e)
        }),
        within(inner(m.row0, m.row0), 1 as real, axes_error(d)),
        within(inner(m.row1, m.row1), 1 as real, axes_error(d)),
        within(inner(m.row2, m.row2), 1 as real, axes_error(d)),
        within(inner(m.row0, m.row1), 0 as real, axes_error(d)),
        within(inner(m.row1, m.row2), 0 as real, axes_error(d)),
        within(inner(m.row2, m.row0), 0 as real, axes_error(d)),
        within(volume(m), 1 as real, axes_error(d)),
{
    let (cr, sr, cd, sd) = (value(ra.cos), value(ra.sin), value(dec.cos), value(dec.sin));
    let ct = value(theta.cos);
    let e = east_of(ra);
    let n = north_of(ra, dec);
    lemma_directions(ra, dec);
    lemma_blend(theta.cos, theta.sin, e.x, n.x, -sd * cr);
    lemma_blend(theta.cos, theta.sin, e.y, n.y, -sd * sr);
    lemma_blend(theta.cos, theta.sin, e.z, n.z, cd);
    assert(ct * 0 as real == 0 as real);
    lemma_boresight_and_right(ra, dec, theta, d);
    lemma_cross_length(m.row2, m.row0, d);
    lemma_down(m.row2, m.row0);
    law_camera_axes_are_a_rotation(ra, dec, theta, m, d);
}

} // verus!
