//! Degrees, radians and arcseconds.

use vstd::arithmetic::power2::{lemma2_to64, lemma2_to64_rest, lemma_pow2_adds, lemma_pow2_pos, lemma_pow2_strictly_increases, pow2};
use vstd::prelude::*;

use crate::arithmetic::{
    apart, integer, lemma_double_of, lemma_double_of_exact, lemma_finite_is_double, lemma_integer, lemma_size,
};
use crate::number::{lemma_magnitude_increases, magnitude_units, one, Double, Single, INFINITE, LEADING, SINGLE_SIGN};
use crate::rounding::{
    distance, law_rounding_is_nearest, lemma_nearest_exact, lemma_nearest_is_double, lemma_nearest_scales,
    nearest_units,
};
use crate::seeds::lemma_relative_error;
use crate::single::{
    law_narrow_is_nearest, lemma_single_level_bounds, single_bits, single_level, single_units, SINGLE_INFINITE,
    SINGLE_LEADING,
};

verus! {

/// The double nearest to 180 / pi.
pub const DEGREES_PER_RADIAN: u64 = 0x404c_a5dc_1a63_c1f8;

/// The double nearest to pi / 180.
pub const RADIANS_PER_DEGREE: u64 = 0x3f91_df46_a252_9d39;

/// The single nearest to 180 / pi.
pub const SINGLE_DEGREES_PER_RADIAN: u32 = 0x4265_2ee1;

/// The single nearest to pi / 180.
pub const SINGLE_RADIANS_PER_DEGREE: u32 = 0x3c8e_fa35;

impl Double {
    /// Radians in degrees.
    pub open spec fn degrees(self) -> Double {
        self.times(Double { bits: DEGREES_PER_RADIAN })
    }

    /// Degrees in radians.
    pub open spec fn radians(self) -> Double {
        self.times(Double { bits: RADIANS_PER_DEGREE })
    }

    pub fn to_degrees(&self) -> (r: Double)
        ensures
            r == self.degrees(),
    {
        self.mul(Double { bits: DEGREES_PER_RADIAN })
    }

    pub fn to_radians(&self) -> (r: Double)
        ensures
            r == self.radians(),
    {
        self.mul(Double { bits: RADIANS_PER_DEGREE })
    }
}

impl Single {
    /// The product of two singles. In double precision it is exact, so that it is
    /// rounded once.
    pub open spec fn product(self, other: Single) -> Single {
        self.widened().times(other.widened()).narrowed()
    }

    /// Radians in degrees, in single precision.
    pub open spec fn degrees(self) -> Single {
        self.product(Single { bits: SINGLE_DEGREES_PER_RADIAN })
    }

    /// Degrees in radians, in single precision.
    pub open spec fn radians(self) -> Single {
        self.product(Single { bits: SINGLE_RADIANS_PER_DEGREE })
    }

    pub fn mul(&self, other: Single) -> (r: Single)
        ensures
            r == self.product(other),
    {
        self.widen().mul(other.widen()).narrow()
    }

    pub fn to_degrees(&self) -> (r: Single)
        ensures
            r == self.degrees(),
    {
        self.mul(Single { bits: SINGLE_DEGREES_PER_RADIAN })
    }

    pub fn to_radians(&self) -> (r: Single)
        ensures
            r == self.radians(),
    {
        self.mul(Single { bits: SINGLE_RADIANS_PER_DEGREE })
    }
}

/// Radians in arcseconds.
pub open spec fn arcseconds(rad: Single) -> Double {
    rad.widened().degrees().times(integer(3600))
}

/// Radians to arcseconds.
pub fn rad_to_arcsec(rad: Single) -> (r: Double)
    ensures
        r == arcseconds(rad),
{
    rad.widen().to_degrees().mul(Double::from_u64(3600))
}

/// A finite single is a double of the same value, with a significand of 24 bits.
proof fn lemma_widened(s: Single) -> (parts: (int, nat))
    requires
        s.magnitude_bits() < SINGLE_INFINITE,
    ensures
        0 <= parts.0 < 0x100_0000,
        parts.1 <= 253,
        s.widened().finite(),
        s.widened().negative() == (s.bits >= SINGLE_SIGN),
        s.widened().size() == parts.0 * pow2((parts.1 + 925) as nat),
        s.widened().size() == single_units(s.magnitude_bits()) * pow2(925),
{
    let low = s.magnitude_bits();
    let lead = SINGLE_LEADING as int;
    let exponent = low / lead;
    let m = if exponent == 0 {
        low
    } else {
        lead + low % lead
    };
    let x = (if exponent == 0 {
        0
    } else {
        exponent - 1
    }) as nat;
    lemma2_to64();
    lemma2_to64_rest();
    let p = pow2(x) as int;
    let d = pow2(925) as int;
    let g = pow2((x + 925) as nat) as int;
    lemma_pow2_adds(x, 925);
    lemma_pow2_pos((x + 925) as nat);
    assert(single_units(low) * d == m * g) by (nonlinear_arith)
        requires
            single_units(low) == (if exponent == 0 { m } else { m * p }),
            exponent == 0 ==> p == 1,
            g == p * d,
    ;
    let negative = s.bits >= SINGLE_SIGN;
    assert(m * g >= 0) by (nonlinear_arith)
        requires
            m >= 0,
            g > 0,
    ;
    lemma_nearest_exact(m, (x + 925) as nat);
    lemma_nearest_is_double(m * g, 1);
    lemma_double_of(negative, m * g);
    lemma_double_of_exact(negative, m * g);
    assert(m * g < magnitude_units(INFINITE as int)) by {
        assert(INFINITE as int / LEADING as int == 2047 && INFINITE as int % LEADING as int == 0);
        lemma_pow2_strictly_increases((x + 925) as nat, 2046);
        let h = pow2(2046) as int;
        assert(m * g < LEADING as int * h) by (nonlinear_arith)
            requires
                0 <= m < LEADING as int,
                0 < g < h,
        ;
    }
    (m, x)
}

/// The product of two singles is exact in double precision, so that `product` rounds
/// it once.
pub proof fn law_single_product_rounds_once(a: Single, b: Single)
    requires
        a.magnitude_bits() < SINGLE_INFINITE,
        b.magnitude_bits() < SINGLE_INFINITE,
    ensures
        ({
            let r = a.widened().times(b.widened());
            &&& r.finite()
            &&& r.units() * one() == a.widened().units() * b.widened().units()
        }),
{
    reveal(Double::times);
    let (x, y) = (a.widened(), b.widened());
    let (m1, k1) = lemma_widened(a);
    let (m2, k2) = lemma_widened(b);
    lemma_size(x);
    lemma_size(y);
    let (p1, p2) = (pow2((k1 + 925) as nat) as int, pow2((k2 + 925) as nat) as int);
    let k = (k1 + k2 + 776) as nat;
    let (m, p) = (m1 * m2, pow2(k) as int);
    lemma_pow2_adds((k1 + 925) as nat, (k2 + 925) as nat);
    lemma_pow2_adds(k, 1074);
    lemma_pow2_pos(k);
    lemma_pow2_pos(1074);
    let num = x.size() * y.size();
    let o = one();
    assert(0 <= m < 0x1_0000_0000_0000) by (nonlinear_arith)
        requires
            m == m1 * m2,
            0 <= m1 < 0x100_0000,
            0 <= m2 < 0x100_0000,
    ;
    assert(num == (m * p) * o) by (nonlinear_arith)
        requires
            num == (m1 * p1) * (m2 * p2),
            m == m1 * m2,
            p1 * p2 == p * o,
    ;
    let u = m * p;
    assert(u >= 0) by (nonlinear_arith)
        requires
            u == m * p,
            m >= 0,
            p > 0,
    ;
    assert(1 * o == o);
    lemma_nearest_scales(u, 1, o);
    lemma_nearest_exact(m, k);
    lemma_nearest_is_double(u, 1);
    let negative = x.negative() != y.negative();
    lemma_double_of(negative, u);
    lemma_double_of_exact(negative, u);
    assert(u < magnitude_units(INFINITE as int)) by {
        assert(INFINITE as int / LEADING as int == 2047 && INFINITE as int % LEADING as int == 0);
        lemma_pow2_strictly_increases(k, 2046);
        let h = pow2(2046) as int;
        assert(m * p < LEADING as int * h) by (nonlinear_arith)
            requires
                0 <= m < LEADING as int,
                0 < p < h,
        ;
    }
    let r = x.times(y);
    lemma_size(r);
    assert(x.units() * y.units() == (if negative { -num } else { num })) by (nonlinear_arith)
        requires
            num == x.size() * y.size(),
            x.units() == (if x.negative() { -x.size() } else { x.size() }),
            y.units() == (if y.negative() { -y.size() } else { y.size() }),
            negative == (x.negative() != y.negative()),
    ;
    assert((-u) * o == -(u * o)) by (nonlinear_arith);
}

/// Widening loses nothing: the number and its sign stay, and so does what is infinite
/// or not a number.
pub proof fn law_widening_is_exact(s: Single, r: Double)
    requires
        call_ensures(Single::widen, (&s,), r),
    ensures
        s.magnitude_bits() < SINGLE_INFINITE ==> r.finite() && r.size() == single_units(s.magnitude_bits()) * pow2(925)
            && r.negative() == (s.bits >= SINGLE_SIGN),
        s.magnitude_bits() == SINGLE_INFINITE ==> r.infinite() && r.negative() == (s.bits >= SINGLE_SIGN),
        s.magnitude_bits() > SINGLE_INFINITE ==> r.nan(),
{
    if s.magnitude_bits() < SINGLE_INFINITE {
        let _parts = lemma_widened(s);
    }
}

/// Narrowing keeps the sign, what is infinite, and what is not a number.
pub proof fn law_narrowing_keeps_the_kind(x: Double, r: Single)
    requires
        call_ensures(Double::narrow, (&x,), r),
    ensures
        x.nan() ==> r.magnitude_bits() > SINGLE_INFINITE,
        x.infinite() ==> r.magnitude_bits() == SINGLE_INFINITE,
        !x.nan() ==> (r.bits >= SINGLE_SIGN) == x.negative() && r.magnitude_bits() <= SINGLE_INFINITE,
{
    lemma_narrow_kind(x);
}

proof fn lemma_narrow_kind(x: Double)
    ensures
        !x.nan() ==> (x.narrowed().bits >= SINGLE_SIGN) == x.negative() && x.narrowed().magnitude_bits()
            <= SINGLE_INFINITE,
{
    if x.finite() {
        let u = x.size();
        lemma_size(x);
        lemma_pow2_pos(925);
        let k = single_level(u / pow2(925) as int);
        lemma_pow2_pos((925 + k) as nat);
        vstd::arithmetic::div_mod::lemma_div_pos_is_pos(u, pow2((925 + k) as nat) as int);
        assert(k * SINGLE_LEADING >= 0) by (nonlinear_arith);
        assert(0 <= single_bits(u) <= SINGLE_INFINITE);
    }
}

/// How far a product is off, when both factors are finite: one part in 2^53, and a unit.
proof fn lemma_product_error(x: Double, c: Double)
    requires
        x.finite(),
        c.finite(),
        x.times(c).finite(),
    ensures
        0x20_0000_0000_0000 * apart(x.times(c).units() * one(), x.units() * c.units()) <= x.size() * c.size()
            + 0x20_0000_0000_0000 * one(),
        x.size() * c.size() >= 0,
{
    reveal(Double::times);
    let o = one();
    let num = x.size() * c.size();
    let negative = x.negative() != c.negative();
    let near = nearest_units(num, o);
    let r = x.times(c);
    lemma_size(x);
    lemma_size(c);
    lemma_pow2_pos(1074);
    lemma2_to64_rest();
    assert(num >= 0 && x.units() * c.units() == (if negative { -num } else { num })) by (nonlinear_arith)
        requires
            num == x.size() * c.size(),
            x.size() >= 0,
            c.size() >= 0,
            x.units() == (if x.negative() { -x.size() } else { x.size() }),
            c.units() == (if c.negative() { -c.size() } else { c.size() }),
            negative == (x.negative() != c.negative()),
    ;
    lemma_nearest_is_double(num, o);
    lemma_double_of(negative, near);
    lemma_double_of_exact(negative, near);
    lemma_size(r);
    assert((-near) * o == -(near * o)) by (nonlinear_arith);
    let d = distance(num, o, near);
    if LEADING * o <= num {
        lemma_relative_error(num, o);
    } else {
        law_rounding_is_nearest(num, o, near);
        assert(num / o < LEADING) by (nonlinear_arith)
            requires
                num < LEADING * o,
                num >= 0,
                o > 0,
        ;
        lemma2_to64();
        assert(o * 1 == o);
        assert(2 * d <= o);
    }
}

/// A product with a constant is the product with the number that the constant stands
/// for, but for rounding. The constant is off by `e` parts in `s`, and no more than `f`
/// times 2^53 such parts.
proof fn lemma_scaled(x: Double, c: Double, k: int, s: int, e: int, f: int)
    requires
        x.finite(),
        c.finite(),
        !c.negative(),
        x.times(c).finite(),
        0 < s,
        apart(c.size() * s, k * one()) <= e * one(),
        c.size() * s <= (0x20_0000_0000_0000 * f) * one(),
    ensures
        apart(x.times(c).units() * s, x.units() * k) <= (e + f) * x.size() + s,
{
    let o = one();
    let r = x.times(c).units();
    let (u, v, w, z) = (x.units(), c.size(), x.size(), 0x20_0000_0000_0000int);
    lemma_product_error(x, c);
    lemma_pow2_pos(1074);
    lemma_size(x);
    lemma_size(c);
    let p = apart(r * o, u * v);
    assert(z * p <= w * v + z * o);
    // p * s <= (f * w + s) * o
    assert(p * s <= (f * w + s) * o) by (nonlinear_arith)
        requires
            z * p <= w * v + z * o,
            v * s <= (z * f) * o,
            z == 0x20_0000_0000_0000,
            w >= 0,
            s > 0,
            o > 0,
    {
        assert((z * p) * s <= (w * v + z * o) * s);
        assert((w * v + z * o) * s == w * (v * s) + z * (o * s));
        assert(w * (v * s) <= w * ((z * f) * o));
        assert(w * ((z * f) * o) == z * ((f * w) * o));
        assert((z * p) * s == z * (p * s));
        assert(z * ((f * w) * o) + z * (o * s) == z * ((f * w + s) * o));
    }
    let q = apart(v * s, k * o);
    assert(apart(u * (v * s), u * (k * o)) <= w * (e * o)) by (nonlinear_arith)
        requires
            q == (if v * s <= k * o { k * o - v * s } else { v * s - k * o }),
            q <= e * o,
            w >= 0,
            u == w || u == -w,
            apart(u * (v * s), u * (k * o)) == (if u * (v * s) <= u * (k * o) { u * (k * o) - u * (v * s) } else { u * (v * s) - u * (k * o) }),
    {
        assert(w * q <= w * (e * o));
        assert(u * (v * s) - u * (k * o) == u * (v * s - k * o));
    }
    assert(apart((r * o) * s, (u * v) * s) == p * s) by (nonlinear_arith)
        requires
            p == (if r * o <= u * v { u * v - r * o } else { r * o - u * v }),
            s > 0,
            apart((r * o) * s, (u * v) * s) == (if (r * o) * s <= (u * v) * s { (u * v) * s - (r * o) * s } else { (r * o) * s - (u * v) * s }),
    {
        assert((u * v) * s - (r * o) * s == (u * v - r * o) * s);
    }
    assert((r * o) * s == (r * s) * o && (u * v) * s == u * (v * s) && u * (k * o) == (u * k) * o && w * (e * o) == (e * w) * o)
        by (nonlinear_arith);
    let (g, h) = (r * s, u * k);
    assert(apart(g * o, h * o) <= (f * w + s) * o + (e * w) * o);
    assert(apart(g, h) <= (e + f) * w + s) by (nonlinear_arith)
        requires
            apart(g * o, h * o) <= (f * w + s) * o + (e * w) * o,
            apart(g * o, h * o) == (if g * o <= h * o { h * o - g * o } else { g * o - h * o }),
            apart(g, h) == (if g <= h { h - g } else { g - h }),
            o > 0,
    {
        assert(h * o - g * o == (h - g) * o);
        assert((f * w + s) * o + (e * w) * o == ((e + f) * w + s) * o);
    }
}

/// The constants are what they are taken for: 180 / pi and pi / 180, to half of what
/// lies between two doubles there.
pub proof fn law_constants_are_nearest()
    ensures
        ({
            let c = Double { bits: DEGREES_PER_RADIAN };
            &&& c.finite() && !c.negative()
            &&& apart(c.size() * 1_000_000_000_000_000_000, 57_295_779_513_082_320_877 * one()) <= 3552 * one()
        }),
        ({
            let c = Double { bits: RADIANS_PER_DEGREE };
            &&& c.finite() && !c.negative()
            &&& apart(c.size() * 1_000_000_000_000_000_000_000, 17_453_292_519_943_295_769 * one()) <= 1735 * one()
        }),
{
    let lead = LEADING as int;
    let a = DEGREES_PER_RADIAN as int;
    let b = RADIANS_PER_DEGREE as int;
    lemma2_to64();
    lemma2_to64_rest();
    lemma_pow2_adds(47, 1027);
    lemma_pow2_adds(58, 1016);
    lemma_pow2_pos(1027);
    lemma_pow2_pos(1016);
    assert(a / lead == 1028 && a % lead == 0xc_a5dc_1a63_c1f8);
    assert(b / lead == 1017 && b % lead == 0x1_df46_a252_9d39);
    let g = pow2(1016) as int;
    assert((Double { bits: RADIANS_PER_DEGREE }).size() == 5_030_569_068_109_113 * g);
    assert(one() == 0x400_0000_0000_0000 * g);
}

/// Degrees are degrees: 57.295779513082320877 to a radian, but for rounding.
pub proof fn law_degrees(x: Double, d: Double)
    requires
        call_ensures(Double::to_degrees, (&x,), d),
        x.finite(),
        d.finite(),
    ensures
        apart(d.units() * 1_000_000_000_000_000_000, x.units() * 57_295_779_513_082_320_877) <= 10_000 * x.size()
            + 1_000_000_000_000_000_000,
{
    lemma_degrees(x);
}

proof fn lemma_degrees(x: Double)
    requires
        x.finite(),
        x.degrees().finite(),
    ensures
        apart(x.degrees().units() * 1_000_000_000_000_000_000, x.units() * 57_295_779_513_082_320_877) <= 10_000
            * x.size() + 1_000_000_000_000_000_000,
{
    law_constants_are_nearest();
    lemma_scaled(
        x,
        Double { bits: DEGREES_PER_RADIAN },
        57_295_779_513_082_320_877,
        1_000_000_000_000_000_000,
        3552,
        6400,
    );
    lemma_size(x);
}

/// Radians are radians: 0.017453292519943295769 to a degree, but for rounding.
pub proof fn law_radians(x: Double, r: Double)
    requires
        call_ensures(Double::to_radians, (&x,), r),
        x.finite(),
        r.finite(),
    ensures
        apart(r.units() * 1_000_000_000_000_000_000_000, x.units() * 17_453_292_519_943_295_769) <= 4000 * x.size()
            + 1_000_000_000_000_000_000_000,
{
    law_constants_are_nearest();
    lemma_scaled(
        x,
        Double { bits: RADIANS_PER_DEGREE },
        17_453_292_519_943_295_769,
        1_000_000_000_000_000_000_000,
        1735,
        2000,
    );
    lemma_size(x);
}

/// An angle of at most a turn has radians, and they are what they should be, but for
/// rounding.
pub proof fn lemma_radians_of_a_turn(x: Double)
    requires
        x.finite(),
        x.size() <= 360 * one(),
    ensures
        x.radians().finite(),
        apart(x.radians().units() * 1_000_000_000_000_000_000_000, x.units() * 17_453_292_519_943_295_769) <= 4000
            * x.size() + 1_000_000_000_000_000_000_000,
{
    let c = Double { bits: RADIANS_PER_DEGREE };
    law_constants_are_nearest();
    lemma_size(x);
    lemma_pow2_pos(1074);
    let (num, o) = (x.size() * c.size(), one());
    let negative = x.negative() != c.negative();
    let near = nearest_units(num, o);
    assert(0 <= num <= (360 * o) * o) by (nonlinear_arith)
        requires
            num == x.size() * c.size(),
            0 <= x.size() <= 360 * o,
            0 <= c.size() <= o,
    ;
    reveal(Double::times);
    lemma_integer(360);
    lemma_size(integer(360));
    lemma_finite_is_double(integer(360));
    law_rounding_is_nearest(num, o, integer(360).size());
    lemma_nearest_is_double(num, o);
    lemma_double_of(negative, near);
    lemma_double_of_exact(negative, near);
    lemma_magnitude_increases(integer(360).magnitude_bits(), INFINITE as int);
    lemma_scaled(
        x,
        c,
        17_453_292_519_943_295_769,
        1_000_000_000_000_000_000_000,
        1735,
        2000,
    );
}

/// How far narrowing carries a number that stays finite: one part in 2^24, and what
/// lies between the smallest singles. The sign stays.
proof fn lemma_narrow_error(x: Double)
    requires
        x.finite(),
        x.narrowed().magnitude_bits() < SINGLE_INFINITE,
    ensures
        ({
            let r = x.narrowed().widened();
            &&& r.finite()
            &&& 0x100_0000 * apart(r.units(), x.units()) <= x.size() + 0x100_0000 * pow2(925)
        }),
{
    let s = x.narrowed();
    let r = s.widened();
    let u = x.size();
    let v = r.size();
    let d = pow2(925) as int;
    let n = u / d;
    let k = single_level(n);
    let gap = pow2((925 + k) as nat) as int;
    law_narrow_is_nearest(x);
    lemma_narrow_kind(x);
    let _parts = lemma_widened(s);
    lemma_size(x);
    lemma_size(r);
    lemma_pow2_pos(925);
    vstd::arithmetic::div_mod::lemma_div_pos_is_pos(u, d);
    vstd::arithmetic::div_mod::lemma_fundamental_div_mod(u, d);
    lemma_single_level_bounds(n);
    lemma2_to64();
    lemma_pow2_adds(k, 925);
    lemma_pow2_adds(23, k);
    if k > 0 {
        let p = pow2(k) as int;
        assert(0x80_0000 * gap <= u) by (nonlinear_arith)
            requires
                gap == p * d,
                0x80_0000 * p <= n,
                u == d * n + u % d,
                u % d >= 0,
                d > 0,
        ;
    }
}

/// A product of singles with a constant is the product with the number that the
/// constant stands for, but for rounding.
proof fn lemma_single_scaled(a: Single, c: Single, k: int, s: int, e: int, f: int)
    requires
        a.magnitude_bits() < SINGLE_INFINITE,
        c.bits < SINGLE_INFINITE,
        a.product(c).magnitude_bits() < SINGLE_INFINITE,
        0 < s,
        apart(c.widened().size() * s, k * one()) <= e * one(),
        c.widened().size() * s <= (0x100_0000 * f) * one(),
    ensures
        apart(a.product(c).widened().units() * s, a.widened().units() * k) <= (e + f) * a.widened().size() + s * pow2(
            925,
        ),
{
    let (x, y) = (a.widened(), c.widened());
    let p = x.times(y);
    let r = a.product(c).widened().units();
    law_single_product_rounds_once(a, c);
    let _pa = lemma_widened(a);
    let _pc = lemma_widened(c);
    lemma_narrow_error(p);
    lemma_size(x);
    lemma_size(y);
    lemma_size(p);
    lemma_pow2_pos(1074);
    let (o, z, t) = (one(), 0x100_0000int, pow2(925) as int);
    let (u, w, v, q, h) = (x.units(), x.size(), y.size(), p.units(), p.size());
    assert(q * o == u * v);
    assert(h * o == w * v) by (nonlinear_arith)
        requires
            q * o == u * v,
            h == q || h == -q,
            w == u || w == -u,
            h >= 0,
            w >= 0,
            v >= 0,
            o > 0,
    ;
    // What the constant is off.
    let off = v * s - k * o;
    let b = e * o;
    assert((q * s - u * k) * o == u * off) by (nonlinear_arith)
        requires
            q * o == u * v,
            off == v * s - k * o,
    ;
    assert(-(w * b) <= u * off <= w * b) by (nonlinear_arith)
        requires
            -b <= off <= b,
            u == w || u == -w,
            w >= 0,
    ;
    assert(w * b == (e * w) * o) by (nonlinear_arith)
        requires
            b == e * o,
    ;
    let (m, n) = (q * s - u * k, e * w);
    assert(-n <= m <= n) by (nonlinear_arith)
        requires
            -(n * o) <= m * o <= n * o,
            o > 0,
    ;
    // What the rounding is off.
    assert(h * s <= (z * f) * w) by (nonlinear_arith)
        requires
            h * o == w * v,
            v * s <= (z * f) * o,
            w >= 0,
            o > 0,
    {
        assert((h * s) * o == w * (v * s));
        assert(w * (v * s) <= w * ((z * f) * o));
        assert(w * ((z * f) * o) == ((z * f) * w) * o);
    }
    let g = apart(r, q);
    assert(g * s <= f * w + s * t) by (nonlinear_arith)
        requires
            z * g <= h + z * t,
            h * s <= (z * f) * w,
            z == 0x100_0000,
            s > 0,
    {
        assert((z * g) * s <= (h + z * t) * s);
        assert((h + z * t) * s == h * s + z * (s * t));
        assert((z * g) * s == z * (g * s));
        assert((z * f) * w == z * (f * w));
    }
    assert(apart(r * s, q * s) == g * s) by (nonlinear_arith)
        requires
            g == (if r <= q { q - r } else { r - q }),
            apart(r * s, q * s) == (if r * s <= q * s { q * s - r * s } else { r * s - q * s }),
            s > 0,
    {
        assert((q - r) * s == q * s - r * s);
    }
    assert((e + f) * w == e * w + f * w) by (nonlinear_arith);
}

proof fn lemma_single_constants()
    ensures
        ({
            let c = (Single { bits: SINGLE_DEGREES_PER_RADIAN }).widened();
            apart(c.size() * 1_000_000_000_000_000, 57_295_779_513_082_321 * one()) <= 668_802_445 * one()
        }),
        ({
            let c = (Single { bits: SINGLE_RADIANS_PER_DEGREE }).widened();
            apart(c.size() * 1_000_000_000_000_000, 17_453_292_519_943 * one()) <= 135_200 * one()
        }),
{
    let lead = SINGLE_LEADING as int;
    let a = SINGLE_DEGREES_PER_RADIAN as int;
    let b = SINGLE_RADIANS_PER_DEGREE as int;
    let _pa = lemma_widened(Single { bits: SINGLE_DEGREES_PER_RADIAN });
    let _pb = lemma_widened(Single { bits: SINGLE_RADIANS_PER_DEGREE });
    lemma2_to64();
    lemma2_to64_rest();
    lemma_pow2_adds(131, 925);
    lemma_pow2_adds(18, 1056);
    lemma_pow2_adds(120, 925);
    lemma_pow2_adds(29, 1045);
    assert(a / lead == 132 && a % lead == 6_631_137);
    assert(b / lead == 121 && b % lead == 981_557);
    let (g, h) = (pow2(1056) as int, pow2(1045) as int);
    assert((15_019_745 * pow2(131)) * pow2(925) == 15_019_745 * g) by (nonlinear_arith)
        requires
            g == pow2(131) * pow2(925),
    ;
    assert((9_370_165 * pow2(120)) * pow2(925) == 9_370_165 * h) by (nonlinear_arith)
        requires
            h == pow2(120) * pow2(925),
    ;
    lemma_pow2_pos(1056);
    lemma_pow2_pos(1045);
}

/// Degrees in single precision: 57.295779513082321 to a radian, but for rounding.
pub proof fn law_single_degrees(a: Single, d: Single)
    requires
        call_ensures(Single::to_degrees, (&a,), d),
        a.magnitude_bits() < SINGLE_INFINITE,
        d.magnitude_bits() < SINGLE_INFINITE,
    ensures
        apart(d.widened().units() * 1_000_000_000_000_000, a.widened().units() * 57_295_779_513_082_321)
            <= 4_200_000_000 * a.widened().size() + 1_000_000_000_000_000 * pow2(925),
{
    lemma_single_constants();
    lemma_size(a.widened());
    lemma_single_scaled(
        a,
        Single { bits: SINGLE_DEGREES_PER_RADIAN },
        57_295_779_513_082_321,
        1_000_000_000_000_000,
        668_802_445,
        3_500_000_000,
    );
}

/// Radians in single precision: 0.017453292519943 to a degree, but for rounding.
pub proof fn law_single_radians(a: Single, r: Single)
    requires
        call_ensures(Single::to_radians, (&a,), r),
        a.magnitude_bits() < SINGLE_INFINITE,
        r.magnitude_bits() < SINGLE_INFINITE,
    ensures
        apart(r.widened().units() * 1_000_000_000_000_000, a.widened().units() * 17_453_292_519_943) <= 2_000_000
            * a.widened().size() + 1_000_000_000_000_000 * pow2(925),
{
    lemma_single_constants();
    lemma_size(a.widened());
    lemma_single_scaled(
        a,
        Single { bits: SINGLE_RADIANS_PER_DEGREE },
        17_453_292_519_943,
        1_000_000_000_000_000,
        135_200,
        1_100_000,
    );
}

/// Arcseconds are arcseconds: 206264.8062470963551572 to a radian, but for rounding.
pub proof fn law_arcseconds(rad: Single, r: Double)
    requires
        call_ensures(rad_to_arcsec, (rad,), r),
        rad.magnitude_bits() < SINGLE_INFINITE,
    ensures
        r.finite() ==> apart(
            r.units() * 1_000_000_000_000_000_000,
            rad.widened().units() * 206_264_806_247_096_355_157_200,
        ) <= 60_000_000 * rad.widened().size() + 4_000_000_000_000_000_000_000,
{
    let x = rad.widened();
    let d = x.degrees();
    let k = integer(3600);
    let _parts = lemma_widened(rad);
    lemma_integer(3600);
    lemma_size(k);
    lemma_size(x);
    lemma_pow2_pos(1074);
    if r.finite() {
        assert(d.finite()) by {
            reveal(Double::times);
        }
        lemma_size(d);
        lemma_degrees(x);
        lemma_product_error(d, k);
        let (o, z) = (one(), 0x20_0000_0000_0000int);
        let (p, q, w) = (r.units(), d.units(), d.size());
        assert(q * (3600 * o) == (3600 * q) * o && w * (3600 * o) == (3600 * w) * o) by (nonlinear_arith);
        assert(z * apart(p, 3600 * q) <= 3600 * w + z) by (nonlinear_arith)
            requires
                z * apart(p * o, (3600 * q) * o) <= (3600 * w) * o + z * o,
                apart(p * o, (3600 * q) * o) == (if p * o <= (3600 * q) * o { (3600 * q) * o - p * o } else { p * o - (3600 * q) * o }),
                apart(p, 3600 * q) == (if p <= 3600 * q { 3600 * q - p } else { p - 3600 * q }),
                z == 0x20_0000_0000_0000,
                o > 0,
        {
            let g = apart(p, 3600 * q);
            assert(((3600 * q) - p) * o == (3600 * q) * o - p * o);
            assert((z * g) * o == z * (g * o));
            assert((3600 * w + z) * o == (3600 * w) * o + z * o);
        }
    }
}

/// Degrees and radians are products with a constant, whatever the number: 180 / pi and
/// pi / 180, to the nearest double.
pub proof fn law_angles_are_products(x: Double, c: Double, k: Double, p: Double, q: Double, d: Double, r: Double)
    requires
        c.bits == 0x404c_a5dc_1a63_c1f8,
        k.bits == 0x3f91_df46_a252_9d39,
        call_ensures(Double::mul, (&x, c), p),
        call_ensures(Double::mul, (&x, k), q),
        call_ensures(Double::to_degrees, (&x,), d),
        call_ensures(Double::to_radians, (&x,), r),
    ensures
        d == p,
        r == q,
{
}

/// The same of singles: the nearest singles to the constants are the factors. A product of
/// singles is that of the doubles they widen to, narrowed.
pub proof fn law_single_angles_are_products(
    x: Single,
    c: Single,
    k: Single,
    p: Single,
    q: Single,
    d: Single,
    r: Single,
    wide: Double,
    wide_c: Double,
    product: Double,
    narrow: Single,
)
    requires
        c.bits == 0x4265_2ee1,
        k.bits == 0x3c8e_fa35,
        call_ensures(Single::mul, (&x, c), p),
        call_ensures(Single::mul, (&x, k), q),
        call_ensures(Single::to_degrees, (&x,), d),
        call_ensures(Single::to_radians, (&x,), r),
        call_ensures(Single::widen, (&x,), wide),
        call_ensures(Single::widen, (&c,), wide_c),
        call_ensures(Double::mul, (&wide, wide_c), product),
        call_ensures(Double::narrow, (&product,), narrow),
    ensures
        d == p,
        r == q,
        p == narrow,
{
}

} // verus!
