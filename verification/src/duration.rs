//! Lengths of time, in nanoseconds.

use vstd::arithmetic::div_mod::lemma_fundamental_div_mod;
use vstd::arithmetic::power2::{lemma2_to64, lemma2_to64_rest, lemma_pow2_adds, lemma_pow2_pos, lemma_pow2_strictly_increases, pow2};
use vstd::prelude::*;

use crate::arithmetic::{apart, integer, lemma_double_of, lemma_integer, lemma_rounded_error, lemma_size};
use crate::number::{lemma_magnitude_increases, magnitude_units, one, Double, LEADING, SIGN};
use crate::rounding::{double_of, lemma_round_scales, lemma_round_whole, nearest_units, round_half_even};

verus! {

/// Nanoseconds in a second.
pub const SECOND: u128 = 1_000_000_000;

/// A number of seconds that a `std::time::Duration` can be made of: not a NaN, not
/// negative, and below 2^64.
pub open spec fn is_duration(secs: Double) -> bool {
    !secs.nan() && 0 <= secs.units() < pow2(64) * one()
}

/// Seconds to nanoseconds, rounded to the nearest, a tie going to the even one.
pub open spec fn nanos_of(secs: Double) -> int {
    round_half_even(secs.units() * SECOND, one())
}

proof fn lemma_limit()
    ensures
        (Double { bits: 0x43f0_0000_0000_0000 }).units() == pow2(64) * one(),
        magnitude_units(0x43f0_0000_0000_0000) == pow2(64) * one(),
{
    let m = 0x43f0_0000_0000_0000int;
    assert(m / LEADING as int == 1087 && m % LEADING as int == 0);
    lemma2_to64();
    lemma2_to64_rest();
    lemma_pow2_adds(52, 1086);
    lemma_pow2_adds(64, 1074);
    assert(LEADING as int * pow2(1086) == pow2(64) * one());
}

/// Whether a number of seconds can be a duration.
pub fn fits_duration(secs: Double) -> (b: bool)
    ensures
        b == is_duration(secs),
{
    let limit: Double = Double { bits: 0x43f0_0000_0000_0000 };
    proof {
        lemma_limit();
        lemma_zero();
    }
    Double { bits: 0 }.le(secs) && secs.lt(limit)
}

proof fn lemma_zero()
    ensures
        (Double { bits: 0 }).units() == 0,
{
    assert(0int / LEADING as int == 0 && 0int % LEADING as int == 0);
}

/// Seconds to nanoseconds, as `std::time::Duration::from_secs_f64` rounds them.
pub fn nanos_from_secs(secs: Double) -> (nanos: u128)
    requires
        is_duration(secs),
    ensures
        nanos == nanos_of(secs),
{
    let low: u64 = secs.bits % SIGN;
    let field: u64 = low / LEADING;
    let fraction: u64 = low % LEADING;
    // The number is `significand * 2^(e - 1)` units of 2^-1074.
    let e: u64 = if field == 0 {
        1
    } else {
        field
    };
    let significand: u64 = if field == 0 {
        fraction
    } else {
        LEADING + fraction
    };
    let ghost m = significand as int;
    let ghost p = pow2((e - 1) as nat) as int;
    proof {
        lemma2_to64();
        lemma2_to64_rest();
        lemma_pow2_pos((e - 1) as nat);
        lemma_pow2_pos(1074);
        assert(magnitude_units(low as int) == m * p) by (nonlinear_arith)
            requires
                magnitude_units(low as int) == (if field == 0 { fraction as int } else { (LEADING as int + fraction) * pow2((field - 1) as nat) }),
                field == 0 ==> p == 1 && m == fraction,
                field != 0 ==> p == pow2((field - 1) as nat) && m == LEADING + fraction,
        ;
        assert(secs.units() == m * p) by {
            // Of the negative encodings only that of -0 is not below zero.
            if secs.bits >= SIGN && low > 0 {
                lemma_magnitude_increases(0, low as int);
                assert(0int / LEADING as int == 0 && 0int % LEADING as int == 0);
            }
        }
    }
    let scaled: u128 = significand as u128 * SECOND;
    assert((m * p) * SECOND == scaled * p) by (nonlinear_arith)
        requires
            scaled == m * SECOND,
    ;
    if e >= 1075 {
        let mut nanos: u128 = scaled;
        let mut k: u64 = 1075;
        proof {
            lemma_short_exponent(m, e as int);
            assert(scaled * pow2(0) == scaled) by (nonlinear_arith)
                requires
                    pow2(0) == 1,
            ;
        }
        while k < e
            invariant
                1075 <= k <= e <= 1086,
                nanos == scaled * pow2((k - 1075) as nat),
                scaled < 0x80_0000_0000_0000_0000_0000,
            decreases e - k,
        {
            proof {
                lemma_pow2_adds((k - 1075) as nat, 1);
                lemma2_to64();
                assert(nanos * 2 == scaled * pow2((k + 1 - 1075) as nat)) by (nonlinear_arith)
                    requires
                        nanos == scaled * pow2((k - 1075) as nat),
                        pow2((k + 1 - 1075) as nat) == 2 * pow2((k - 1075) as nat),
                ;
                if k - 1075 < 11 {
                    lemma_pow2_strictly_increases((k - 1075) as nat, 11);
                }
                assert(nanos <= scaled * 2048) by (nonlinear_arith)
                    requires
                        nanos == scaled * pow2((k - 1075) as nat),
                        pow2((k - 1075) as nat) <= 2048,
                ;
            }
            nanos = nanos * 2;
            k = k + 1;
        }
        proof {
            lemma_pow2_adds(1074, (e - 1075) as nat);
            assert(scaled * p == nanos * one()) by (nonlinear_arith)
                requires
                    p == one() * pow2((e - 1075) as nat),
                    nanos == scaled * pow2((e - 1075) as nat),
            ;
            lemma_round_scales(nanos as int, 1, one());
            lemma_round_whole(nanos as int);
            assert(1 * one() == one());
        }
        nanos
    } else if e < 991 {
        // Below half a nanosecond.
        proof {
            lemma_pow2_adds((e - 1) as nat, (1075 - e) as nat);
            lemma_pow2_pos((1075 - e) as nat);
            if 84 < 1075 - e {
                lemma_pow2_strictly_increases(84, (1075 - e) as nat);
            }
            lemma_pow2_adds(64, 20);
            let d = pow2((1075 - e) as nat) as int;
            assert(p * d == one() && d * p == one()) by (nonlinear_arith)
                requires
                    one() == p * d,
            ;
            lemma_round_scales(scaled as int, d, p);
            assert(2 * scaled < d);
            assert(scaled as int / d == 0 && scaled as int % d == scaled) by {
                vstd::arithmetic::div_mod::lemma_basic_div(scaled as int, d);
                vstd::arithmetic::div_mod::lemma_small_mod(scaled as nat, d as nat);
            }
        }
        0
    } else {
        let mut den: u128 = 1;
        let mut k: u64 = 1075;
        while k > e
            invariant
                991 <= e <= k <= 1075,
                den == pow2((1075 - k) as nat),
            decreases k,
        {
            proof {
                lemma_pow2_adds((1075 - k) as nat, 1);
                lemma2_to64();
                if 1075 - k < 84 {
                    lemma_pow2_strictly_increases((1075 - k) as nat, 84);
                }
                lemma_pow2_adds(64, 20);
                lemma2_to64_rest();
            }
            den = den * 2;
            k = k - 1;
        }
        proof {
            lemma_pow2_pos((1075 - e) as nat);
            lemma_pow2_adds((e - 1) as nat, (1075 - e) as nat);
            assert(den * p == one()) by (nonlinear_arith)
                requires
                    one() == p * den,
            ;
            lemma_round_scales(scaled as int, den as int, p);
        }
        let whole: u128 = scaled / den;
        let rest: u128 = scaled % den;
        if rest < den - rest || (rest == den - rest && whole % 2 == 0) {
            whole
        } else {
            whole + 1
        }
    }
}

/// A number of seconds that makes a duration has an exponent of at most 63.
proof fn lemma_short_exponent(m: int, e: int)
    requires
        1075 <= e < 2048,
        m >= LEADING as int,
        m * pow2((e - 1) as nat) < pow2(64) * one(),
    ensures
        e <= 1086,
{
    if e > 1086 {
        lemma_limit();
        let p = pow2((e - 1) as nat) as int;
        lemma_pow2_strictly_increases(1085, (e - 1) as nat);
        if e > 1087 {
            lemma_pow2_strictly_increases(1086, (e - 1) as nat);
        }
        lemma2_to64_rest();
        lemma_pow2_adds(52, 1086);
        lemma_pow2_adds(64, 1074);
        assert(m * p >= LEADING as int * pow2(1086)) by (nonlinear_arith)
            requires
                m >= LEADING as int,
                p >= pow2(1086),
                pow2(1086) >= 0,
        ;
    }
}

/// One nanosecond more than the longest `std::time::Duration`.
pub const DURATION_END: u128 = 18_446_744_073_709_551_616_000_000_000;

/// Nanoseconds to seconds: the whole seconds, and a quotient for the rest.
pub open spec fn seconds_of(nanos: nat) -> Double {
    integer(nanos / SECOND as nat).plus(integer(nanos % SECOND as nat).over(integer(SECOND as nat)))
}

/// Nanoseconds to milliseconds.
pub open spec fn millis_of(nanos: nat) -> Double {
    seconds_of(nanos).times(integer(1000))
}

/// A duration in milliseconds.
pub fn millis(nanos: u128) -> (r: Double)
    requires
        nanos < DURATION_END,
    ensures
        r == millis_of(nanos as nat),
{
    let whole: u64 = (nanos / SECOND) as u64;
    let rest: u64 = (nanos % SECOND) as u64;
    let secs: Double = Double::from_u64(whole).add(Double::from_u64(rest).div(Double::from_u64(1_000_000_000)));
    secs.mul(Double::from_u64(1000))
}

/// A duration as the protocol carries it. The two fields are added up; either may
/// be negative, and the nanoseconds may be more than a second.
#[derive(Clone, Copy, Debug, PartialEq, Eq, Structural)]
pub struct ProtoDuration {
    pub seconds: i64,
    pub nanos: i32,
}

impl ProtoDuration {
    pub open spec fn total(self) -> int {
        self.seconds * SECOND + self.nanos
    }
}

/// The longest duration that the protocol can carry, in nanoseconds.
pub const LONGEST: u128 = 9_223_372_036_854_775_807_999_999_999;

/// The nanoseconds of a duration of the protocol: none, where it is negative.
pub open spec fn nanos_in(d: ProtoDuration) -> Option<u128> {
    if d.total() < 0 {
        None
    } else if d.total() > LONGEST {
        Some(LONGEST)
    } else {
        Some(d.total() as u128)
    }
}

/// Calls `<std::time::Duration as TryFrom<prost_types::Duration>>::try_from`, and
/// `as_nanos` on what it gives.
///
/// Trusted: the conversion normalizes the pair, and fails exactly where its sum is
/// negative. A sum that is too long for normalized fields becomes the longest
/// duration they can hold. The call overflows on the least `i64`, so sums that
/// normalize to it are left out.
#[verifier::external_body]
fn std_from_proto(seconds: i64, nanos: i32) -> (r: Option<u128>)
    requires
        seconds * SECOND + nanos > i64::MIN * SECOND,
    ensures
        r == nanos_in((ProtoDuration { seconds, nanos })),
{
    let proto = prost_types::Duration { seconds, nanos };
    std::time::Duration::try_from(proto).ok().map(|d| d.as_nanos())
}

/// Calls `<prost_types::Duration as TryFrom<std::time::Duration>>::try_from`.
///
/// Trusted: the conversion keeps the seconds and the nanoseconds, and fails exactly
/// where the seconds do not fit in an `i64`.
#[verifier::external_body]
fn proto_from_std(secs: u64, nanos: u32) -> (r: Option<(i64, i32)>)
    requires
        nanos < SECOND,
    ensures
        r == (if secs <= i64::MAX {
            Some((secs as i64, nanos as i32))
        } else {
            None
        }),
{
    prost_types::Duration::try_from(std::time::Duration::new(secs, nanos)).ok().map(|d| (d.seconds, d.nanos))
}

/// The nanoseconds of a duration of the protocol: none, where it is negative.
pub fn nanos_from_proto(d: ProtoDuration) -> (r: Option<u128>)
    ensures
        r == nanos_in(d),
{
    let total: i128 = d.seconds as i128 * 1_000_000_000 + d.nanos as i128;
    if total <= -9_223_372_036_854_775_808_000_000_000 {
        None
    } else {
        std_from_proto(d.seconds, d.nanos)
    }
}

/// A duration for the protocol: none, where its seconds do not fit.
pub fn proto_from_nanos(nanos: u128) -> (r: Option<ProtoDuration>)
    requires
        nanos < DURATION_END,
    ensures
        r is Some <==> nanos <= LONGEST,
        r matches Some(d) ==> d.total() == nanos && 0 <= d.nanos < SECOND,
{
    match proto_from_std((nanos / SECOND) as u64, (nanos % SECOND) as u32) {
        Some(pair) => Some(ProtoDuration { seconds: pair.0, nanos: pair.1 }),
        None => None,
    }
}

/// What is written as a duration of the protocol is read back unchanged.
pub proof fn law_proto_round_trip(nanos: u128, d: ProtoDuration)
    requires
        d.total() == nanos,
        nanos <= LONGEST,
    ensures
        nanos_in(d) == Some(nanos),
{
}

/// A duration is anything from nothing to just short of 2^64 seconds.
pub proof fn law_durations_are_bounded(secs: Double, b: bool)
    requires
        call_ensures(fits_duration, (secs,), b),
    ensures
        b <==> !secs.nan() && 0 <= secs.units() && secs.units() < 18_446_744_073_709_551_616 * one(),
{
    lemma2_to64_rest();
}

/// Seconds become the nearest number of nanoseconds. Of two that are equally near it is
/// the even one.
pub proof fn law_nanoseconds_are_nearest(secs: Double, nanos: u128)
    requires
        call_ensures(nanos_from_secs, (secs,), nanos),
        !secs.nan(),
        secs.units() >= 0,
    ensures
        2 * apart(nanos * one(), secs.units() * 1_000_000_000) <= one(),
        2 * apart(nanos * one(), secs.units() * 1_000_000_000) == one() ==> nanos % 2 == 0,
{
    lemma_nanos_are_nearest(secs);
}

pub proof fn lemma_nanos_are_nearest(secs: Double)
    requires
        secs.units() >= 0,
    ensures
        2 * apart(nanos_of(secs) * one(), secs.units() * 1_000_000_000) <= one(),
        2 * apart(nanos_of(secs) * one(), secs.units() * 1_000_000_000) == one() ==> nanos_of(secs) % 2 == 0,
{
    let (n, o) = (secs.units() * SECOND, one());
    lemma_pow2_pos(1074);
    lemma_fundamental_div_mod(n, o);
    let q = n / o;
    assert(q * o == o * q && (q + 1) * o == o * q + o) by (nonlinear_arith);
}

/// A duration of the protocol counts as its nanoseconds: seconds and nanoseconds added
/// up. A negative one counts as none, and none is longer than the longest.
pub proof fn law_protocol_durations_add_up(d: ProtoDuration, r: Option<u128>)
    requires
        call_ensures(nanos_from_proto, (d,), r),
    ensures
        ({
            let sum = d.seconds * 1_000_000_000 + d.nanos;
            &&& r is None <==> sum < 0
            &&& 0 <= sum <= 9_223_372_036_854_775_807_999_999_999 ==> r == Some(sum as u128)
            &&& sum > 9_223_372_036_854_775_807_999_999_999 ==> r == Some(
                9_223_372_036_854_775_807_999_999_999u128,
            )
        }),
{
}

/// What the protocol is told is the duration itself, with less than a second in the
/// nanoseconds, as long as its seconds fit.
pub proof fn law_durations_are_told_whole(nanos: u128, r: Option<ProtoDuration>)
    requires
        call_ensures(proto_from_nanos, (nanos,), r),
    ensures
        r is Some <==> nanos <= 9_223_372_036_854_775_807_999_999_999,
        r matches Some(d) ==> d.seconds * 1_000_000_000 + d.nanos == nanos && 0 <= d.nanos < 1_000_000_000,
{
}

/// One is a good deal more than what is subnormal.
proof fn lemma_one_is_large()
    ensures
        one() >= 0x1_0000_0000_0000_0000 * 0x1_0000_0000,
        pow2(100) == 0x1_0000_0000_0000_0000 * 0x10_0000_0000,
{
    lemma2_to64();
    lemma2_to64_rest();
    lemma_pow2_adds(64, 36);
    lemma_pow2_strictly_increases(100, 1074);
}

/// The whole seconds of a duration and the rest, each as a number, are off by one part
/// in 2^53 at most, and so is their sum.
proof fn lemma_seconds(whole: nat, rest: nat)
    requires
        whole <= u64::MAX,
        rest < SECOND,
    ensures
        ({
            let w = integer(whole);
            let q = integer(rest).over(integer(SECOND as nat));
            let s = w.plus(q);
            let e = w.units() + q.units();
            &&& 0x20_0000_0000_0000 * apart(w.units(), whole * one()) <= whole * one()
            &&& 0x20_0000_0000_0000 * apart(1_000_000_000 * q.units(), rest * one()) <= rest * one()
            &&& s.finite() && !s.negative() && s.units() >= 0
            &&& 0x20_0000_0000_0000 * apart(s.units(), e) <= e
            &&& whole * one() >= 0 && rest * one() >= 0
        }),
{
    let o = one();
    let w = integer(whole);
    let second = integer(SECOND as nat);
    let q = integer(rest).over(second);
    let lead = LEADING as int;
    lemma_one_is_large();
    let (wo, ro) = (whole * o, rest * o);
    assert(wo >= 0 && ro >= 0 && (whole > 0 ==> wo >= o) && (rest > 0 ==> ro >= o) && wo <= 0x1_0000_0000_0000_0000 * o && ro <= 1_000_000_000 * o)
        by (nonlinear_arith)
        requires
            wo == whole * o,
            ro == rest * o,
            o > 0,
            0 <= whole <= 0x1_0000_0000_0000_0000,
            0 <= rest < SECOND,
    ;
    reveal(integer);
    assert(whole == 0 ==> wo == 0);
    assert(rest == 0 ==> ro == 0);
    lemma_rounded_error(wo, 1);
    lemma_size(w);
    lemma_integer(rest);
    lemma_integer(SECOND as nat);
    lemma_size(integer(rest));
    lemma_size(second);
    let den = SECOND * o;
    let num = ro * o;
    assert(num == 0 || lead * den <= num <= (pow2(100) * o) * den) by (nonlinear_arith)
        requires
            num == ro * o,
            den == SECOND * o,
            ro == 0 || o <= ro <= 1_000_000_000 * o,
            o >= lead * SECOND,
            o > 0,
            pow2(100) >= 1,
    {
        if ro != 0 {
            assert(ro * o >= (lead * SECOND) * o);
            assert(lead * den == (lead * SECOND) * o);
            assert(ro * o <= (SECOND * o) * o);
            assert((SECOND * o) * o == o * den);
            assert(o * den <= (pow2(100) * o) * den);
        }
    }
    lemma_rounded_error(num, den);
    reveal(Double::over);
    assert(q == double_of(false, nearest_units(num, den)));
    let g = 1_000_000_000 * q.units();
    assert(0x20_0000_0000_0000 * apart(g, ro) <= ro) by (nonlinear_arith)
        requires
            0x20_0000_0000_0000 * apart(q.units() * den, num) <= num,
            den == SECOND * o,
            num == ro * o,
            g == 1_000_000_000 * q.units(),
            apart(q.units() * den, num) == (if q.units() * den <= num { num - q.units() * den } else { q.units() * den - num }),
            apart(g, ro) == (if g <= ro { ro - g } else { g - ro }),
            o > 0,
    {
        assert(q.units() * den == g * o);
        assert(num - g * o == (ro - g) * o);
    }
    lemma_size(q);
    let e = w.units() + q.units();
    reveal(Double::plus);
    lemma_double_of(false, 0);
    if e > 0 {
        assert((pow2(100) * o) * 1 == (0x1_0000_0000_0000_0000 * 0x10_0000_0000) * o) by (nonlinear_arith)
            requires
                pow2(100) == 0x1_0000_0000_0000_0000 * 0x10_0000_0000,
        ;
        assert(whole == 0 ==> w.units() == 0);
        assert(rest == 0 ==> q.units() == 0);
        let top = pow2(100) * one();
        assert(e <= top);
        assert(top * 1 == top && LEADING * 1 == lead);
        lemma_rounded_error(e, 1);
    }
    lemma_size(w.plus(q));
}

/// Milliseconds are milliseconds: a million nanoseconds to each, to one part in 2^51.
pub proof fn law_milliseconds(nanos: u128, r: Double)
    requires
        call_ensures(millis, (nanos,), r),
        nanos < DURATION_END,
    ensures
        r.finite(),
        r.units() >= 0,
        0x8_0000_0000_0000 * apart(r.units() * 1_000_000, nanos * one()) <= nanos * one(),
{
    let o = one();
    let (whole, rest) = (nanos as nat / SECOND as nat, nanos as nat % SECOND as nat);
    let s = seconds_of(nanos as nat);
    let lead = LEADING as int;
    lemma_seconds(whole, rest);
    lemma_one_is_large();
    lemma_integer(1000);
    lemma_size(s);
    lemma_size(integer(1000));
    reveal(Double::times);
    let (wo, ro, u) = (whole * o, rest * o, s.units());
    assert(nanos * o == 1_000_000_000 * wo + ro) by (nonlinear_arith)
        requires
            nanos == 1_000_000_000 * whole + rest,
            wo == whole * o,
            ro == rest * o,
    ;
    assert(wo <= 0x1_0000_0000_0000_0000 * o && ro <= 1_000_000_000 * o && (whole > 0 ==> wo >= o) && (rest > 0 ==> ro >= o)) by (nonlinear_arith)
        requires
            wo == whole * o,
            ro == rest * o,
            o > 0,
            0 <= whole <= 0x1_0000_0000_0000_0000,
            0 <= rest < SECOND,
    ;
    assert(u == 0 || lead <= u);
    let num = u * (1000 * o);
    assert(num == 0 || lead * o <= num <= (pow2(100) * o) * o) by (nonlinear_arith)
        requires
            num == u * (1000 * o),
            u == 0 || lead <= u,
            lead > 0,
            1000 * u <= pow2(100) * o,
            o > 0,
    {
        assert(num == (1000 * u) * o);
        assert((1000 * u) * o <= (pow2(100) * o) * o);
        if u == 0 {
            assert(num == 0);
        } else {
            assert(lead <= 1000 * u);
            assert(lead * o <= (1000 * u) * o);
        }
    }
    lemma_rounded_error(num, o);
    assert(r == double_of(false, nearest_units(num, o)));
    let v = r.units();
    assert(0x20_0000_0000_0000 * apart(v, 1000 * u) <= 1000 * u) by (nonlinear_arith)
        requires
            0x20_0000_0000_0000 * apart(v * o, num) <= num,
            num == u * (1000 * o),
            apart(v * o, num) == (if v * o <= num { num - v * o } else { v * o - num }),
            apart(v, 1000 * u) == (if v <= 1000 * u { 1000 * u - v } else { v - 1000 * u }),
            o > 0,
    {
        assert(num == (1000 * u) * o);
        assert((1000 * u) * o - v * o == (1000 * u - v) * o);
    }
}

} // verus!
