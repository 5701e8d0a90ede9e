//! Double-precision arithmetic.
//!
//! Each operation returns the double nearest to the exact result, a tie going to
//! the even significand, as IEEE 754 asks. A result that is not a number is always
//! the one NaN `NOT_A_NUMBER`.

use vstd::arithmetic::div_mod::{lemma_div_is_ordered, lemma_fundamental_div_mod, lemma_fundamental_div_mod_converse};
use vstd::arithmetic::power2::{lemma2_to64, lemma2_to64_rest, lemma_pow2_adds, lemma_pow2_pos, lemma_pow2_strictly_increases, pow2};
use vstd::prelude::*;

use crate::number::{lemma_magnitude_increases, magnitude_units, one, Double, INFINITE, LEADING, SIGN};
use crate::rounding::{
    bit_length, brackets, double_of, down, is_double, law_rounding_is_nearest, lemma_length, lemma_level_bounds,
    lemma_level_ordered, lemma_magnitude_of, lemma_nearest_exact, lemma_nearest_is_double, lemma_nearest_not_negative,
    lemma_nearest_zero, lemma_shifted_is_double, lemma_up, lemma_whole, level, magnitude_of, nearest_units,
    power_of_two, round, up,
};
use crate::seeds::lemma_relative_error;

verus! {

/// The encoding of the quiet NaN.
pub const NOT_A_NUMBER: u64 = 0x7ff8_0000_0000_0000;

impl Double {
    pub open spec fn negative(self) -> bool {
        self.bits >= SIGN
    }

    pub open spec fn finite(self) -> bool {
        self.magnitude_bits() < INFINITE
    }

    pub open spec fn zero(self) -> bool {
        self.magnitude_bits() == 0
    }

    /// The number without its sign, in units.
    pub open spec fn size(self) -> int {
        magnitude_units(self.magnitude_bits())
    }

    /// The product of two doubles.
    #[verifier::opaque]
    pub open spec fn times(self, other: Double) -> Double {
        let negative = self.negative() != other.negative();
        if self.nan() || other.nan() || (self.infinite() && other.zero()) || (self.zero() && other.infinite()) {
            Double { bits: NOT_A_NUMBER }
        } else if self.infinite() || other.infinite() {
            infinity(negative)
        } else {
            double_of(negative, nearest_units(self.size() * other.size(), one()))
        }
    }

    /// The quotient of two doubles.
    #[verifier::opaque]
    pub open spec fn over(self, other: Double) -> Double {
        let negative = self.negative() != other.negative();
        if self.nan() || other.nan() || (self.infinite() && other.infinite()) || (self.zero() && other.zero()) {
            Double { bits: NOT_A_NUMBER }
        } else if self.infinite() || other.zero() {
            infinity(negative)
        } else if other.infinite() {
            double_of(negative, 0)
        } else {
            double_of(negative, nearest_units(self.size() * one(), other.size()))
        }
    }

    /// The sum of two doubles. A sum of zero is negative only if both terms are.
    #[verifier::opaque]
    pub open spec fn plus(self, other: Double) -> Double {
        let sum = self.units() + other.units();
        if self.nan() || other.nan() || (self.infinite() && other.infinite() && self.negative() != other.negative()) {
            Double { bits: NOT_A_NUMBER }
        } else if self.infinite() {
            self
        } else if other.infinite() {
            other
        } else if sum == 0 {
            double_of(self.negative() && other.negative(), 0)
        } else if sum < 0 {
            double_of(true, nearest_units(-sum, 1))
        } else {
            double_of(false, nearest_units(sum, 1))
        }
    }

    pub open spec fn minus(self, other: Double) -> Double {
        self.plus(other.negation())
    }

    /// What division leaves over, with the sign of the dividend.
    #[verifier::opaque]
    pub open spec fn remainder(self, other: Double) -> Double {
        if self.nan() || other.nan() || self.infinite() || other.zero() {
            Double { bits: NOT_A_NUMBER }
        } else if other.infinite() {
            self
        } else {
            double_of(self.negative(), self.size() % other.size())
        }
    }
}

/// The double nearest to an integer.
#[verifier::opaque]
pub open spec fn integer(n: nat) -> Double {
    double_of(false, nearest_units(n * one(), 1))
}

pub open spec fn infinity(negative: bool) -> Double {
    Double {
        bits: (if negative {
            INFINITE + SIGN
        } else {
            INFINITE as int
        }) as u64,
    }
}

fn signed(negative: bool, magnitude: u64) -> (r: Double)
    requires
        magnitude < SIGN,
    ensures
        r.bits == magnitude + (if negative {
            SIGN
        } else {
            0
        }),
{
    if negative {
        Double { bits: magnitude + SIGN }
    } else {
        Double { bits: magnitude }
    }
}

proof fn lemma_zero_encoding()
    ensures
        magnitude_of(0) == 0,
        magnitude_units(0) == 0,
{
    lemma2_to64();
    assert(0int / 1 == 0);
    assert(0int / LEADING as int == 0 && 0int % LEADING as int == 0);
}

impl Double {
    pub fn is_negative(&self) -> (b: bool)
        ensures
            b == self.negative(),
    {
        self.bits >= SIGN
    }

    pub fn is_infinite(&self) -> (b: bool)
        ensures
            b == self.infinite(),
    {
        self.bits % SIGN == INFINITE
    }

    pub fn is_zero(&self) -> (b: bool)
        ensures
            b == self.zero(),
    {
        self.bits % SIGN == 0
    }

    /// A finite number as a significand and an exponent.
    pub(crate) fn split(&self) -> (parts: (u64, i64))
        requires
            self.finite(),
        ensures
            parts.0 < 2 * LEADING,
            0 <= parts.1 <= 2045,
            self.size() == parts.0 * pow2(parts.1 as nat),
            parts.1 == (if self.magnitude_bits() / LEADING as int == 0 {
                0
            } else {
                self.magnitude_bits() / LEADING as int - 1
            }),
            parts.1 > 0 ==> parts.0 >= LEADING,
            parts.0 == 0 <==> self.zero(),
            self.zero() ==> self.size() == 0,
            !self.zero() ==> self.size() > 0,
    {
        let low: u64 = self.bits % SIGN;
        let field: u64 = low / LEADING;
        let fraction: u64 = low % LEADING;
        proof {
            lemma2_to64();
            lemma_zero_encoding();
            if low > 0 {
                lemma_magnitude_increases(0, low as int);
            }
        }
        if field == 0 {
            assert(fraction * pow2(0) == fraction) by (nonlinear_arith)
                requires
                    pow2(0) == 1,
            ;
            (fraction, 0)
        } else {
            (LEADING + fraction, field as i64 - 1)
        }
    }

    /// The double nearest to an integer.
    pub fn from_u64(n: u64) -> (r: Double)
        ensures
            r == integer(n as nat),
    {
        proof {
            reveal(integer);
            lemma_up(1074, 0);
            assert(n * (up(1074) * 1) == (n * one()) * 1) by (nonlinear_arith)
                requires
                    up(1074) == one(),
            ;
            assert((n + 1) * (up(1074) * 1) > (n * one()) * 1) by (nonlinear_arith)
                requires
                    up(1074) == one(),
                    one() > 0,
            ;
        }
        round(false, n as u128, 1074, false, Ghost(n * one()), Ghost(1))
    }

    pub fn mul(&self, other: Double) -> (r: Double)
        ensures
            r == self.times(other),
    {
        proof {
            reveal(Double::times);
        }
        let negative: bool = self.is_negative() != other.is_negative();
        if self.is_nan() || other.is_nan() || (self.is_infinite() && other.is_zero()) || (self.is_zero()
            && other.is_infinite()) {
            return Double { bits: NOT_A_NUMBER };
        }
        if self.is_infinite() || other.is_infinite() {
            return signed(negative, INFINITE);
        }
        let (m1, x1) = self.split();
        let (m2, x2) = other.split();
        let x: i64 = x1 + x2 - 1074;
        proof {
            lemma_product(m1 as int, x1 as int, m2 as int, x2 as int);
        }
        round(negative, m1 as u128 * m2 as u128, x, false, Ghost(self.size() * other.size()), Ghost(one()))
    }
}

/// The product of two significands brackets the product of two numbers.
proof fn lemma_product(m1: int, x1: int, m2: int, x2: int)
    requires
        0 <= m1 < 2 * LEADING,
        0 <= m2 < 2 * LEADING,
        0 <= x1,
        0 <= x2,
    ensures
        0 <= m1 * m2 < 0x400_0000_0000_0000_0000_0000_0000,
        brackets(
            (m1 * pow2(x1 as nat)) * (m2 * pow2(x2 as nat)),
            one(),
            m1 * m2,
            x1 + x2 - 1074,
            false,
        ),
{
    let p1 = pow2(x1 as nat) as int;
    let p2 = pow2(x2 as nat) as int;
    let x = x1 + x2 - 1074;
    let num = (m1 * p1) * (m2 * p2);
    assert(0 <= m1 * m2 < 0x400_0000_0000_0000_0000_0000_0000) by (nonlinear_arith)
        requires
            0 <= m1 < 0x20_0000_0000_0000,
            0 <= m2 < 0x20_0000_0000_0000,
    ;
    lemma_pow2_adds(x1 as nat, x2 as nat);
    lemma_pow2_pos(1074);
    lemma_up(x, 0);
    let o = one();
    let a = up(x);
    let b = down(x);
    assert(num == (m1 * m2) * (p1 * p2)) by (nonlinear_arith)
        requires
            num == (m1 * p1) * (m2 * p2),
    ;
    let pp = p1 * p2;
    assert(a * o == pp * b) by {
        if x >= 0 {
            lemma_pow2_adds(x as nat, 1074);
            lemma2_to64();
            assert(pow2(0) == 1);
            assert(pp * 1 == pp && 1 * o == o);
        } else {
            lemma_pow2_adds((x1 + x2) as nat, (-x) as nat);
            assert(1 * o == o);
        }
    }
    let m = m1 * m2;
    assert(m * (a * o) == num * b) by (nonlinear_arith)
        requires
            a * o == pp * b,
            num == m * pp,
    ;
    assert((m + 1) * (a * o) > m * (a * o)) by (nonlinear_arith)
        requires
            a > 0,
            o > 0,
    ;
}

/// A long enough quotient of two significands brackets the quotient of two numbers.
proof fn lemma_quotient(m1: int, x1: int, m2: int, x2: int, j: int, t: int)
    requires
        0 <= m1,
        0 < m2,
        0 <= x1,
        0 <= x2,
        0 <= j,
        t == m1 * pow2(j as nat),
    ensures
        brackets(
            (m1 * pow2(x1 as nat)) * one(),
            m2 * pow2(x2 as nat),
            t / m2,
            x1 + 1074 - x2 - j,
            t % m2 != 0,
        ),
{
    let p1 = pow2(x1 as nat) as int;
    let p2 = pow2(x2 as nat) as int;
    let o = one();
    let pj = pow2(j as nat) as int;
    let x = x1 + 1074 - x2 - j;
    let q = t / m2;
    let num = (m1 * p1) * o;
    let den = m2 * p2;
    let a = up(x);
    let b = down(x);
    lemma_up(x, 0);
    lemma_pow2_pos(x1 as nat);
    lemma_pow2_pos(x2 as nat);
    lemma_pow2_pos(j as nat);
    lemma_pow2_pos(1074);
    lemma_pow2_adds(x1 as nat, 1074);
    lemma_pow2_adds(j as nat, x2 as nat);
    lemma_fundamental_div_mod(t, m2);
    vstd::arithmetic::div_mod::lemma_div_pos_is_pos(t, m2);
    let w = a * p2;
    assert((p1 * o) * b == pj * w) by {
        if x >= 0 {
            lemma_pow2_adds((j + x2) as nat, x as nat);
            lemma2_to64();
            assert((p1 * o) * b == pj * (a * p2)) by (nonlinear_arith)
                requires
                    b == 1,
                    p1 * o == (pj * p2) * a,
            ;
        } else {
            lemma_pow2_adds((x1 + 1074) as nat, (-x) as nat);
            assert((p1 * o) * b == pj * (a * p2)) by (nonlinear_arith)
                requires
                    a == 1,
                    (p1 * o) * b == pj * p2,
            ;
        }
    }
    assert(w > 0) by (nonlinear_arith)
        requires
            a > 0,
            p2 > 0,
            w == a * p2,
    ;
    assert(num * b == t * w) by (nonlinear_arith)
        requires
            num == (m1 * p1) * o,
            (p1 * o) * b == pj * w,
            t == m1 * pj,
    ;
    assert(q * (a * den) == (q * m2) * w && (q + 1) * (a * den) == (q * m2 + m2) * w) by (nonlinear_arith)
        requires
            den == m2 * p2,
            w == a * p2,
    ;
    let qm = q * m2;
    let rest = t % m2;
    assert(t == qm + rest) by (nonlinear_arith)
        requires
            t == m2 * q + rest,
            qm == q * m2,
    ;
    assert(qm * w <= t * w && t * w < (qm + m2) * w && (qm * w == t * w <==> rest == 0)) by (nonlinear_arith)
        requires
            t == qm + rest,
            0 <= rest < m2,
            w > 0,
    ;
    assert(den > 0) by (nonlinear_arith)
        requires
            den == m2 * p2,
            m2 > 0,
            p2 > 0,
    ;
}

impl Double {
    pub fn div(&self, other: Double) -> (r: Double)
        ensures
            r == self.over(other),
    {
        proof {
            reveal(Double::over);
        }
        let negative: bool = self.is_negative() != other.is_negative();
        if self.is_nan() || other.is_nan() || (self.is_infinite() && other.is_infinite()) || (self.is_zero()
            && other.is_zero()) {
            return Double { bits: NOT_A_NUMBER };
        }
        if self.is_infinite() || other.is_zero() {
            return signed(negative, INFINITE);
        }
        if other.is_infinite() {
            proof {
                lemma_zero_encoding();
            }
            return signed(negative, 0);
        }
        let (m1, x1) = self.split();
        let (m2, x2) = other.split();
        // Lengthen the dividend, so that the quotient has more bits than a double.
        let len: i64 = bit_length(m1 as u128);
        proof {
            lemma2_to64();
            lemma2_to64_rest();
            if len > 53 {
                if len > 54 {
                    lemma_pow2_strictly_increases(53, (len - 1) as nat);
                }
            }
        }
        let j: i64 = 117 - len;
        let p: u128 = power_of_two(j as u64);
        proof {
            lemma_pow2_pos(j as nat);
            lemma_pow2_adds(len as nat, j as nat);
            lemma_pow2_adds(64, 53);
            assert(m1 * p <= pow2(117)) by (nonlinear_arith)
                requires
                    m1 < pow2(len as nat),
                    pow2(117) == pow2(len as nat) * p,
                    p > 0,
            ;
            if len > 0 {
                lemma_pow2_adds((len - 1) as nat, j as nat);
                lemma_pow2_adds(64, 52);
                assert(m1 * p >= pow2(116)) by (nonlinear_arith)
                    requires
                        m1 >= pow2((len - 1) as nat),
                        pow2(116) == pow2((len - 1) as nat) * p,
                        p > 0,
                ;
            }
        }
        let t: u128 = m1 as u128 * p;
        let q: u128 = t / m2 as u128;
        let inexact: bool = t % m2 as u128 != 0;
        proof {
            lemma_quotient(m1 as int, x1 as int, m2 as int, x2 as int, j as int, t as int);
            lemma_fundamental_div_mod(t as int, m2 as int);
            let rest = t as int % m2 as int;
            if len > 0 {
                assert(q >= 0x80_0000_0000_0000) by (nonlinear_arith)
                    requires
                        t >= 0x10_0000_0000_0000 * 0x1_0000_0000_0000_0000,
                        t == m2 * q + rest,
                        rest < m2,
                        0 < m2 < 0x20_0000_0000_0000,
                ;
            } else {
                assert(t == 0) by (nonlinear_arith)
                    requires
                        m1 == 0,
                        t == m1 * p,
                ;
            }
            assert(q <= t) by (nonlinear_arith)
                requires
                    t == m2 * q + rest,
                    0 <= rest,
                    0 < m2,
                    0 <= q,
            ;
        }
        round(
            negative,
            q,
            x1 + 1074 - x2 - j,
            inexact,
            Ghost(self.size() * one()),
            Ghost(other.size()),
        )
    }
}

/// Two numbers far apart: the small one is less than one unit in the last of the
/// places that sixteen more bits give the large one.
proof fn lemma_far(m1: int, x1: int, m2: int, x2: int)
    requires
        LEADING <= m1 < 2 * LEADING,
        0 <= m2 < 2 * LEADING,
        0 <= x2,
        x1 - x2 > 70,
    ensures
        m2 > 0 ==> {
            &&& brackets(m1 * pow2(x1 as nat) + m2 * pow2(x2 as nat), 1, m1 * 0x1_0000, x1 - 16, true)
            &&& brackets(m1 * pow2(x1 as nat) - m2 * pow2(x2 as nat), 1, m1 * 0x1_0000 - 1, x1 - 16, true)
        },
        m2 == 0 ==> {
            &&& brackets(m1 * pow2(x1 as nat) + m2 * pow2(x2 as nat), 1, m1 * 0x1_0000, x1 - 16, false)
            &&& brackets(m1 * pow2(x1 as nat) - m2 * pow2(x2 as nat), 1, m1 * 0x1_0000, x1 - 16, false)
        },
{
    let x = x1 - 16;
    lemma_up(x, 0);
    lemma2_to64();
    lemma2_to64_rest();
    let p = pow2(x as nat) as int;
    let p1 = pow2(x1 as nat) as int;
    let p2 = pow2(x2 as nat) as int;
    lemma_pow2_pos(x as nat);
    lemma_pow2_pos(x2 as nat);
    lemma_pow2_adds(x as nat, 16);
    lemma_pow2_adds(53, x2 as nat);
    lemma_pow2_strictly_increases((53 + x2) as nat, x as nat);
    let s = m2 * p2;
    assert(s < p) by (nonlinear_arith)
        requires
            m2 < 0x20_0000_0000_0000,
            p2 > 0,
            0x20_0000_0000_0000 * p2 < p,
            s == m2 * p2,
    ;
    assert((s == 0) == (m2 == 0) && s >= 0) by (nonlinear_arith)
        requires
            s == m2 * p2,
            p2 > 0,
            m2 >= 0,
    ;
    let big = m1 * p1;
    let m = m1 * 0x1_0000;
    assert(up(x) == p && down(x) == 1);
    assert(m * (p * 1) == big && (m + 1) * (p * 1) == big + p && (m - 1) * (p * 1) == big - p) by (nonlinear_arith)
        requires
            big == m1 * p1,
            p1 == p * 0x1_0000,
            m == m1 * 0x1_0000,
    ;
    assert((big + s) * 1 == big + s && (big - s) * 1 == big - s);
}

impl Double {
    pub fn add(&self, other: Double) -> (r: Double)
        ensures
            r == self.plus(other),
    {
        proof {
            reveal(Double::plus);
        }
        if self.is_nan() || other.is_nan() || (self.is_infinite() && other.is_infinite() && self.is_negative()
            != other.is_negative()) {
            return Double { bits: NOT_A_NUMBER };
        }
        if self.is_infinite() {
            return *self;
        }
        if other.is_infinite() {
            return other;
        }
        let first: bool = self.bits % SIGN >= other.bits % SIGN;
        let big: Double = if first {
            *self
        } else {
            other
        };
        let small: Double = if first {
            other
        } else {
            *self
        };
        let same: bool = self.is_negative() == other.is_negative();
        let negative: bool = big.is_negative();
        let (m1, x1) = big.split();
        let (m2, x2) = small.split();
        proof {
            lemma_zero_encoding();
            if small.magnitude_bits() < big.magnitude_bits() {
                lemma_magnitude_increases(small.magnitude_bits(), big.magnitude_bits());
            }
        }
        let ghost sum = if same {
            big.size() + small.size()
        } else {
            big.size() - small.size()
        };
        if self.bits % SIGN == other.bits % SIGN && !same {
            return signed(false, 0);
        }
        assert(x1 >= x2) by {
            lemma_exponents_ordered(big.magnitude_bits(), small.magnitude_bits());
        }
        let d: i64 = x1 - x2;
        let r: Double = if d <= 70 {
            let p: u128 = power_of_two(d as u64);
            proof {
                lemma_pow2_adds(x2 as nat, d as nat);
                lemma_pow2_pos(d as nat);
                lemma2_to64();
                lemma2_to64_rest();
                lemma_pow2_adds(64, 6);
                if d < 70 {
                    lemma_pow2_strictly_increases(d as nat, 70);
                }
                assert(0 <= m1 * p < 0x20_0000_0000_0000 * 0x40_0000_0000_0000_0000) by (nonlinear_arith)
                    requires
                        0 <= m1 < 0x20_0000_0000_0000,
                        0 < p <= 0x40_0000_0000_0000_0000,
                ;
                let q = pow2(x2 as nat) as int;
                lemma_pow2_pos(x2 as nat);
                assert(big.size() == (m1 * p) * q) by (nonlinear_arith)
                    requires
                        big.size() == m1 * pow2(x1 as nat),
                        pow2(x1 as nat) == q * p,
                ;
                assert((m1 * p + m2) * q == (m1 * p) * q + m2 * q && (m1 * p - m2) * q == (m1 * p) * q - m2 * q)
                    by (nonlinear_arith);
                if !same {
                    assert(m1 * p >= m2) by (nonlinear_arith)
                        requires
                            (m1 * p) * q >= m2 * q,
                            q > 0,
                    ;
                }
            }
            let aligned: u128 = m1 as u128 * p;
            let m: u128 = if same {
                aligned + m2 as u128
            } else {
                aligned - m2 as u128
            };
            proof {
                lemma_whole(m as int, x2 as int);
            }
            round(negative, m, x2, false, Ghost(sum), Ghost(1))
        } else {
            proof {
                lemma_far(m1 as int, x1 as int, m2 as int, x2 as int);
            }
            let long: u128 = m1 as u128 * 0x1_0000;
            let inexact: bool = m2 != 0;
            let m: u128 = if same || !inexact {
                long
            } else {
                long - 1
            };
            round(negative, m, x1 - 16, inexact, Ghost(sum), Ghost(1))
        };
        proof {
            if sum == 0 {
                lemma_nearest_zero(0, 1, 1, 1);
            }
        }
        r
    }

    pub fn sub(&self, other: Double) -> (r: Double)
        ensures
            r == self.minus(other),
    {
        self.add(other.neg())
    }
}

/// The larger of two encodings has the larger exponent field.
proof fn lemma_exponents_ordered(a: int, b: int)
    requires
        0 <= b <= a,
    ensures
        b / LEADING as int <= a / LEADING as int,
{
    lemma_div_is_ordered(b, a, LEADING as int);
}

impl Double {
    /// `self % other`.
    pub fn rem(&self, other: Double) -> (r: Double)
        ensures
            r == self.remainder(other),
    {
        proof {
            reveal(Double::remainder);
        }
        if self.is_nan() || other.is_nan() || self.is_infinite() || other.is_zero() {
            return Double { bits: NOT_A_NUMBER };
        }
        if other.is_infinite() {
            return *self;
        }
        let negative: bool = self.is_negative();
        let (m1, x1) = self.split();
        let (m2, x2) = other.split();
        let ghost a = self.size();
        let ghost b = other.size();
        let rest: u64;
        let x: i64;
        if x1 >= x2 {
            let mut r: u64 = m1 % m2;
            let mut i: i64 = x2;
            proof {
                lemma2_to64();
                assert(m1 * pow2(0) == m1) by (nonlinear_arith)
                    requires
                        pow2(0) == 1,
                ;
            }
            while i < x1
                invariant
                    x2 <= i <= x1,
                    0 < m2 < 2 * LEADING,
                    r < m2,
                    r == (m1 * pow2((i - x2) as nat)) % m2 as int,
                decreases x1 - i,
            {
                proof {
                    let v = m1 * pow2((i - x2) as nat);
                    lemma_pow2_adds((i - x2) as nat, 1);
                    lemma2_to64();
                    assert(m1 * pow2((i + 1 - x2) as nat) == 2 * v) by (nonlinear_arith)
                        requires
                            v == m1 * pow2((i - x2) as nat),
                            pow2((i + 1 - x2) as nat) == pow2((i - x2) as nat) * 2,
                    ;
                    vstd::arithmetic::div_mod::lemma_mul_mod_noop_right(2, v, m2 as int);
                }
                r = (2 * r) % m2;
                i = i + 1;
            }
            proof {
                lemma_pow2_adds((x1 - x2) as nat, x2 as nat);
                let v = m1 * pow2((x1 - x2) as nat);
                let g = pow2(x2 as nat) as int;
                lemma_pow2_pos(x2 as nat);
                assert(a == v * g) by (nonlinear_arith)
                    requires
                        a == m1 * pow2(x1 as nat),
                        pow2(x1 as nat) == pow2((x1 - x2) as nat) * g,
                        v == m1 * pow2((x1 - x2) as nat),
                ;
                lemma_remainder_scales(v, m2 as int, g);
            }
            rest = r;
            x = x2;
        } else if x2 - x1 > 64 {
            proof {
                let g = pow2(x1 as nat) as int;
                lemma_pow2_pos(x1 as nat);
                lemma_pow2_adds((x2 - x1) as nat, x1 as nat);
                let t = pow2((x2 - x1) as nat) as int;
                lemma_pow2_strictly_increases(53, (x2 - x1) as nat);
                lemma2_to64_rest();
                assert(a < b) by (nonlinear_arith)
                    requires
                        a == m1 * g,
                        b == m2 * (t * g),
                        m1 < 0x20_0000_0000_0000,
                        m2 >= 1,
                        t > 0x20_0000_0000_0000,
                        g > 0,
                ;
                vstd::arithmetic::div_mod::lemma_small_mod(a as nat, b as nat);
            }
            rest = m1;
            x = x1;
        } else {
            let p: u128 = power_of_two((x2 - x1) as u64);
            proof {
                lemma2_to64();
                lemma2_to64_rest();
                lemma_pow2_pos((x2 - x1) as nat);
                if x2 - x1 < 64 {
                    lemma_pow2_strictly_increases((x2 - x1) as nat, 64);
                }
                assert(0 < m2 * p < 0x20_0000_0000_0000 * 0x1_0000_0000_0000_0001) by (nonlinear_arith)
                    requires
                        0 < m2 < 0x20_0000_0000_0000,
                        0 < p <= 0x1_0000_0000_0000_0000,
                ;
            }
            let den: u128 = m2 as u128 * p;
            let r: u128 = m1 as u128 % den;
            proof {
                lemma_pow2_adds((x2 - x1) as nat, x1 as nat);
                let g = pow2(x1 as nat) as int;
                lemma_pow2_pos(x1 as nat);
                assert(b == den * g) by (nonlinear_arith)
                    requires
                        b == m2 * pow2(x2 as nat),
                        pow2(x2 as nat) == p * g,
                        den == m2 * p,
                ;
                lemma_remainder_scales(m1 as int, den as int, g);
                lemma_fundamental_div_mod(m1 as int, den as int);
                vstd::arithmetic::div_mod::lemma_mod_decreases(m1 as nat, den as nat);
            }
            rest = r as u64;
            x = x1;
        }
        proof {
            lemma_whole(rest as int, x as int);
            lemma_nearest_exact(rest as int, x as nat);
        }
        round(negative, rest as u128, x, false, Ghost(rest * pow2(x as nat)), Ghost(1))
    }
}

proof fn lemma_remainder_scales(v: int, m: int, g: int)
    requires
        0 <= v,
        0 < m,
        0 < g,
    ensures
        (v * g) % (m * g) == (v % m) * g,
{
    let q = v / m;
    let r = v % m;
    lemma_fundamental_div_mod(v, m);
    assert(v * g == q * (m * g) + r * g && 0 <= r * g < m * g) by (nonlinear_arith)
        requires
            v == m * q + r,
            0 <= r < m,
            0 < g,
    ;
    lemma_fundamental_div_mod_converse(v * g, m * g, q, r * g);
}

/// What `double_of` makes is a number of the sign it was asked for, and no larger
/// than it was asked for.
pub proof fn lemma_double_of(negative: bool, u: int)
    requires
        0 <= u,
    ensures
        !double_of(negative, u).nan(),
        double_of(negative, u).negative() == negative,
        0 <= double_of(negative, u).size() <= u,
{
    let k = level(u);
    let p = pow2(k) as int;
    let q = u / p;
    let lead = LEADING as int;
    lemma_level_bounds(u);
    lemma2_to64();
    lemma2_to64_rest();
    lemma_pow2_pos(k);
    lemma_pow2_adds(53, k);
    lemma_fundamental_div_mod(u, p);
    let rest = u % p;
    assert(0 <= q < 2 * lead) by (nonlinear_arith)
        requires
            u == p * q + rest,
            0 <= rest < p,
            0 <= u < (2 * lead) * p,
    ;
    assert(q * p <= u) by (nonlinear_arith)
        requires
            u == p * q + rest,
            0 <= rest,
    ;
    if k > 0 {
        lemma_pow2_adds(52, k);
        assert(lead <= q) by (nonlinear_arith)
            requires
                u == p * q + rest,
                rest < p,
                lead * p <= u,
                0 < p,
        ;
    }
    lemma_magnitude_of(q, k);
    assert(k * lead >= 0) by (nonlinear_arith)
        requires
            k >= 0,
            lead > 0,
    ;
    lemma_zero_encoding();
    if magnitude_of(u) < INFINITE {
        assert(k < 2046) by (nonlinear_arith)
            requires
                k * lead + q < 2047 * lead,
                k > 0 ==> q >= lead,
                lead > 0,
        ;
        if magnitude_of(u) > 0 {
            lemma_magnitude_increases(0, magnitude_of(u));
        }
    } else {
        assert(k >= 2046) by (nonlinear_arith)
            requires
                k * lead + q >= 2047 * lead,
                q < 2 * lead,
                lead > 0,
        ;
        lemma_pow2_adds(52, k);
        if k > 2046 {
            lemma_pow2_strictly_increases(2046, k);
        }
        let big = INFINITE as int;
        assert(big / lead == 2047 && big % lead == 0);
        lemma_pow2_pos(2046);
        assert(lead * pow2(2046) <= lead * p) by (nonlinear_arith)
            requires
                pow2(2046) <= p,
                lead > 0,
        ;
        assert((lead + 0) * pow2(2046) >= 0) by (nonlinear_arith)
            requires
                lead > 0,
                pow2(2046) > 0,
        ;
    }
}

/// Every integer below 2^53 is a double.
pub proof fn lemma_integer(n: nat)
    requires
        n < 2 * LEADING,
    ensures
        integer(n).units() == n * one(),
        integer(n).finite(),
        !integer(n).negative(),
        n > 0 ==> !integer(n).zero(),
{
    reveal(integer);
    lemma_nearest_exact(n as int, 1074);
    let u = n * one();
    lemma_pow2_pos(1074);
    if n == 0 {
        assert(0 * one() == 0);
        lemma_zero_encoding();
    } else {
        let len = lemma_length(n as int);
        lemma2_to64();
        lemma2_to64_rest();
        if len > 54 {
            lemma_pow2_strictly_increases(53, (len - 1) as nat);
        }
        // The significand that starts with the leading bit.
        let s = (53 - len) as nat;
        let k = (1074 - s) as nat;
        lemma_pow2_adds(s, k);
        lemma_pow2_adds((len - 1) as nat, s);
        lemma_pow2_adds(len as nat, s);
        lemma_pow2_pos(s);
        let q = n * pow2(s);
        assert(q * pow2(k) == u) by (nonlinear_arith)
            requires
                q == n * pow2(s),
                u == n * one(),
                one() == pow2(s) * pow2(k),
        ;
        assert(LEADING <= q < 2 * LEADING) by (nonlinear_arith)
            requires
                pow2((len - 1) as nat) <= n,
                n < pow2(len as nat),
                pow2((len - 1) as nat) * pow2(s) == LEADING,
                pow2(len as nat) * pow2(s) == 2 * LEADING,
                q == n * pow2(s),
                pow2(s) > 0,
        ;
        lemma_magnitude_of(q as int, k);
    }
}

/// Whatever an integer is rounded to, it is a number.
pub proof fn lemma_integer_is_number(n: nat)
    ensures
        !integer(n).nan(),
{
    reveal(integer);
    lemma_pow2_pos(1074);
    assert(n * one() >= 0) by (nonlinear_arith)
        requires
            one() > 0,
    ;
    lemma_nearest_not_negative(n * one());
    lemma_double_of(false, nearest_units(n * one(), 1));
}

pub proof fn lemma_size(x: Double)
    ensures
        x.size() >= 0,
        x.units() == (if x.negative() {
            -x.size()
        } else {
            x.size()
        }),
        x.size() == 0 <==> x.zero(),
{
    lemma_zero_encoding();
    if x.magnitude_bits() > 0 {
        lemma_magnitude_increases(0, x.magnitude_bits());
    }
}

/// A finite double stands for a number of units that needs no rounding.
pub proof fn lemma_finite_is_double(x: Double)
    requires
        x.finite(),
    ensures
        is_double(x.size()),
        x.size() < magnitude_units(INFINITE as int),
{
    let b = x.magnitude_bits();
    let field = b / LEADING as int;
    let fraction = b % LEADING as int;
    lemma2_to64();
    lemma_magnitude_increases(b, INFINITE as int);
    if field == 0 {
        assert(fraction * pow2(0) == fraction) by (nonlinear_arith)
            requires
                pow2(0) == 1,
        ;
        lemma_shifted_is_double(fraction, 0);
    } else {
        lemma_shifted_is_double(LEADING as int + fraction, (field - 1) as nat);
    }
}

/// A double that is asked for is the one that is made: infinity where it is too
/// large.
pub proof fn lemma_double_of_exact(negative: bool, u: int)
    requires
        is_double(u),
    ensures
        double_of(negative, u).finite() <==> u < magnitude_units(INFINITE as int),
        double_of(negative, u).finite() ==> double_of(negative, u).size() == u,
        !double_of(negative, u).finite() ==> double_of(negative, u).infinite(),
{
    lemma_double_of(negative, u);
    let k = level(u);
    let p = pow2(k) as int;
    let q = u / p;
    let lead = LEADING as int;
    lemma_level_bounds(u);
    lemma2_to64();
    lemma2_to64_rest();
    lemma_pow2_pos(k);
    lemma_pow2_adds(53, k);
    lemma_fundamental_div_mod(u, p);
    assert(0 <= q < 2 * lead && q * p == u) by (nonlinear_arith)
        requires
            u == p * q,
            0 <= u < (2 * lead) * p,
            0 < p,
    ;
    if k > 0 {
        lemma_pow2_adds(52, k);
        assert(lead <= q) by (nonlinear_arith)
            requires
                u == p * q,
                lead * p <= u,
                0 < p,
        ;
    }
    lemma_magnitude_of(q, k);
    let big = INFINITE as int;
    if magnitude_of(u) < INFINITE {
        assert(k < 2046) by (nonlinear_arith)
            requires
                k * lead + q < 2047 * lead,
                k > 0 ==> q >= lead,
                lead > 0,
        ;
        assert(k * lead >= 0) by (nonlinear_arith)
            requires
                k >= 0,
                lead > 0,
        ;
        lemma_magnitude_increases(magnitude_of(u), big);
    }
}

/// A sum that is a double is not rounded.
pub proof fn lemma_plus_exact(a: Double, b: Double, sum: Double)
    requires
        a.finite(),
        b.finite(),
        sum.finite(),
        a.units() + b.units() == sum.units(),
    ensures
        a.plus(b).finite(),
        a.plus(b).units() == sum.units(),
{
    reveal(Double::plus);
    lemma_size(sum);
    let u = sum.size();
    lemma_finite_is_double(sum);
    law_rounding_is_nearest(u, 1, u);
    lemma_double_of_exact(sum.units() < 0, u);
    lemma_double_of(sum.units() < 0, u);
    lemma_magnitude_increases(sum.magnitude_bits(), INFINITE as int);
    if u == 0 {
        lemma_double_of(a.negative() && b.negative(), u);
        lemma_double_of_exact(a.negative() && b.negative(), u);
    }
    lemma_size(a.plus(b));
}

/// How far two integers are apart.
pub open spec fn apart(a: int, b: int) -> int {
    if a <= b {
        b - a
    } else {
        a - b
    }
}

/// Of all finite doubles, the one that a fraction is rounded to is nearest to it.
proof fn lemma_rounded_is_nearest(negative: bool, num: int, den: int, y: Double)
    requires
        0 <= num,
        0 < den,
        y.finite(),
        double_of(negative, nearest_units(num, den)).finite(),
    ensures
        ({
            let r = double_of(negative, nearest_units(num, den)).units();
            let exact = if negative {
                -num
            } else {
                num
            };
            apart(r * den, exact) <= apart(y.units() * den, exact)
        }),
{
    let near = nearest_units(num, den);
    let r = double_of(negative, near);
    let u = y.size();
    lemma_nearest_is_double(num, den);
    lemma_double_of(negative, near);
    lemma_double_of_exact(negative, near);
    lemma_size(r);
    lemma_size(y);
    lemma_finite_is_double(y);
    law_rounding_is_nearest(num, den, u);
    assert(is_double(0)) by {
        lemma2_to64();
        assert(0int % 1 == 0);
    }
    law_rounding_is_nearest(num, den, 0);
    assert(0 * den == 0 && (-near) * den == -(near * den) && (-u) * den == -(u * den)) by (nonlinear_arith);
    assert(u * den >= 0) by (nonlinear_arith)
        requires
            u >= 0,
            den > 0,
    ;
}

/// Of all finite doubles, a finite sum is nearest to the exact one.
pub proof fn lemma_sum_is_nearest(a: Double, b: Double, y: Double)
    requires
        a.finite(),
        b.finite(),
        a.plus(b).finite(),
        y.finite(),
    ensures
        apart(a.plus(b).units(), a.units() + b.units()) <= apart(y.units(), a.units() + b.units()),
{
    reveal(Double::plus);
    let exact = a.units() + b.units();
    if exact == 0 {
        lemma_double_of(a.negative() && b.negative(), 0);
        lemma_size(a.plus(b));
    } else if exact < 0 {
        lemma_rounded_is_nearest(true, -exact, 1, y);
    } else {
        lemma_rounded_is_nearest(false, exact, 1, y);
    }
}

/// A sum is the double that is nearest to it. A NaN makes it one.
pub proof fn law_sum_is_nearest(a: Double, b: Double, sum: Double, y: Double)
    requires
        call_ensures(Double::add, (&a, b), sum),
    ensures
        a.nan() || b.nan() ==> sum.nan(),
        a.finite() && b.finite() && sum.finite() && y.finite() ==> apart(sum.units(), a.units() + b.units()) <= apart(
            y.units(),
            a.units() + b.units(),
        ),
{
    reveal(Double::plus);
    if a.finite() && b.finite() && sum.finite() && y.finite() {
        lemma_sum_is_nearest(a, b, y);
    }
}

/// Taking a number off is adding it with the other sign.
pub proof fn law_difference_is_a_sum(a: Double, b: Double, minus: Double, difference: Double, sum: Double)
    requires
        call_ensures(Double::neg, (&b,), minus),
        call_ensures(Double::sub, (&a, b), difference),
        call_ensures(Double::add, (&a, minus), sum),
    ensures
        difference == sum,
        minus.units() == -b.units(),
{
}

proof fn lemma_signs(a: Double, b: Double)
    ensures
        a.size() >= 0,
        b.size() >= 0,
        a.size() * b.size() >= 0,
        a.units() * b.units() == (if a.negative() != b.negative() {
            -(a.size() * b.size())
        } else {
            a.size() * b.size()
        }),
{
    lemma_size(a);
    lemma_size(b);
    let (p, q) = (a.size(), b.size());
    assert(p * q >= 0 && (-p) * q == -(p * q) && p * (-q) == -(p * q) && (-p) * (-q) == p * q) by (nonlinear_arith)
        requires
            p >= 0,
            q >= 0,
    ;
}

/// A product is the double that is nearest to it.
pub proof fn law_product_is_nearest(a: Double, b: Double, product: Double, y: Double)
    requires
        call_ensures(Double::mul, (&a, b), product),
    ensures
        a.nan() || b.nan() ==> product.nan(),
        a.finite() && b.finite() && product.finite() && y.finite() ==> apart(
            product.units() * one(),
            a.units() * b.units(),
        ) <= apart(y.units() * one(), a.units() * b.units()),
{
    reveal(Double::times);
    if a.finite() && b.finite() && product.finite() && y.finite() {
        lemma_pow2_pos(1074);
        lemma_signs(a, b);
        lemma_rounded_is_nearest(a.negative() != b.negative(), a.size() * b.size(), one(), y);
    }
}

/// A quotient is the double that is nearest to it.
pub proof fn law_quotient_is_nearest(a: Double, b: Double, quotient: Double, y: Double)
    requires
        call_ensures(Double::div, (&a, b), quotient),
    ensures
        a.nan() || b.nan() ==> quotient.nan(),
        a.finite() && b.finite() && !b.zero() && quotient.finite() && y.finite() ==> apart(
            quotient.units() * b.units(),
            a.units() * one(),
        ) <= apart(y.units() * b.units(), a.units() * one()),
{
    reveal(Double::over);
    if a.finite() && b.finite() && !b.zero() && quotient.finite() && y.finite() {
        lemma_pow2_pos(1074);
        lemma_size(a);
        lemma_size(b);
        let (u, v, o) = (a.size(), b.size(), one());
        let negative = a.negative() != b.negative();
        assert(u * o >= 0 && (-u) * o == -(u * o)) by (nonlinear_arith)
            requires
                u >= 0,
                o > 0,
        ;
        lemma_rounded_is_nearest(negative, u * o, v, y);
        let (q, z) = (quotient.units(), y.units());
        assert(q * (-v) == -(q * v) && z * (-v) == -(z * v)) by (nonlinear_arith);
    }
}

/// A whole number below 2^53 is itself.
pub proof fn law_whole_numbers_are_exact(n: u64, x: Double)
    requires
        n < 2 * LEADING,
        call_ensures(Double::from_u64, (n,), x),
    ensures
        x.finite(),
        x.units() == n * one(),
{
    lemma_integer(n as nat);
}

/// Comparisons go by the numbers: a NaN is neither below nor at most anything.
pub proof fn law_comparisons(a: Double, b: Double, less: bool, least: bool)
    requires
        call_ensures(Double::lt, (&a, b), less),
        call_ensures(Double::le, (&a, b), least),
    ensures
        a.nan() || b.nan() ==> !less && !least,
        !a.nan() && !b.nan() ==> (less <==> a.units() < b.units()) && (least <==> a.units() <= b.units()),
{
}

/// A fraction that is nothing, or not subnormal, and of at most 2^100, is rounded to a
/// finite number that is off by one part in 2^53 at most.
pub proof fn lemma_rounded_error(num: int, den: int)
    requires
        0 < den,
        num == 0 || LEADING * den <= num <= (pow2(100) * one()) * den,
    ensures
        ({
            let r = double_of(false, nearest_units(num, den));
            &&& r.finite() && !r.negative()
            &&& r.units() >= 0
            &&& 0x20_0000_0000_0000 * apart(r.units() * den, num) <= num
        }),
{
    let near = nearest_units(num, den);
    let r = double_of(false, near);
    let top = Double { bits: 0x4630_0000_0000_0000 };
    let (m, lead) = (0x4630_0000_0000_0000int, LEADING as int);
    lemma2_to64();
    lemma2_to64_rest();
    assert(m / lead == 1123 && m % lead == 0);
    lemma_pow2_adds(52, 1122);
    lemma_pow2_adds(100, 1074);
    assert(top.size() == pow2(100) * one());
    lemma_finite_is_double(top);
    assert(LEADING * den >= 0) by (nonlinear_arith)
        requires
            den > 0,
    ;
    assert((pow2(100) * one()) * den >= 0) by (nonlinear_arith)
        requires
            den > 0,
            pow2(100) * one() == top.size(),
            top.size() == lead * pow2(1122),
            pow2(1122) >= 0,
            lead > 0,
    ;
    law_rounding_is_nearest(num, den, top.size());
    lemma_nearest_is_double(num, den);
    lemma_double_of(false, near);
    lemma_double_of_exact(false, near);
    lemma_magnitude_increases(top.magnitude_bits(), INFINITE as int);
    lemma_size(r);
    if num == 0 {
        assert(is_double(0)) by {
            assert(0int % 1 == 0);
        }
        law_rounding_is_nearest(0, den, 0);
        assert(0 * den == 0);
        assert(near == 0);
    } else {
        lemma_relative_error(num, den);
    }
}

/// The largest finite number, in units.
pub open spec fn largest() -> int {
    magnitude_units(0x7fef_ffff_ffff_ffff)
}

/// A fraction that is no more than the largest number is rounded to a finite one.
proof fn lemma_rounded_is_finite(negative: bool, num: int, den: int)
    requires
        0 <= num,
        0 < den,
    ensures
        ({
            let r = double_of(negative, nearest_units(num, den));
            &&& !r.nan()
            &&& r.negative() == negative
            &&& num <= largest() * den ==> r.finite()
            &&& num == 0 ==> r.zero()
        }),
{
    let near = nearest_units(num, den);
    let top = Double { bits: 0x7fef_ffff_ffff_ffff };
    lemma_finite_is_double(top);
    lemma_nearest_is_double(num, den);
    law_rounding_is_nearest(num, den, top.size());
    lemma_double_of(negative, near);
    lemma_double_of_exact(negative, near);
    lemma_magnitude_increases(top.magnitude_bits(), INFINITE as int);
    lemma_size(double_of(negative, near));
    if num == 0 {
        lemma2_to64();
        assert(is_double(0)) by {
            assert(0int % 1 == 0);
        }
        law_rounding_is_nearest(0, den, 0);
        assert(0 * den == 0);
    }
}

/// What is not a number stays so; what is infinite stays so, unless two that are opposite
/// meet. A sum of finite numbers is finite when it can be, and has its own sign; a sum of
/// nothing is negative only where both terms are.
pub proof fn law_sums_without_bounds(a: Double, b: Double, sum: Double)
    requires
        call_ensures(Double::add, (&a, b), sum),
    ensures
        a.nan() || b.nan() ==> sum.nan(),
        a.infinite() && b.infinite() ==> (if a.negative() == b.negative() {
            sum == a
        } else {
            sum.nan()
        }),
        a.infinite() && b.finite() ==> sum == a,
        a.finite() && b.infinite() ==> sum == b,
        a.finite() && b.finite() ==> {
            let exact = a.units() + b.units();
            &&& !sum.nan()
            &&& -largest() <= exact <= largest() ==> sum.finite()
            &&& exact == 0 ==> sum.zero() && sum.negative() == (a.negative() && b.negative())
            &&& exact != 0 ==> sum.negative() == (exact < 0)
        },
{
    reveal(Double::plus);
    let exact = a.units() + b.units();
    let size = if exact < 0 {
        -exact
    } else {
        exact
    };
    lemma_rounded_is_finite(exact < 0, size, 1);
    let none = a.negative() && b.negative();
    lemma_double_of(none, 0);
    lemma_size(double_of(none, 0));
}

/// A product of what is not a number is none, and so is one of nothing and what is
/// infinite. It is negative where one factor is, and finite when it can be.
pub proof fn law_products_without_bounds(a: Double, b: Double, product: Double)
    requires
        call_ensures(Double::mul, (&a, b), product),
    ensures
        a.nan() || b.nan() ==> product.nan(),
        a.infinite() && b.zero() || a.zero() && b.infinite() ==> product.nan(),
        a.infinite() && !b.zero() && !b.nan() || b.infinite() && !a.zero() && !a.nan() ==> product.infinite()
            && product.negative() == (a.negative() != b.negative()),
        a.finite() && b.finite() ==> {
            &&& !product.nan()
            &&& product.negative() == (a.negative() != b.negative())
            &&& a.size() * b.size() <= largest() * one() ==> product.finite()
            &&& a.zero() || b.zero() ==> product.zero()
        },
{
    reveal(Double::times);
    lemma_pow2_pos(1074);
    lemma_signs(a, b);
    lemma_size(a);
    lemma_size(b);
    if a.zero() || b.zero() {
        assert(a.size() * b.size() == 0) by (nonlinear_arith)
            requires
                a.size() == 0 || b.size() == 0,
        ;
    }
    lemma_rounded_is_finite(a.negative() != b.negative(), a.size() * b.size(), one());
}

/// A quotient of what is not a number is none, and so is one of nothing by nothing or of
/// what is infinite by what is infinite. It is negative where one of the two is, infinite
/// by nothing, nothing by what is infinite, and finite when it can be.
pub proof fn law_quotients_without_bounds(a: Double, b: Double, quotient: Double)
    requires
        call_ensures(Double::div, (&a, b), quotient),
    ensures
        a.nan() || b.nan() ==> quotient.nan(),
        a.infinite() && b.infinite() || a.zero() && b.zero() ==> quotient.nan(),
        a.infinite() && b.finite() || a.finite() && !a.zero() && b.zero() ==> quotient.infinite()
            && quotient.negative() == (a.negative() != b.negative()),
        a.finite() && b.infinite() ==> quotient.zero() && quotient.negative() == (a.negative() != b.negative()),
        a.finite() && b.finite() && !b.zero() ==> {
            &&& !quotient.nan()
            &&& quotient.negative() == (a.negative() != b.negative())
            &&& a.size() * one() <= largest() * b.size() ==> quotient.finite()
            &&& a.zero() ==> quotient.zero()
        },
{
    reveal(Double::over);
    lemma_pow2_pos(1074);
    lemma_size(a);
    lemma_size(b);
    let negative = a.negative() != b.negative();
    lemma_double_of(negative, 0);
    lemma_size(double_of(negative, 0));
    let num = a.size() * one();
    assert(num >= 0 && (a.size() == 0 ==> num == 0)) by (nonlinear_arith)
        requires
            num == a.size() * one(),
            a.size() >= 0,
            one() > 0,
    ;
    if b.size() > 0 {
        lemma_rounded_is_finite(negative, num, b.size());
    }
}

/// What is left of one double after another is taken off as often as it goes is a double.
proof fn lemma_rest_is_double(u: int, v: int)
    requires
        is_double(u),
        is_double(v),
        0 < v,
    ensures
        is_double(u % v),
        0 <= u % v < v,
        u % v <= u,
{
    let m = u % v;
    lemma_fundamental_div_mod(u, v);
    vstd::arithmetic::div_mod::lemma_mod_bound(u, v);
    vstd::arithmetic::div_mod::lemma_div_pos_is_pos(u, v);
    let b = u / v;
    assert(v * b >= 0) by (nonlinear_arith)
        requires
            v > 0,
            b >= 0,
    ;
    if u < v {
        vstd::arithmetic::div_mod::lemma_small_mod(u as nat, v as nat);
    } else {
        let (k, l) = (level(v), level(u));
        lemma_level_ordered(v, u);
        let (g, c) = (pow2(k) as int, pow2((l - k) as nat) as int);
        lemma_pow2_adds(k, (l - k) as nat);
        lemma_pow2_pos(k);
        lemma_pow2_pos(l);
        lemma_fundamental_div_mod(u, pow2(l) as int);
        lemma_fundamental_div_mod(v, g);
        let (a, w) = (u / pow2(l) as int, v / g);
        let q = a * c - w * b;
        assert(m == q * g) by (nonlinear_arith)
            requires
                u == (g * c) * a,
                v == g * w,
                u == v * b + m,
                q == a * c - w * b,
        ;
        lemma_level_bounds(v);
        lemma_pow2_adds(53, k);
        lemma2_to64_rest();
        assert(0 <= q < 2 * LEADING) by (nonlinear_arith)
            requires
                m == q * g,
                0 <= m < (2 * LEADING) * g,
                g > 0,
        ;
        lemma_multiple_is_double(q, k);
    }
}

/// A multiple of a power of two that 53 bits can hold is a double.
proof fn lemma_multiple_is_double(q: int, k: nat)
    requires
        0 <= q < 2 * LEADING,
    ensures
        is_double(q * pow2(k)),
{
    lemma_nearest_exact(q, k);
    lemma_pow2_pos(k);
    assert(q * pow2(k) >= 0) by (nonlinear_arith)
        requires
            q >= 0,
            pow2(k) > 0,
    ;
    lemma_nearest_is_double(q * pow2(k), 1);
}

/// What is left over is exact: the first number, less as many of the second as make it
/// smaller than that, with the sign of the first.
pub proof fn law_remainder_is_exact(a: Double, b: Double, r: Double)
    requires
        call_ensures(Double::rem, (&a, b), r),
    ensures
        a.nan() || b.nan() || a.infinite() || b.zero() ==> r.nan(),
        a.finite() && b.infinite() ==> r == a,
        a.finite() && b.finite() && !b.zero() ==> {
            &&& r.finite()
            &&& r.negative() == a.negative()
            &&& r.size() < b.size()
            &&& (a.size() - r.size()) % b.size() == 0
            &&& r.size() <= a.size()
        },
{
    reveal(Double::remainder);
    if a.finite() && b.finite() && !b.zero() {
        let (u, v) = (a.size(), b.size());
        let m = u % v;
        lemma_size(a);
        lemma_size(b);
        lemma_finite_is_double(a);
        lemma_finite_is_double(b);
        lemma_rest_is_double(u, v);
        lemma_double_of(a.negative(), m);
        lemma_double_of_exact(a.negative(), m);
        lemma_magnitude_increases(a.magnitude_bits(), INFINITE as int);
        lemma_fundamental_div_mod(u, v);
        lemma_fundamental_div_mod_converse(u - m, v, u / v, 0);
    }
}

/// Of all doubles, the one that is made of an integer is nearest to it.
pub proof fn law_integers_are_nearest(n: u64, x: Double, y: Double)
    requires
        call_ensures(Double::from_u64, (n,), x),
    ensures
        x.finite(),
        !x.negative(),
        y.finite() ==> apart(x.units(), n * one()) <= apart(y.units(), n * one()),
{
    reveal(integer);
    let o = one();
    let num = n * o;
    lemma_pow2_pos(1074);
    let top = Double { bits: 0x4630_0000_0000_0000 };
    let (m, lead) = (0x4630_0000_0000_0000int, LEADING as int);
    lemma2_to64();
    lemma2_to64_rest();
    assert(m / lead == 1123 && m % lead == 0);
    lemma_pow2_adds(52, 1122);
    lemma_pow2_adds(100, 1074);
    lemma_pow2_adds(64, 36);
    lemma_magnitude_increases(top.magnitude_bits(), 0x7fef_ffff_ffff_ffff);
    assert(0 <= num <= pow2(100) * o) by (nonlinear_arith)
        requires
            num == n * o,
            0 <= n < 0x1_0000_0000_0000_0000,
            pow2(100) == 0x1_0000_0000_0000_0000 * 0x10_0000_0000,
            o > 0,
    ;
    lemma_rounded_is_finite(false, num, 1);
    if y.finite() {
        lemma_rounded_is_nearest(false, num, 1, y);
    }
}

/// The kinds of numbers are told by their encodings.
pub proof fn law_kinds_of_numbers(x: Double, nan: bool, negative: bool, infinite: bool, zero: bool)
    requires
        call_ensures(Double::is_nan, (&x,), nan),
        call_ensures(Double::is_negative, (&x,), negative),
        call_ensures(Double::is_infinite, (&x,), infinite),
        call_ensures(Double::is_zero, (&x,), zero),
    ensures
        nan <==> x.bits as int % 0x8000_0000_0000_0000 > 0x7ff0_0000_0000_0000,
        infinite <==> x.bits as int % 0x8000_0000_0000_0000 == 0x7ff0_0000_0000_0000,
        zero <==> x.bits as int % 0x8000_0000_0000_0000 == 0,
        negative <==> x.bits >= 0x8000_0000_0000_0000,
        zero ==> x.units() == 0,
{
    lemma_size(x);
}

} // verus!
