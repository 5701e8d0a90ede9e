//! Floating-point numbers held by their bit patterns.
//!
//! A number that a camera, a solver or a catalog reported is carried as the bits
//! of its IEEE 754 encoding. What this crate decides about such a number (is it
//! inside the frame, is it brighter, does the field reach that far) is decided on
//! those bits, and the contracts speak of the number that the bits stand for.

use vstd::arithmetic::power2::{lemma2_to64, lemma_pow2_adds, lemma_pow2_pos, lemma_pow2_strictly_increases, pow2};
use vstd::prelude::*;

verus! {

/// 2^52, the weight of the leading bit of a double's significand.
pub const LEADING: u64 = 0x10_0000_0000_0000;

/// 2^63, the weight of a double's sign bit.
pub const SIGN: u64 = 0x8000_0000_0000_0000;

/// The encoding of positive infinity. What lies above it is a NaN.
pub const INFINITE: u64 = 0x7ff0_0000_0000_0000;

/// 2^31, the weight of a single's sign bit.
pub const SINGLE_SIGN: u32 = 0x8000_0000;

/// A double-precision number, as the bits of its IEEE 754 encoding.
#[derive(Clone, Copy, Debug, PartialEq, Eq, Structural)]
pub struct Double {
    pub bits: u64,
}

/// The magnitude that the low 63 bits of a double stand for, in units of 2^-1074
/// (the smallest positive double). The encoding of infinity is given the value
/// that follows the largest finite double.
pub open spec fn magnitude_units(m: int) -> int {
    let exponent = m / LEADING as int;
    let fraction = m % LEADING as int;
    if exponent == 0 {
        fraction
    } else {
        (LEADING as int + fraction) * pow2((exponent - 1) as nat) as int
    }
}

/// How many units of 2^-1074 make one.
pub open spec fn one() -> int {
    pow2(1074) as int
}

impl Double {
    /// The low 63 bits: everything but the sign.
    pub open spec fn magnitude_bits(self) -> int {
        self.bits as int % SIGN as int
    }

    pub open spec fn nan(self) -> bool {
        self.magnitude_bits() > INFINITE
    }

    pub open spec fn infinite(self) -> bool {
        self.magnitude_bits() == INFINITE
    }

    /// The number these bits stand for, in units of 2^-1074. Meaningless for a NaN.
    pub open spec fn units(self) -> int {
        if self.bits >= SIGN {
            -magnitude_units(self.magnitude_bits())
        } else {
            magnitude_units(self.magnitude_bits())
        }
    }

    /// `self < other` between floating-point numbers: false when either is a NaN.
    pub open spec fn below(self, other: Double) -> bool {
        !self.nan() && !other.nan() && self.units() < other.units()
    }

    /// `self <= other` between floating-point numbers: false when either is a NaN.
    pub open spec fn at_most(self, other: Double) -> bool {
        !self.nan() && !other.nan() && self.units() <= other.units()
    }

    /// The same number with the other sign.
    pub open spec fn negation(self) -> Double {
        if self.bits >= SIGN {
            Double { bits: (self.bits - SIGN) as u64 }
        } else {
            Double { bits: (self.bits + SIGN) as u64 }
        }
    }
}

/// Doubles of one sign are ordered as their encodings are.
pub proof fn lemma_magnitude_increases(a: int, b: int)
    requires
        0 <= a < b < SIGN as int,
    ensures
        0 <= magnitude_units(a) < magnitude_units(b),
{
    let lead = LEADING as int;
    let ea = a / lead;
    let eb = b / lead;
    let fa = a % lead;
    let fb = b % lead;
    assert(0 <= fa < lead && 0 <= fb < lead && a == ea * lead + fa && b == eb * lead + fb && 0
        <= ea <= eb) by (nonlinear_arith)
        requires
            0 <= a < b,
            lead == 0x10_0000_0000_0000,
            ea == a / lead,
            eb == b / lead,
            fa == a % lead,
            fb == b % lead,
    ;
    lemma2_to64();
    if ea == eb {
        assert(fa < fb);
        if ea > 0 {
            let p = pow2((ea - 1) as nat) as int;
            assert(p > 0) by {
                lemma_pow2_pos((ea - 1) as nat);
            }
            assert(0 <= (lead + fa) * p < (lead + fb) * p) by (nonlinear_arith)
                requires
                    0 <= fa < fb,
                    p > 0,
                    lead > 0,
            ;
        }
    } else {
        let pb = pow2((eb - 1) as nat) as int;
        lemma_pow2_pos((eb - 1) as nat);
        assert(lead * pb <= (lead + fb) * pb) by (nonlinear_arith)
            requires
                0 <= fb,
                pb > 0,
        ;
        if ea == 0 {
            assert(fa < lead * pb) by (nonlinear_arith)
                requires
                    fa < lead,
                    pb >= 1,
                    lead > 0,
            ;
        } else {
            let pa = pow2((ea - 1) as nat) as int;
            lemma_pow2_pos((ea - 1) as nat);
            // Twice the lower power is at most the higher one.
            lemma_pow2_adds((ea - 1) as nat, 1);
            if ea < eb - 1 {
                lemma_pow2_strictly_increases(ea as nat, (eb - 1) as nat);
            }
            assert(2 * pa <= pb);
            assert(0 <= (lead + fa) * pa < lead * pb) by (nonlinear_arith)
                requires
                    0 <= fa < lead,
                    pa > 0,
                    2 * pa <= pb,
                    lead > 0,
            ;
        }
    }
}

/// The order of two doubles can be read off their encodings: of two numbers that
/// are not NaN, the signed low bits compare as the numbers do.
proof fn lemma_key_orders(a: Double, b: Double)
    ensures
        (a.key() < b.key()) == (a.units() < b.units()),
        (a.key() <= b.key()) == (a.units() <= b.units()),
{
    let x = a.magnitude_bits();
    let y = b.magnitude_bits();
    assert(magnitude_units(0) == 0) by {
        assert(0int / LEADING as int == 0 && 0int % LEADING as int == 0);
    }
    if 0 < x {
        lemma_magnitude_increases(0, x);
    }
    if 0 < y {
        lemma_magnitude_increases(0, y);
    }
    if x < y {
        lemma_magnitude_increases(x, y);
    } else if y < x {
        lemma_magnitude_increases(y, x);
    }
}

impl Double {
    /// The low bits with the sign in front: an integer that orders as the number.
    pub open spec fn key(self) -> int {
        if self.bits >= SIGN {
            -self.magnitude_bits()
        } else {
            self.magnitude_bits()
        }
    }

    fn order_key(&self) -> (k: i64)
        ensures
            k == self.key(),
    {
        let m: u64 = self.bits % SIGN;
        if self.bits >= SIGN {
            -(m as i64)
        } else {
            m as i64
        }
    }

    pub fn is_nan(&self) -> (b: bool)
        ensures
            b == self.nan(),
    {
        self.bits % SIGN > INFINITE
    }

    pub fn lt(&self, other: Double) -> (b: bool)
        ensures
            b == self.below(other),
    {
        proof {
            lemma_key_orders(*self, other);
        }
        !self.is_nan() && !other.is_nan() && self.order_key() < other.order_key()
    }

    pub fn le(&self, other: Double) -> (b: bool)
        ensures
            b == self.at_most(other),
    {
        proof {
            lemma_key_orders(*self, other);
        }
        !self.is_nan() && !other.is_nan() && self.order_key() <= other.order_key()
    }

    /// `-self`: the sign bit is flipped, for a NaN too.
    pub fn neg(&self) -> (r: Double)
        ensures
            r == self.negation(),
            r.nan() == self.nan(),
            r.units() == -self.units(),
    {
        if self.bits >= SIGN {
            Double { bits: self.bits - SIGN }
        } else {
            Double { bits: self.bits + SIGN }
        }
    }
}

/// A single-precision number, as the bits of its IEEE 754 encoding.
#[derive(Clone, Copy, Debug, PartialEq, Eq, Structural)]
pub struct Single {
    pub bits: u32,
}

impl Single {
    /// Where the number stands in the IEEE 754 total order, which runs from the
    /// negative NaNs over the negative numbers, -0, +0 and the positive numbers to
    /// the positive NaNs.
    pub open spec fn rank(self) -> int {
        if self.bits >= SINGLE_SIGN {
            SINGLE_SIGN as int - 1 - self.bits
        } else {
            self.bits as int
        }
    }

    pub fn order_rank(&self) -> (r: i64)
        ensures
            r == self.rank(),
    {
        if self.bits >= SINGLE_SIGN {
            SINGLE_SIGN as i64 - 1 - self.bits as i64
        } else {
            self.bits as i64
        }
    }
}

} // verus!
