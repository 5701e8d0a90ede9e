//! Between single and double precision.

use vstd::arithmetic::power2::{lemma2_to64, lemma2_to64_rest, lemma_pow2_adds, lemma_pow2_pos, lemma_pow2_strictly_increases, pow2};
use vstd::prelude::*;

use crate::arithmetic::{infinity, lemma_double_of, lemma_double_of_exact, lemma_size, NOT_A_NUMBER};
use crate::number::{magnitude_units, Double, Single, INFINITE, LEADING, SIGN, SINGLE_SIGN};
use crate::rounding::{double_of, lemma_nearest_exact, lemma_nearest_is_double, lemma_round_scales, lemma_round_whole, lemma_whole, power_of_two, round, round_half_even};

verus! {

/// 2^23, the weight of the leading bit of a single's significand.
pub const SINGLE_LEADING: u32 = 0x80_0000;

/// The encoding of a single's positive infinity. What lies above it is a NaN.
pub const SINGLE_INFINITE: u32 = 0x7f80_0000;

/// The encoding of a single's quiet NaN.
pub const SINGLE_NOT_A_NUMBER: u32 = 0x7fc0_0000;

/// The magnitude that the low 31 bits of a single stand for, in units of 2^-149
/// (the smallest positive single).
pub open spec fn single_units(m: int) -> int {
    let exponent = m / SINGLE_LEADING as int;
    let fraction = m % SINGLE_LEADING as int;
    if exponent == 0 {
        fraction
    } else {
        (SINGLE_LEADING as int + fraction) * pow2((exponent - 1) as nat) as int
    }
}

/// How many times `n` must be halved to fall below 2^24: the singles next to `n`
/// units are `2^single_level(n)` units apart.
pub open spec fn single_level(n: int) -> nat
    decreases n,
{
    if n < 2 * SINGLE_LEADING {
        0
    } else {
        1 + single_level(n / 2)
    }
}

impl Single {
    /// The low 31 bits: everything but the sign.
    pub open spec fn magnitude_bits(self) -> int {
        self.bits as int % SINGLE_SIGN as int
    }

    /// The same number in double precision. Nothing is rounded.
    pub open spec fn widened(self) -> Double {
        let negative = self.bits >= SINGLE_SIGN;
        if self.magnitude_bits() > SINGLE_INFINITE {
            Double { bits: NOT_A_NUMBER }
        } else if self.magnitude_bits() == SINGLE_INFINITE {
            infinity(negative)
        } else {
            double_of(negative, single_units(self.magnitude_bits()) * pow2(925))
        }
    }

    /// In double precision.
    pub fn widen(&self) -> (r: Double)
        ensures
            r == self.widened(),
    {
        let negative: bool = self.bits >= SINGLE_SIGN;
        let low: u32 = self.bits % SINGLE_SIGN;
        if low > SINGLE_INFINITE {
            return Double { bits: NOT_A_NUMBER };
        }
        if low == SINGLE_INFINITE {
            return if negative {
                Double { bits: INFINITE + SIGN }
            } else {
                Double { bits: INFINITE }
            };
        }
        let exponent: u32 = low / SINGLE_LEADING;
        let fraction: u32 = low % SINGLE_LEADING;
        let (m, x): (u32, u32) = if exponent == 0 {
            (fraction, 0)
        } else {
            (SINGLE_LEADING + fraction, exponent - 1)
        };
        let ghost u = single_units(low as int) * pow2(925);
        proof {
            lemma2_to64();
            lemma_pow2_adds(x as nat, 925);
            assert(single_units(low as int) == m * pow2(x as nat)) by (nonlinear_arith)
                requires
                    single_units(low as int) == (if exponent == 0 { m as int } else { m * pow2(x as nat) }),
                    exponent == 0 ==> pow2(x as nat) == 1,
            ;
            assert(u == m * pow2((x + 925) as nat)) by (nonlinear_arith)
                requires
                    u == (m * pow2(x as nat)) * pow2(925),
                    pow2((x + 925) as nat) == pow2(x as nat) * pow2(925),
            ;
            lemma_whole(m as int, x + 925);
            lemma_nearest_exact(m as int, (x + 925) as nat);
        }
        round(negative, m as u128, x as i64 + 925, false, Ghost(u), Ghost(1))
    }
}

/// A number of double units (2^-1074), rounded to single precision: the encoding of
/// the nearest single, a tie going to the even significand, and infinity where it is
/// too large.
pub open spec fn single_bits(u: int) -> int {
    let k = single_level(u / pow2(925) as int);
    let b = k * SINGLE_LEADING + round_half_even(u, pow2((925 + k) as nat) as int);
    if b < SINGLE_INFINITE {
        b
    } else {
        SINGLE_INFINITE as int
    }
}

proof fn lemma_single_level(n: int, k: nat)
    requires
        0 <= n < pow2(24 + k),
        k > 0 ==> pow2(23 + k) <= n,
    ensures
        single_level(n) == k,
    decreases k,
{
    lemma2_to64();
    if k > 0 {
        lemma_pow2_adds(23 + (k - 1) as nat, 1);
        lemma_pow2_adds(24 + (k - 1) as nat, 1);
        if k > 1 {
            lemma_pow2_strictly_increases(24, (23 + k) as nat);
        }
        lemma_single_level(n / 2, (k - 1) as nat);
    }
}

/// The level of a double, and its rounding at that level, from its significand and
/// exponent.
proof fn lemma_narrow(m: int, x: nat)
    requires
        0 <= m < 2 * LEADING,
        x > 0 ==> LEADING <= m,
    ensures
        ({
            let u = m * pow2(x);
            let k = single_level(u / pow2(925) as int);
            &&& 0 <= u
            &&& x >= 897 ==> k == x - 896 && round_half_even(u, pow2((925 + k) as nat) as int) == round_half_even(
                m,
                0x2000_0000,
            )
            &&& x < 897 ==> k == 0 && round_half_even(u, pow2((925 + k) as nat) as int) == round_half_even(
                m,
                pow2((925 - x) as nat) as int,
            )
        }),
{
    let p = pow2(x) as int;
    let u = m * p;
    let d = pow2(925) as int;
    lemma2_to64();
    lemma2_to64_rest();
    lemma_pow2_pos(x);
    lemma_pow2_pos(925);
    assert(0 <= u < (2 * LEADING) * p) by (nonlinear_arith)
        requires
            0 <= m < 2 * LEADING,
            u == m * p,
            0 < p,
    ;
    if x >= 897 {
        let k = (x - 896) as nat;
        let low = pow2(23 + k) as int;
        let high = pow2(24 + k) as int;
        lemma_pow2_adds(52, x);
        lemma_pow2_adds(53, x);
        lemma_pow2_adds(23 + k, 925);
        lemma_pow2_adds(24 + k, 925);
        assert(LEADING * p <= u) by (nonlinear_arith)
            requires
                LEADING <= m,
                u == m * p,
                0 < p,
        ;
        assert(low <= u / d < high) by (nonlinear_arith)
            requires
                low * d <= u < high * d,
                0 < d,
        ;
        lemma_single_level(u / d, k);
        lemma_pow2_adds(29, x);
        assert(pow2((925 + k) as nat) == 0x2000_0000 * p);
        lemma_round_scales(m, 0x2000_0000, p);
    } else {
        if x < 896 {
            lemma_pow2_strictly_increases(x, 896);
        }
        lemma_pow2_adds(53, 896);
        lemma_pow2_adds(24, 925);
        let top = pow2(896) as int;
        assert((2 * LEADING) * p <= (2 * LEADING) * top) by (nonlinear_arith)
            requires
                p <= top,
        ;
        let n24 = 0x100_0000int;
        assert(u / d < n24) by (nonlinear_arith)
            requires
                u < n24 * d,
                0 < d,
        ;
        lemma_pow2_pos((925 - x) as nat);
        lemma_pow2_adds((925 - x) as nat, x);
        lemma_round_scales(m, pow2((925 - x) as nat) as int, p);
    }
}

fn round_shift(m: u64, shift: u64) -> (q: u64)
    requires
        m < 2 * LEADING,
        0 < shift,
    ensures
        q == round_half_even(m as int, pow2(shift as nat) as int),
        q <= m,
{
    proof {
        lemma2_to64();
        lemma2_to64_rest();
        lemma_pow2_pos(shift as nat);
    }
    if shift > 54 {
        proof {
            lemma_pow2_strictly_increases(54, shift as nat);
            vstd::arithmetic::div_mod::lemma_basic_div(m as int, pow2(shift as nat) as int);
            vstd::arithmetic::div_mod::lemma_small_mod(m as nat, pow2(shift as nat));
        }
        return 0;
    }
    let den: u128 = power_of_two(shift);
    proof {
        if shift < 54 {
            lemma_pow2_strictly_increases(shift as nat, 54);
        }
        if shift > 1 {
            lemma_pow2_strictly_increases(1, shift as nat);
        }
    }
    let quotient: u64 = m / den as u64;
    let rest: u64 = m % den as u64;
    let ghost d = den as int;
    proof {
        vstd::arithmetic::div_mod::lemma_fundamental_div_mod(m as int, d);
        assert(2 * quotient <= m) by (nonlinear_arith)
            requires
                m == d * quotient + rest,
                d >= 2,
                rest >= 0,
                quotient >= 0,
        ;
    }
    if 2 * rest < den as u64 || (2 * rest == den as u64 && quotient % 2 == 0) {
        quotient
    } else {
        quotient + 1
    }
}

impl Double {
    /// In single precision.
    pub open spec fn narrowed(self) -> Single {
        let negative = self.bits >= SIGN;
        let m = if self.nan() {
            SINGLE_NOT_A_NUMBER as int
        } else if self.infinite() {
            SINGLE_INFINITE as int
        } else {
            single_bits(self.size())
        };
        Single {
            bits: (if negative && !self.nan() {
                m + SINGLE_SIGN
            } else {
                m
            }) as u32,
        }
    }

    /// Rounds to single precision, as a cast does.
    pub fn narrow(&self) -> (r: Single)
        ensures
            r == self.narrowed(),
    {
        if self.is_nan() {
            return Single { bits: SINGLE_NOT_A_NUMBER };
        }
        let mut magnitude: u32 = SINGLE_INFINITE;
        if !self.is_infinite() {
            let (m, x) = self.split();
            let shift: u64 = if x >= 897 {
                29
            } else {
                (925 - x) as u64
            };
            let level: u64 = if x >= 897 {
                (x - 896) as u64
            } else {
                0
            };
            let q: u64 = round_shift(m, shift);
            proof {
                lemma2_to64();
                lemma_narrow(m as int, x as nat);
            }
            let b: u64 = level * 0x80_0000 + q;
            if b < SINGLE_INFINITE as u64 {
                magnitude = b as u32;
            }
        }
        if self.is_negative() {
            Single { bits: magnitude + SINGLE_SIGN }
        } else {
            Single { bits: magnitude }
        }
    }
}

/// A single is a double: nothing is lost on the way to double precision and back.
pub proof fn law_narrow_undoes_widen(s: Single)
    requires
        s.magnitude_bits() <= SINGLE_INFINITE,
    ensures
        s.widened().narrowed() == s,
{
    let low = s.magnitude_bits();
    let negative = s.bits >= SINGLE_SIGN;
    if low < SINGLE_INFINITE {
        let lead = SINGLE_LEADING as int;
        let exponent = low / lead;
        let m = if exponent == 0 {
            low
        } else {
            lead + low % lead
        };
        let x = (if exponent == 0 {
            0
        } else {
            exponent - 1
        }) as nat;
        lemma2_to64();
        lemma2_to64_rest();
        assert(low == x * lead + m);
        let p = pow2(x) as int;
        lemma_pow2_pos(x);
        let v = m * p;
        assert(v == single_units(low)) by (nonlinear_arith)
            requires
                v == m * p,
                single_units(low) == (if exponent == 0 { m } else { m * p }),
                exponent == 0 ==> p == 1,
        ;
        let d = pow2(925) as int;
        lemma_pow2_pos(925);
        lemma_pow2_adds(x, 925);
        let g = pow2((x + 925) as nat) as int;
        assert(v * d == m * g) by (nonlinear_arith)
            requires
                v == m * p,
                g == p * d,
        ;
        lemma_pow2_pos((x + 925) as nat);
        lemma_nearest_exact(m, (x + 925) as nat);
        lemma_nearest_is_double(m * g, 1);
        lemma_double_of(negative, v * d);
        lemma_double_of_exact(negative, v * d);
        // Far below a double's range.
        assert(v * d < magnitude_units(INFINITE as int)) by {
            assert(INFINITE as int / LEADING as int == 2047 && INFINITE as int % LEADING as int == 0);
            lemma_pow2_strictly_increases((x + 925) as nat, 2046);
            let h = pow2(2046) as int;
            assert(m * g < LEADING as int * h) by (nonlinear_arith)
                requires
                    0 <= m < LEADING as int,
                    0 < g < h,
            ;
        }
        vstd::arithmetic::div_mod::lemma_div_by_multiple(v, d);
        assert(v * d / d == v);
        lemma_pow2_adds(23, x);
        lemma_pow2_adds(24, x);
        assert(0 <= v < 0x100_0000 * p) by (nonlinear_arith)
            requires
                v == m * p,
                0 <= m < 0x100_0000,
                0 < p,
        ;
        if x > 0 {
            assert(0x80_0000 * p <= v) by (nonlinear_arith)
                requires
                    v == m * p,
                    0x80_0000 <= m,
                    0 < p,
            ;
        }
        lemma_single_level(v, x);
        assert(1 * g == g);
        lemma_round_scales(m, 1, g);
        lemma_round_whole(m);
    }
}

pub proof fn lemma_single_level_bounds(n: int)
    requires
        0 <= n,
    ensures
        n < pow2((24 + single_level(n)) as nat),
        single_level(n) > 0 ==> pow2((23 + single_level(n)) as nat) <= n,
    decreases n,
{
    lemma2_to64();
    if n >= 2 * SINGLE_LEADING {
        lemma_single_level_bounds(n / 2);
        let k = single_level(n / 2);
        lemma_pow2_adds(24 + k, 1);
        lemma_pow2_adds((23 + k) as nat, 1);
    }
}

/// A significand of at most 24 bits, or the power of two that rounding carried it to,
/// is encoded beside its level.
proof fn lemma_single_units(q: int, k: nat)
    requires
        0 <= q <= 2 * SINGLE_LEADING,
        k > 0 ==> SINGLE_LEADING <= q,
    ensures
        single_units(k * SINGLE_LEADING + q) == q * pow2(k),
{
    let lead = SINGLE_LEADING as int;
    let p = pow2(k) as int;
    let b = k * lead + q;
    lemma2_to64();
    if q < lead {
        assert(b / lead == 0 && b % lead == q);
        assert(q * p == q) by (nonlinear_arith)
            requires
                p == 1,
        ;
    } else if q < 2 * lead {
        assert(b == (k + 1) * lead + (q - lead)) by (nonlinear_arith)
            requires
                b == k * lead + q,
        ;
        vstd::arithmetic::div_mod::lemma_fundamental_div_mod_converse(b, lead, k as int + 1, q - lead);
    } else {
        assert(b == (k + 2) * lead) by (nonlinear_arith)
            requires
                b == k * lead + q,
                q == 2 * lead,
        ;
        vstd::arithmetic::div_mod::lemma_fundamental_div_mod_converse(b, lead, k as int + 2, 0);
        lemma_pow2_adds(k, 1);
        assert(lead * pow2(k + 1) == q * p) by (nonlinear_arith)
            requires
                pow2(k + 1) == p * 2,
                q == 2 * lead,
        ;
    }
}

/// Narrowing finds the nearest single: what it is off by is at most half of what lies
/// between two singles, where it does not end in infinity. In units of 2^-1074.
pub proof fn law_narrow_is_nearest(x: Double)
    requires
        x.finite(),
        x.narrowed().magnitude_bits() < SINGLE_INFINITE,
    ensures
        ({
            let u = x.size();
            let v = single_units(x.narrowed().magnitude_bits()) * pow2(925);
            let gap = pow2((925 + single_level(u / pow2(925) as int)) as nat);
            -gap <= 2 * (v - u) <= gap
        }),
{
    let u = x.size();
    lemma_size(x);
    let d = pow2(925) as int;
    lemma_pow2_pos(925);
    let n = u / d;
    vstd::arithmetic::div_mod::lemma_div_pos_is_pos(u, d);
    vstd::arithmetic::div_mod::lemma_fundamental_div_mod(u, d);
    let k = single_level(n);
    lemma_single_level_bounds(n);
    let g = pow2((925 + k) as nat) as int;
    let p = pow2(k) as int;
    lemma_pow2_pos((925 + k) as nat);
    lemma_pow2_adds(k, 925);
    lemma2_to64();
    lemma_pow2_adds(24, k);
    lemma_pow2_adds(23, k);
    let q0 = u / g;
    let rest = u % g;
    vstd::arithmetic::div_mod::lemma_fundamental_div_mod(u, g);
    let q = round_half_even(u, g);
    // The quotient has 24 bits, or fewer at level zero.
    assert(u < (0x100_0000 * p) * d) by (nonlinear_arith)
        requires
            u == d * n + u % d,
            u % d < d,
            n < 0x100_0000 * p,
            d > 0,
    ;
    assert((0x100_0000 * p) * d == 0x100_0000 * g) by (nonlinear_arith)
        requires
            g == p * d,
    ;
    assert(0 <= q0 < 0x100_0000) by (nonlinear_arith)
        requires
            u == g * q0 + rest,
            0 <= rest,
            0 <= u < 0x100_0000 * g,
            rest < g,
            g > 0,
    ;
    if k > 0 {
        assert(u >= (0x80_0000 * p) * d) by (nonlinear_arith)
            requires
                u == d * n + u % d,
                u % d >= 0,
                n >= 0x80_0000 * p,
                d > 0,
        ;
        assert((0x80_0000 * p) * d == 0x80_0000 * g) by (nonlinear_arith)
            requires
                g == p * d,
        ;
        assert(q0 >= 0x80_0000) by (nonlinear_arith)
            requires
                u == g * q0 + rest,
                rest < g,
                u >= 0x80_0000 * g,
                g > 0,
        ;
    }
    lemma_single_units(q, k);
    let b = k * SINGLE_LEADING + q;
    assert(single_bits(u) == b);
    assert(x.narrowed().magnitude_bits() == b);
    assert((q * p) * d == q * g) by (nonlinear_arith)
        requires
            g == p * d,
    ;
    assert((q0 + 1) * g == q0 * g + g && g * q0 == q0 * g) by (nonlinear_arith);
}

/// Singles of one sign are ordered as their encodings are.
proof fn lemma_single_increases(a: int, b: int)
    requires
        0 <= a < b,
    ensures
        0 <= single_units(a) < single_units(b),
{
    let lead = SINGLE_LEADING as int;
    let (ea, eb, fa, fb) = (a / lead, b / lead, a % lead, b % lead);
    lemma2_to64();
    assert(0 <= fa < lead && 0 <= fb < lead && a == ea * lead + fa && b == eb * lead + fb && 0 <= ea <= eb);
    if eb > 0 {
        let pb = pow2((eb - 1) as nat) as int;
        lemma_pow2_pos((eb - 1) as nat);
        assert(lead * pb <= (lead + fb) * pb) by (nonlinear_arith)
            requires
                0 <= fb,
                pb > 0,
        ;
        if ea == eb {
            assert(0 <= (lead + fa) * pb < (lead + fb) * pb) by (nonlinear_arith)
                requires
                    0 <= fa < fb,
                    pb > 0,
                    lead > 0,
            ;
        } else if ea == 0 {
            assert(fa < lead * pb) by (nonlinear_arith)
                requires
                    fa < lead,
                    pb >= 1,
                    lead > 0,
            ;
        } else {
            let pa = pow2((ea - 1) as nat) as int;
            lemma_pow2_pos((ea - 1) as nat);
            lemma_pow2_adds((ea - 1) as nat, 1);
            if ea < eb - 1 {
                lemma_pow2_strictly_increases(ea as nat, (eb - 1) as nat);
            }
            assert(0 <= (lead + fa) * pa < lead * pb) by (nonlinear_arith)
                requires
                    0 <= fa < lead,
                    2 * pa <= pb,
                    pa > 0,
            ;
        }
    }
}

/// The number that the bits of a single stand for, with its sign, in units of 2^-149.
pub open spec fn signed_units(s: Single) -> int {
    if s.bits >= SINGLE_SIGN {
        -single_units(s.magnitude_bits())
    } else {
        single_units(s.magnitude_bits())
    }
}

/// Ranks go by the numbers: the lower number has the lower rank, and a NaN ranks beyond
/// all numbers, on the side of its sign. Nothing but the same bits has the same rank.
pub proof fn law_ranks_order_numbers(a: Single, b: Single, ra: i64, rb: i64)
    requires
        call_ensures(Single::order_rank, (&a,), ra),
        call_ensures(Single::order_rank, (&b,), rb),
    ensures
        ra == rb <==> a == b,
        a.magnitude_bits() <= SINGLE_INFINITE && b.magnitude_bits() <= SINGLE_INFINITE && signed_units(a) < signed_units(
            b,
        ) ==> ra < rb,
        a.magnitude_bits() <= SINGLE_INFINITE && b.magnitude_bits() > SINGLE_INFINITE ==> (if b.bits < SINGLE_SIGN {
            ra < rb
        } else {
            rb < ra
        }),
{
    let (m, n) = (a.magnitude_bits(), b.magnitude_bits());
    if m < n {
        lemma_single_increases(m, n);
    } else if n < m {
        lemma_single_increases(n, m);
    }
    if m > 0 {
        lemma_single_increases(0, m);
    }
    if n > 0 {
        lemma_single_increases(0, n);
    }
    assert(single_units(0) == 0);
}

} // verus!
