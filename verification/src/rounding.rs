//! Rounding to double precision.

use vstd::arithmetic::div_mod::{lemma_fundamental_div_mod, lemma_fundamental_div_mod_converse};
use vstd::arithmetic::power2::{lemma2_to64, lemma2_to64_rest, lemma_pow2_adds, lemma_pow2_pos, lemma_pow2_strictly_increases, pow2};
use vstd::prelude::*;

use crate::number::{magnitude_units, Double, INFINITE, LEADING, SIGN};

verus! {

/// `num / den` rounded to the nearest integer, a tie going to the even one.
pub open spec fn round_half_even(num: int, den: int) -> int {
    let quotient = num / den;
    let rest = num % den;
    if 2 * rest < den || (2 * rest == den && quotient % 2 == 0) {
        quotient
    } else {
        quotient + 1
    }
}

/// A whole number is not rounded.
pub proof fn lemma_round_whole(n: int)
    ensures
        round_half_even(n, 1) == n,
{
    assert(n / 1 == n && n % 1 == 0);
}

/// Rounding a fraction does not depend on how the fraction is written.
pub proof fn lemma_round_scales(num: int, den: int, k: int)
    requires
        0 <= num,
        0 < den,
        0 < k,
    ensures
        round_half_even(num * k, den * k) == round_half_even(num, den),
{
    let q = num / den;
    let r = num % den;
    vstd::arithmetic::div_mod::lemma_fundamental_div_mod(num, den);
    assert(num * k == q * (den * k) + r * k && 0 <= r * k < den * k && 0 < den * k) by (nonlinear_arith)
        requires
            num == den * q + r,
            0 <= r < den,
            0 < k,
    ;
    vstd::arithmetic::div_mod::lemma_fundamental_div_mod_converse(num * k, den * k, q, r * k);
    assert((2 * (r * k) < den * k) == (2 * r < den)) by (nonlinear_arith)
        requires
            0 < k,
    ;
    assert((2 * (r * k) == den * k) == (2 * r == den)) by (nonlinear_arith)
        requires
            0 < k,
    ;
}

/// How many times `n` must be halved to fall below 2^53: the doubles next to `n`
/// units are `2^level(n)` units apart.
pub open spec fn level(n: int) -> nat
    decreases n,
{
    if n < 2 * LEADING {
        0
    } else {
        1 + level(n / 2)
    }
}

/// The double nearest to the fraction `num / den`, both of them units, as a number
/// of units; a tie goes to the even significand. Exponents are not bounded here.
pub open spec fn nearest_units(num: int, den: int) -> int {
    let gap = pow2(level(num / den)) as int;
    round_half_even(num, den * gap) * gap
}

/// The encoding of `u` units, for a `u` that is a double.
pub open spec fn magnitude_of(u: int) -> int {
    level(u) * LEADING + u / pow2(level(u)) as int
}

/// A sign and a number of units made a double: infinity where it is too large.
pub open spec fn double_of(negative: bool, u: int) -> Double {
    let m = if magnitude_of(u) < INFINITE {
        magnitude_of(u)
    } else {
        INFINITE as int
    };
    Double {
        bits: (if negative {
            m + SIGN
        } else {
            m
        }) as u64,
    }
}

pub proof fn lemma_level(n: int, k: nat)
    requires
        0 <= n < pow2(53 + k),
        k > 0 ==> pow2(52 + k) <= n,
    ensures
        level(n) == k,
    decreases k,
{
    lemma2_to64_rest();
    if k > 0 {
        lemma_pow2_adds(52 + (k - 1) as nat, 1);
        lemma_pow2_adds(53 + (k - 1) as nat, 1);
        lemma2_to64();
        if k > 1 {
            lemma_pow2_strictly_increases(53, (52 + k) as nat);
        }
        lemma_level(n / 2, (k - 1) as nat);
    }
}

/// A significand of at most 53 bits (or the power of two that rounding carried it
/// to) shifted to its level is encoded by the two side by side.
pub proof fn lemma_magnitude_of(q: int, k: nat)
    requires
        0 <= q <= 2 * LEADING,
        k > 0 ==> LEADING <= q,
    ensures
        magnitude_of(q * pow2(k)) == k * LEADING + q,
        k < 2046 ==> magnitude_units(k * LEADING + q) == q * pow2(k),
{
    let lead = LEADING as int;
    let p = pow2(k) as int;
    lemma2_to64();
    lemma2_to64_rest();
    lemma_pow2_pos(k);
    lemma_pow2_adds(52, k);
    lemma_pow2_adds(53, k);
    assert(q * p >= 0) by (nonlinear_arith)
        requires
            q >= 0,
            p > 0,
    ;
    if q < 2 * lead {
        assert(q * p < (2 * lead) * p) by (nonlinear_arith)
            requires
                q < 2 * lead,
                p > 0,
        ;
        if k > 0 {
            assert(lead * p <= q * p) by (nonlinear_arith)
                requires
                    lead <= q,
                    p > 0,
            ;
        }
        lemma_level(q * p, k);
        vstd::arithmetic::div_mod::lemma_div_by_multiple(q, p);
    } else {
        lemma_pow2_adds(k, 1);
        lemma_pow2_adds(52, k + 1);
        lemma_pow2_adds(53, k + 1);
        lemma_pow2_strictly_increases((52 + k + 1) as nat, (53 + k + 1) as nat);
        let p2 = pow2(k + 1) as int;
        assert(q * p == lead * p2) by (nonlinear_arith)
            requires
                q == 2 * lead,
                p2 == p * 2,
        ;
        lemma_level(q * p, k + 1);
        vstd::arithmetic::div_mod::lemma_div_by_multiple(lead, p2);
        assert((k + 1) * lead + lead == k * lead + q) by (nonlinear_arith)
            requires
                q == 2 * lead,
        ;
    }
    if k < 2046 {
        let b = k * lead + q;
        if q < lead {
            assert(b / lead == 0 && b % lead == q);
            assert(q * p == q) by (nonlinear_arith)
                requires
                    p == 1,
            ;
        } else if q < 2 * lead {
            assert(b == (k + 1) * lead + (q - lead)) by (nonlinear_arith)
                requires
                    b == k * lead + q,
            ;
            vstd::arithmetic::div_mod::lemma_fundamental_div_mod_converse(b, lead, k as int + 1, q - lead);
        } else {
            assert(b == (k + 2) * lead) by (nonlinear_arith)
                requires
                    b == k * lead + q,
                    q == 2 * lead,
            ;
            vstd::arithmetic::div_mod::lemma_fundamental_div_mod_converse(b, lead, k as int + 2, 0);
            lemma_pow2_adds(k, 1);
            assert(lead * pow2(k + 1) == q * p) by (nonlinear_arith)
                requires
                    pow2(k + 1) == p * 2,
                    q == 2 * lead,
            ;
        }
    }
}

/// `2^k`, for a `k` that a `u128` reaches.
pub(crate) fn power_of_two(k: u64) -> (p: u128)
    requires
        k < 128,
    ensures
        p == pow2(k as nat),
{
    let mut p: u128 = 1;
    let mut i: u64 = 0;
    proof {
        lemma2_to64();
    }
    while i < k
        invariant
            i <= k < 128,
            p == pow2(i as nat),
        decreases k - i,
    {
        proof {
            lemma_pow2_adds(i as nat, 1);
            lemma2_to64();
            lemma2_to64_rest();
            lemma_pow2_adds(64, 63);
            if i < 126 {
                lemma_pow2_strictly_increases(i as nat, 126);
            }
            lemma_pow2_adds(126, 1);
        }
        p = p * 2;
        i = i + 1;
    }
    p
}

/// The number of bits of `m`.
pub(crate) fn bit_length(m: u128) -> (len: i64)
    ensures
        0 <= len <= 128,
        m < pow2(len as nat),
        len > 0 ==> pow2((len - 1) as nat) <= m,
        len == 0 <==> m == 0,
{
    let mut len: i64 = 0;
    let mut top: u128 = m;
    proof {
        lemma2_to64();
        assert(m as int / 1 == m);
    }
    while top > 0
        invariant
            0 <= len <= 128,
            top == m as int / pow2(len as nat) as int,
            len > 0 ==> pow2((len - 1) as nat) <= m,
            len == 0 ==> top == m,
        decreases top,
    {
        proof {
            let p = pow2(len as nat) as int;
            lemma_pow2_pos(len as nat);
            lemma_pow2_adds(len as nat, 1);
            lemma2_to64();
            vstd::arithmetic::div_mod::lemma_div_denominator(m as int, p, 2);
            lemma_fundamental_div_mod(m as int, p);
            assert(p <= m) by (nonlinear_arith)
                requires
                    m == p * top + m as int % p,
                    top > 0,
                    p > 0,
                    0 <= m as int % p,
            ;
            if len >= 128 {
                lemma2_to64_rest();
                lemma_pow2_adds(64, 64);
                if len > 128 {
                    lemma_pow2_strictly_increases(128, len as nat);
                }
            }
        }
        top = top / 2;
        len = len + 1;
    }
    proof {
        let p = pow2(len as nat) as int;
        lemma_pow2_pos(len as nat);
        lemma_fundamental_div_mod(m as int, p);
        assert(p * 0 == 0);
        if len > 0 {
            lemma_pow2_pos((len - 1) as nat);
        }
    }
    len
}

/// The two factors by which a shift by `x` bits scales a fraction: `2^x` above the
/// line, or `2^-x` below it.
pub open spec fn up(x: int) -> int {
    if x > 0 {
        pow2(x as nat) as int
    } else {
        1
    }
}

pub open spec fn down(x: int) -> int {
    up(-x)
}

pub proof fn lemma_up(x: int, y: int)
    ensures
        up(x) > 0,
        down(x) > 0,
        x >= 0 && y >= 0 ==> up(x + y) == up(x) * up(y),
        x < 0 && y >= 0 && x + y >= 0 ==> up(x + y) * down(x) == up(y),
        x < 0 && y >= 0 && x + y < 0 ==> up(y) * down(x + y) == down(x),
{
    lemma2_to64();
    if x > 0 {
        lemma_pow2_pos(x as nat);
    } else if x < 0 {
        lemma_pow2_pos((-x) as nat);
    }
    if x >= 0 && y >= 0 {
        lemma_pow2_adds(x as nat, y as nat);
        assert(pow2(0) == 1);
        assert(1 * up(y) == up(y) && up(x) * 1 == up(x));
    }
    if x < 0 && y >= 0 && x + y >= 0 {
        lemma_pow2_adds((x + y) as nat, (-x) as nat);
        assert(pow2(0) == 1);
        assert(1 * down(x) == down(x));
    }
    if x < 0 && y >= 0 && x + y < 0 {
        lemma_pow2_adds(y as nat, (-(x + y)) as nat);
        assert(1 * down(x + y) == down(x + y));
    }
}

/// `num / den` lies in `[m, m + 1) * 2^x`, and is `m * 2^x` unless `inexact`.
pub open spec fn brackets(num: int, den: int, m: int, x: int, inexact: bool) -> bool {
    &&& 0 < den
    &&& 0 <= m
    &&& m * (up(x) * den) <= num * down(x)
    &&& num * down(x) < (m + 1) * (up(x) * den)
    &&& inexact <==> m * (up(x) * den) != num * down(x)
}

/// A number known up to `w` rounds as its known part does, once what is not known
/// has been allowed to break a tie.
proof fn lemma_round_known(n: int, w: int, m: int, d: int, inexact: bool)
    requires
        0 < w,
        0 <= m,
        0 < d,
        d % 2 == 0,
        m * w <= n < (m + 1) * w,
        inexact <==> m * w != n,
    ensures
        round_half_even(n, d * w) == ({
            let q = m / d;
            let rest = m % d;
            if 2 * rest < d || (2 * rest == d && !inexact && q % 2 == 0) {
                q
            } else {
                q + 1
            }
        }),
{
    let q = m / d;
    let rest = m % d;
    lemma_fundamental_div_mod(m, d);
    let r = n - q * (d * w);
    assert(m * w == q * (d * w) + rest * w) by (nonlinear_arith)
        requires
            m == d * q + rest,
    ;
    assert((m + 1) * w == m * w + w && (rest + 1) * w == rest * w + w) by (nonlinear_arith);
    assert((rest + 1) * w <= d * w) by (nonlinear_arith)
        requires
            rest + 1 <= d,
            0 < w,
    ;
    assert(rest * w >= 0) by (nonlinear_arith)
        requires
            rest >= 0,
            w > 0,
    ;
    assert(0 <= r < d * w);
    lemma_fundamental_div_mod_converse(n, d * w, q, r);
    let t = 2 * rest;
    if t < d {
        assert(t + 2 <= d);
        assert((t + 2) * w <= d * w) by (nonlinear_arith)
            requires
                t + 2 <= d,
                0 < w,
        ;
        assert((t + 2) * w == 2 * (rest * w + w)) by (nonlinear_arith)
            requires
                t == 2 * rest,
        ;
    } else if t > d {
        assert(t * w > d * w) by (nonlinear_arith)
            requires
                t > d,
                0 < w,
        ;
        assert(t * w == 2 * (rest * w)) by (nonlinear_arith)
            requires
                t == 2 * rest,
        ;
    } else {
        assert(d * w == 2 * (rest * w)) by (nonlinear_arith)
            requires
                d == 2 * rest,
        ;
    }
}

/// The level of a number is read off the length of what is known of it.
proof fn lemma_level_known(num: int, den: int, m: int, x: int, inexact: bool, len: int)
    requires
        brackets(num, den, m, x, inexact),
        0 < len,
        pow2((len - 1) as nat) <= m < pow2(len as nat),
    ensures
        num >= 0,
        level(num / den) == (if len + x > 53 {
            len + x - 53
        } else {
            0
        }),
{
    let k = if len + x > 53 {
        len + x - 53
    } else {
        0
    };
    lemma_up(x, 0);
    lemma_up(x, len);
    lemma_up(x, len - 1);
    lemma2_to64();
    let a = up(x);
    let b = down(x);
    let hi = pow2(len as nat) as int;
    let lo = pow2((len - 1) as nat) as int;
    assert(up(len) == hi && up(len - 1) == lo);
    assert(num >= 0) by (nonlinear_arith)
        requires
            m * (a * den) <= num * b,
            0 <= m,
            0 < a,
            0 < den,
            0 < b,
    ;
    assert(num * b < (hi * a) * den) by (nonlinear_arith)
        requires
            num * b < (m + 1) * (a * den),
            m + 1 <= hi,
            0 < a,
            0 < den,
    ;
    assert((lo * a) * den <= num * b) by (nonlinear_arith)
        requires
            m * (a * den) <= num * b,
            lo <= m,
            0 < a,
            0 < den,
    ;
    let n = num / den;
    lemma_fundamental_div_mod(num, den);
    // The upper end.
    let top = pow2((53 + k) as nat) as int;
    assert(hi * a <= top * b) by {
        if x >= 0 {
            assert(a * hi == up(x + len));
            assert(up(x + len) == pow2((x + len) as nat));
            if x + len < 53 + k {
                lemma_pow2_strictly_increases((x + len) as nat, (53 + k) as nat);
            }
            assert(hi * a == a * hi && top * 1 == top) by (nonlinear_arith);
        } else if x + len >= 0 {
            assert(up(x + len) * b == hi);
            lemma_up(x + len, 0);
            let u = up(x + len);
            assert(u <= top) by {
                if 0 < x + len < 53 + k {
                    lemma_pow2_strictly_increases((x + len) as nat, (53 + k) as nat);
                }
                lemma_pow2_pos((53 + k) as nat);
            }
            assert(u * b <= top * b) by (nonlinear_arith)
                requires
                    u <= top,
                    0 < b,
            ;
        } else {
            assert(hi * down(x + len) == b);
            lemma_up(x + len, 0);
            lemma_pow2_pos((53 + k) as nat);
            let u = down(x + len);
            assert(hi * 1 <= top * b) by (nonlinear_arith)
                requires
                    hi * u == b,
                    u >= 1,
                    hi > 0,
                    top >= 1,
            ;
        }
    }
    assert(num < top * den) by (nonlinear_arith)
        requires
            num * b < (hi * a) * den,
            hi * a <= top * b,
            0 < b,
            0 < den,
    ;
    assert(n < top) by (nonlinear_arith)
        requires
            num < top * den,
            num == den * n + num % den,
            0 <= num % den,
            0 < den,
    ;
    assert(n >= 0) by {
        vstd::arithmetic::div_mod::lemma_div_pos_is_pos(num, den);
    }
    if k > 0 {
        let bottom = pow2((52 + k) as nat) as int;
        assert(bottom * b <= lo * a) by {
            if x >= 0 {
                assert(a * lo == up(x + (len - 1)));
                assert(lo * a == a * lo && bottom * 1 == bottom) by (nonlinear_arith);
            } else {
                assert(up(x + (len - 1)) * b == lo);
            }
        }
        assert(bottom * den <= num) by (nonlinear_arith)
            requires
                (lo * a) * den <= num * b,
                bottom * b <= lo * a,
                0 < b,
                0 < den,
        ;
        assert(bottom <= n) by (nonlinear_arith)
            requires
                bottom * den <= num,
                num == den * n + num % den,
                num % den < den,
                0 < den,
        ;
    }
    lemma_level(n, k as nat);
}

pub proof fn lemma_nearest_zero(num: int, den: int, a: int, b: int)
    requires
        0 < den,
        0 < b,
        0 * (a * den) == num * b,
    ensures
        num == 0,
        nearest_units(num, den) == 0,
        magnitude_of(0) == 0,
{
    assert(num == 0) by (nonlinear_arith)
        requires
            num * b == 0,
            b > 0,
    ;
    assert(0int / den == 0 && 0int % den == 0) by (nonlinear_arith)
        requires
            den > 0,
    ;
    lemma2_to64();
    assert(level(0) == 0);
    assert(den * pow2(0) == den) by (nonlinear_arith)
        requires
            pow2(0) == 1,
    ;
    assert(round_half_even(0, den) == 0);
    assert(0int * pow2(0) == 0);
    assert(0int / 1 == 0);
}

/// The double nearest to a number that is known to lie in `[m, m + 1) * 2^x` units
/// (`brackets` says how `num / den` is known).
pub(crate) fn round(negative: bool, m: u128, x: i64, inexact: bool, Ghost(num): Ghost<int>, Ghost(den): Ghost<int>) -> (r: Double)
    requires
        brackets(num, den, m as int, x as int, inexact),
        m < 0x2000_0000_0000_0000_0000_0000_0000_0000,
        inexact ==> m >= 0x80_0000_0000_0000,
        -10000 <= x <= 10000,
    ensures
        num >= 0,
        r == double_of(negative, nearest_units(num, den)),
{
    let len: i64 = bit_length(m);
    let ghost a = up(x as int);
    let ghost b = down(x as int);
    proof {
        lemma_up(x as int, 0);
        lemma2_to64();
        lemma2_to64_rest();
    }
    if len == 0 {
        proof {
            lemma_nearest_zero(num, den, a, b);
        }
        return if negative {
            Double { bits: SIGN }
        } else {
            Double { bits: 0 }
        };
    }
    proof {
        lemma_level_known(num, den, m as int, x as int, inexact, len as int);
        // A length below 56 bits leaves nothing to round off.
        if len < 55 {
            lemma_pow2_strictly_increases(len as nat, 55);
        }
    }
    let k: i64 = if len + x > 53 {
        len + x - 53
    } else {
        0
    };
    let ghost gap = pow2(k as nat) as int;
    let s: i64 = k - x;
    assert(level(num / den) == k);
    let q: u64;
    if s <= 0 {
        proof {
            lemma_pow2_pos(k as nat);
            lemma_pow2_pos((-s) as nat);
            lemma_pow2_adds(k as nat, (-s) as nat);
            lemma_pow2_adds(len as nat, (-s) as nat);
            if len - s < 53 {
                lemma_pow2_strictly_increases((len - s) as nat, 53);
            }
        }
        let p: u128 = power_of_two((-s) as u64);
        proof {
            assert(m * p < pow2(53)) by (nonlinear_arith)
                requires
                    m < pow2(len as nat),
                    pow2((len - s) as nat) == pow2(len as nat) * p,
                    pow2((len - s) as nat) <= pow2(53),
                    p > 0,
            ;
        }
        q = (m * p) as u64;
        proof {
            assert(x >= 0 && a == pow2(x as nat) && b == 1);
            assert(num == q * (den * gap)) by (nonlinear_arith)
                requires
                    m * (a * den) == num * b,
                    b == 1,
                    a == gap * p,
                    q == m * p,
            ;
            let dg = den * gap;
            assert(dg > 0) by (nonlinear_arith)
                requires
                    den > 0,
                    gap > 0,
                    dg == den * gap,
            ;
            lemma_fundamental_div_mod_converse(num, dg, q as int, 0);
            if k > 0 {
                lemma_pow2_adds((len - 1) as nat, (-s) as nat);
                assert(m * p >= LEADING) by (nonlinear_arith)
                    requires
                        pow2((len - 1) as nat) <= m,
                        pow2((len - 1 - s) as nat) == pow2((len - 1) as nat) * p,
                        pow2((len - 1 - s) as nat) == LEADING,
                        p > 0,
                ;
            }
        }
    } else {
        let q0: u128;
        let rest: u128;
        let low: bool;
        let tie: bool;
        if s >= 127 {
            q0 = 0;
            rest = m;
            low = true;
            tie = false;
        } else {
            let d: u128 = power_of_two(s as u64);
            proof {
                lemma_pow2_pos(s as nat);
            }
            q0 = m / d;
            rest = m % d;
            low = rest < d - rest;
            tie = rest == d - rest;
        }
        let ghost d = pow2(s as nat) as int;
        proof {
            lemma_pow2_pos(s as nat);
            lemma_pow2_adds((s - 1) as nat, 1);
            if s >= 127 {
                lemma_pow2_adds(64, 61);
                if s > 127 {
                    lemma_pow2_strictly_increases(127, s as nat);
                }
                lemma_pow2_strictly_increases(125, 127);
                lemma_pow2_adds(125, 2);
                vstd::arithmetic::div_mod::lemma_basic_div(m as int, d);
                vstd::arithmetic::div_mod::lemma_small_mod(m as nat, d as nat);
            }
            let w = a * den;
            assert(w > 0) by (nonlinear_arith)
                requires
                    a > 0,
                    den > 0,
                    w == a * den,
            ;
            lemma_round_known(num * b, w, m as int, d, inexact);
            // The same fraction, with the scale of `b` taken out.
            lemma_pow2_pos(k as nat);
            assert(d * w == (den * gap) * b) by {
                if x >= 0 {
                    lemma_pow2_adds(x as nat, s as nat);
                    assert(d * (a * den) == (den * gap) * b) by (nonlinear_arith)
                        requires
                            gap == a * d,
                            b == 1,
                    ;
                } else {
                    lemma_pow2_adds(k as nat, (-x) as nat);
                    assert(d * (a * den) == (den * gap) * b) by (nonlinear_arith)
                        requires
                            d == gap * b,
                            a == 1,
                    ;
                }
            }
            let dg = den * gap;
            assert(dg > 0) by (nonlinear_arith)
                requires
                    den > 0,
                    gap > 0,
                    dg == den * gap,
            ;
            lemma_round_scales(num, dg, b);
            // The quotient has at most 53 bits, and all of them above level 0.
            lemma_fundamental_div_mod(m as int, d);
            let up53 = pow2(53) as int;
            lemma_pow2_adds(53, s as nat);
            if len < 53 + s {
                lemma_pow2_strictly_increases(len as nat, (53 + s) as nat);
            }
            assert(q0 < up53) by (nonlinear_arith)
                requires
                    m < up53 * d,
                    m == d * q0 + rest,
                    0 <= rest,
                    d > 0,
            ;
            if k > 0 {
                lemma_pow2_adds(52, s as nat);
                let up52 = pow2(52) as int;
                assert(up52 <= q0) by (nonlinear_arith)
                    requires
                        up52 * d <= m,
                        m == d * q0 + rest,
                        rest < d,
                        d > 0,
                ;
            }
        }
        let even: bool = q0 % 2 == 0;
        q = if low || (tie && !inexact && even) {
            q0 as u64
        } else {
            (q0 + 1) as u64
        };
    }
    proof {
        lemma_magnitude_of(q as int, k as nat);
    }
    let magnitude: u64 = if k >= 2046 {
        INFINITE
    } else {
        let raw: u64 = k as u64 * LEADING + q;
        if raw < INFINITE {
            raw
        } else {
            INFINITE
        }
    };
    if negative {
        Double { bits: magnitude + SIGN }
    } else {
        Double { bits: magnitude }
    }
}

/// An integer number of `2^x` units is bracketed by itself.
pub proof fn lemma_whole(m: int, x: int)
    requires
        0 <= m,
        0 <= x,
    ensures
        brackets(m * pow2(x as nat), 1, m, x, false),
{
    lemma_up(x, 0);
    lemma2_to64();
    let p = pow2(x as nat) as int;
    assert(up(x) == p && down(x) == 1);
    assert(m * (p * 1) == (m * p) * 1 && (m + 1) * (p * 1) == m * p + p) by (nonlinear_arith);
    lemma_pow2_pos(x as nat);
}

/// The number of bits of a positive integer.
pub proof fn lemma_length(q: int) -> (len: int)
    requires
        0 < q,
    ensures
        0 < len,
        pow2((len - 1) as nat) <= q < pow2(len as nat),
    decreases q,
{
    lemma2_to64();
    if q == 1 {
        1
    } else {
        let len = lemma_length(q / 2);
        lemma_pow2_adds((len - 1) as nat, 1);
        lemma_pow2_adds(len as nat, 1);
        len + 1
    }
}

/// A number with a significand of at most 53 bits is a double: nothing is rounded.
pub proof fn lemma_nearest_exact(q: int, k: nat)
    requires
        0 <= q < 2 * LEADING,
    ensures
        nearest_units(q * pow2(k), 1) == q * pow2(k),
{
    let v = q * pow2(k);
    lemma_pow2_pos(k);
    if q == 0 {
        assert(0 * pow2(k) == 0);
        lemma_nearest_zero(0, 1, 1, 1);
    } else {
        let len = lemma_length(q);
        lemma_whole(q, k as int);
        lemma_level_known(v, 1, q, k as int, false, len);
        lemma2_to64();
        lemma2_to64_rest();
        assert(len <= 53) by {
            if len > 53 {
                if len > 54 {
                    lemma_pow2_strictly_increases(53, (len - 1) as nat);
                }
            }
        }
        let l = level(v / 1);
        assert(l <= k);
        let g = pow2(l) as int;
        lemma_pow2_pos(l);
        lemma_pow2_adds((k - l) as nat, l);
        let t = q * pow2((k - l) as nat);
        assert(v == t * g) by (nonlinear_arith)
            requires
                v == q * pow2(k),
                pow2(k) == pow2((k - l) as nat) * g,
                t == q * pow2((k - l) as nat),
        ;
        assert(1 * g == g);
        lemma_fundamental_div_mod_converse(v, g, t, 0);
    }
}

/// A number of level `k` has `53 + k` bits, or fewer at level 0.
pub proof fn lemma_level_bounds(n: int)
    requires
        0 <= n,
    ensures
        n < pow2(53 + level(n)),
        level(n) > 0 ==> pow2((52 + level(n)) as nat) <= n,
    decreases n,
{
    lemma2_to64();
    lemma2_to64_rest();
    if n >= 2 * LEADING {
        lemma_level_bounds(n / 2);
        let k = level(n / 2);
        lemma_pow2_adds(53 + k, 1);
        lemma_pow2_adds((52 + k) as nat, 1);
    }
}

pub proof fn lemma_nearest_not_negative(n: int)
    requires
        0 <= n,
    ensures
        0 <= nearest_units(n, 1),
{
    let gap = pow2(level(n / 1)) as int;
    lemma_pow2_pos(level(n / 1));
    assert(1 * gap == gap);
    vstd::arithmetic::div_mod::lemma_div_pos_is_pos(n, gap);
    let q = round_half_even(n, gap);
    assert(q * gap >= 0) by (nonlinear_arith)
        requires
            q >= 0,
            gap > 0,
    ;
}

/// `u` units are a double, exponents not being bounded.
pub open spec fn is_double(u: int) -> bool {
    0 <= u && u % pow2(level(u)) as int == 0
}

pub proof fn lemma_level_ordered(a: int, b: int)
    requires
        0 <= a <= b,
    ensures
        level(a) <= level(b),
{
    lemma_level_bounds(a);
    lemma_level_bounds(b);
    if level(a) > level(b) {
        if 53 + level(b) < 52 + level(a) {
            lemma_pow2_strictly_increases(53 + level(b), (52 + level(a)) as nat);
        }
    }
}

/// No double lies strictly between the two multiples of the gap that enclose a
/// number.
pub proof fn lemma_neighbours(num: int, den: int, y: int)
    requires
        0 <= num,
        0 < den,
        is_double(y),
    ensures
        ({
            let gap = pow2(level(num / den)) as int;
            let q = num / (den * gap);
            &&& 0 <= q < 2 * LEADING
            &&& level(num / den) > 0 ==> LEADING <= q
            &&& y * den <= num ==> y <= q * gap
            &&& y * den > num ==> y >= (q + 1) * gap
        }),
{
    let n = num / den;
    let k = level(n);
    let g = pow2(k) as int;
    let dg = den * g;
    let q = num / dg;
    let lead = LEADING as int;
    lemma_pow2_pos(k);
    lemma2_to64_rest();
    assert(dg > 0) by (nonlinear_arith)
        requires
            dg == den * g,
            den > 0,
            g > 0,
    ;
    vstd::arithmetic::div_mod::lemma_div_pos_is_pos(num, den);
    vstd::arithmetic::div_mod::lemma_div_denominator(num, den, g);
    lemma_level_bounds(n);
    lemma_pow2_adds(53, k);
    lemma_fundamental_div_mod(n, g);
    lemma_fundamental_div_mod(num, den);
    lemma_fundamental_div_mod(num, dg);
    let r = n % g;
    assert(0 <= q < 2 * lead) by (nonlinear_arith)
        requires
            n == g * q + r,
            0 <= r < g,
            0 <= n < (2 * lead) * g,
    ;
    if k > 0 {
        lemma_pow2_adds(52, k);
        assert(lead <= q) by (nonlinear_arith)
            requires
                n == g * q + r,
                r < g,
                lead * g <= n,
                0 < g,
        ;
    }
    let ky = level(y);
    let gy = pow2(ky) as int;
    lemma_pow2_pos(ky);
    lemma_level_bounds(y);
    lemma_fundamental_div_mod(y, gy);
    let c = y / gy;
    let rest = num % den;
    if y * den <= num {
        assert(y <= n) by (nonlinear_arith)
            requires
                y * den <= num,
                num == den * n + rest,
                rest < den,
                0 < den,
        ;
        lemma_level_ordered(y, n);
        if ky == k {
            assert(c <= q) by (nonlinear_arith)
                requires
                    g * c <= n,
                    n == g * q + r,
                    r < g,
                    0 < g,
            ;
            assert(y <= q * g) by (nonlinear_arith)
                requires
                    y == g * c,
                    c <= q,
                    0 < g,
            ;
        } else {
            if 53 + ky < 52 + k {
                lemma_pow2_strictly_increases(53 + ky, (52 + k) as nat);
            }
            assert(lead * g <= q * g) by (nonlinear_arith)
                requires
                    lead <= q,
                    0 < g,
            ;
        }
    } else {
        assert(y > n) by (nonlinear_arith)
            requires
                y * den > num,
                num == den * n + rest,
                0 <= rest,
                0 < den,
        ;
        lemma_level_ordered(n, y);
        if ky == k {
            assert(c > q) by (nonlinear_arith)
                requires
                    g * c > n,
                    n == g * q + r,
                    r >= 0,
                    0 < g,
            ;
            assert(y >= (q + 1) * g) by (nonlinear_arith)
                requires
                    y == g * c,
                    c >= q + 1,
                    0 < g,
            ;
        } else {
            if 53 + k < 52 + ky {
                lemma_pow2_strictly_increases(53 + k, (52 + ky) as nat);
            }
            assert((q + 1) * g <= (2 * lead) * g) by (nonlinear_arith)
                requires
                    q + 1 <= 2 * lead,
                    0 < g,
            ;
        }
    }
}

/// The distance between the exact number and the rounded one, in parts of `den`.
pub open spec fn distance(num: int, den: int, u: int) -> int {
    if num >= u * den {
        num - u * den
    } else {
        u * den - num
    }
}

/// Rounding finds the nearest: no double is closer to the exact number, and it is
/// off by half a gap at most.
pub proof fn law_rounding_is_nearest(num: int, den: int, y: int)
    requires
        0 <= num,
        0 < den,
        is_double(y),
    ensures
        distance(num, den, nearest_units(num, den)) <= distance(num, den, y),
        2 * distance(num, den, nearest_units(num, den)) <= den * pow2(level(num / den)),
        y * den <= num ==> y <= nearest_units(num, den),
        num <= y * den ==> nearest_units(num, den) <= y,
{
    lemma_neighbours(num, den, y);
    let g = pow2(level(num / den)) as int;
    lemma_pow2_pos(level(num / den));
    let dg = den * g;
    let q = num / dg;
    let r = num % dg;
    assert(dg > 0) by (nonlinear_arith)
        requires
            dg == den * g,
            den > 0,
            g > 0,
    ;
    lemma_fundamental_div_mod(num, dg);
    assert((q * g) * den == dg * q && ((q + 1) * g) * den == dg * q + dg) by (nonlinear_arith)
        requires
            dg == den * g,
    ;
    assert(q * g <= (q + 1) * g) by (nonlinear_arith)
        requires
            g > 0,
    ;
    if y * den <= num {
        assert(y * den <= (q * g) * den) by (nonlinear_arith)
            requires
                y <= q * g,
                0 < den,
        ;
    } else {
        assert(y * den >= ((q + 1) * g) * den) by (nonlinear_arith)
            requires
                y >= (q + 1) * g,
                0 < den,
        ;
    }
    if num == y * den {
        // An exact result is not rounded.
        assert(y == q * g) by (nonlinear_arith)
            requires
                y <= q * g,
                y * den == num,
                num == dg * q + r,
                (q * g) * den == dg * q,
                r >= 0,
                den > 0,
        ;
    }
}

/// What rounding gives is a double.
pub proof fn lemma_nearest_is_double(num: int, den: int)
    requires
        0 <= num,
        0 < den,
    ensures
        is_double(nearest_units(num, den)),
{
    lemma2_to64();
    lemma2_to64_rest();
    assert(is_double(0)) by {
        assert(0int % 1 == 0);
    }
    lemma_neighbours(num, den, 0);
    let k = level(num / den);
    let g = pow2(k) as int;
    lemma_pow2_pos(k);
    let q = round_half_even(num, den * g);
    lemma_shifted_is_double(q, k);
}

/// A significand at its level is a double.
pub proof fn lemma_shifted_is_double(q: int, k: nat)
    requires
        0 <= q <= 2 * LEADING,
        k > 0 ==> LEADING <= q,
    ensures
        is_double(q * pow2(k)),
        q < 2 * LEADING ==> level(q * pow2(k)) == k,
{
    let g = pow2(k) as int;
    let lead = LEADING as int;
    lemma2_to64_rest();
    lemma2_to64();
    lemma_pow2_pos(k);
    lemma_pow2_adds(52, k);
    lemma_pow2_adds(53, k);
    let u = q * g;
    assert(u >= 0) by (nonlinear_arith)
        requires
            u == q * g,
            q >= 0,
            g > 0,
    ;
    if q < 2 * lead {
        assert(u < (2 * lead) * g) by (nonlinear_arith)
            requires
                u == q * g,
                q < 2 * lead,
                g > 0,
        ;
        if k > 0 {
            assert(lead * g <= u) by (nonlinear_arith)
                requires
                    u == q * g,
                    lead <= q,
                    g > 0,
            ;
        }
        lemma_level(u, k);
        lemma_fundamental_div_mod_converse(u, g, q, 0);
    } else {
        lemma_pow2_adds(k, 1);
        lemma_pow2_adds(52, k + 1);
        lemma_pow2_adds(53, k + 1);
        lemma_pow2_strictly_increases((53 + k) as nat, (54 + k) as nat);
        let g2 = pow2(k + 1) as int;
        assert(u == lead * g2) by (nonlinear_arith)
            requires
                u == q * g,
                q == 2 * lead,
                g2 == g * 2,
        ;
        lemma_level(u, k + 1);
        lemma_fundamental_div_mod_converse(u, g2, lead, 0);
    }
}

/// Rounding to a double does not depend on how the fraction is written.
pub proof fn lemma_nearest_scales(num: int, den: int, k: int)
    requires
        0 <= num,
        0 < den,
        0 < k,
    ensures
        nearest_units(num * k, den * k) == nearest_units(num, den),
{
    let n = num / den;
    let r = num % den;
    lemma_fundamental_div_mod(num, den);
    assert(num * k == n * (den * k) + r * k && 0 <= r * k < den * k) by (nonlinear_arith)
        requires
            num == den * n + r,
            0 <= r < den,
            0 < k,
    ;
    lemma_fundamental_div_mod_converse(num * k, den * k, n, r * k);
    let g = pow2(level(n)) as int;
    lemma_pow2_pos(level(n));
    assert((den * k) * g == (den * g) * k && den * g > 0) by (nonlinear_arith)
        requires
            den > 0,
            g > 0,
    ;
    lemma_round_scales(num, den * g, k);
}

} // verus!
