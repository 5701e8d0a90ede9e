//! The pose of the camera: roll, the rotation matrix, and the attitude hint.
//!
//! The solver and the callers do not share conventions. The solver's camera frame
//! is (right, down, boresight); the callers' is (boresight, left, up). The solver
//! reports the angle from east to the image's right; the callers want the rotation
//! of celestial north against the image's up.

use vstd::arithmetic::div_mod::{lemma_fundamental_div_mod, lemma_fundamental_div_mod_converse, lemma_mod_bound, lemma_small_mod};
use vstd::arithmetic::power2::{
    lemma2_to64, lemma2_to64_rest, lemma_pow2_adds, lemma_pow2_pos, lemma_pow2_strictly_increases, pow2,
};
use vstd::prelude::*;

use crate::angle::{lemma_radians_of_a_turn, DEGREES_PER_RADIAN};
use crate::arithmetic::{
    apart, integer, lemma_double_of, lemma_double_of_exact, lemma_finite_is_double, lemma_integer,
    lemma_size,
};
use crate::geometry::EquatorialCoordinates;
use crate::number::{lemma_magnitude_increases, one, Double, LEADING};
use crate::rounding::{
    distance, double_of, is_double, law_rounding_is_nearest, lemma_level_bounds, lemma_nearest_is_double,
    lemma_nearest_not_negative, level, nearest_units,
};

verus! {

/// The least nonnegative remainder of `x` by 360. Rounding may make it 360.
pub open spec fn turn_remainder(x: Double) -> Double {
    let r = x.remainder(integer(360));
    if r.below(integer(0)) {
        r.plus(integer(360))
    } else {
        r
    }
}

/// An angle in degrees, brought into `[0, 360)`.
pub open spec fn normalized(deg: Double) -> Double {
    let r = turn_remainder(deg);
    if integer(360).at_most(r) {
        integer(0)
    } else {
        r
    }
}

/// The least nonnegative remainder of an angle by 360 degrees.
pub fn turn_rem(deg: Double) -> (r: Double)
    ensures
        r == turn_remainder(deg),
{
    let turn: Double = Double::from_u64(360);
    let r: Double = deg.rem(turn);
    if r.lt(Double::from_u64(0)) {
        r.add(turn)
    } else {
        r
    }
}

/// Normalizes an angle to `[0, 360)`. The remainder alone is not enough: for a tiny
/// negative angle it is rounded to 360.
pub fn normalize_deg(deg: Double) -> (r: Double)
    ensures
        r == normalized(deg),
{
    let r: Double = turn_rem(deg);
    if Double::from_u64(360).le(r) {
        Double::from_u64(0)
    } else {
        r
    }
}

/// The remainder of a finite angle lies in `[0, 360]`: the upper end, only where a
/// tiny negative angle was rounded to it.
pub proof fn law_turn_remainder_range(deg: Double)
    requires
        deg.finite(),
    ensures
        !turn_remainder(deg).nan(),
        0 <= turn_remainder(deg).units() <= 360 * one(),
{
    let turn = integer(360);
    lemma_integer(0);
    lemma_integer(360);
    assert(0 * one() == 0);
    lemma_pow2_pos(1074);
    reveal(Double::remainder);
    reveal(Double::plus);
    let r = deg.remainder(turn);
    assert(turn.size() == 360 * one());
    lemma_size(deg);
    lemma_size(turn);
    lemma_mod_bound(deg.size(), turn.size());
    lemma_double_of(deg.negative(), deg.size() % turn.size());
    if r.below(integer(0)) {
        let sum = r.units() + turn.units();
        assert(0 < sum < 360 * one());
        if r.infinite() {
            lemma_magnitude_increases(turn.magnitude_bits(), r.magnitude_bits());
        }
        lemma_finite_is_double(turn);
        law_rounding_is_nearest(sum, 1, 360 * one());
        lemma_nearest_not_negative(sum);
        lemma_double_of(false, nearest_units(sum, 1));
    }
}

/// A normalized angle lies in `[0, 360)`, whatever finite angle it came from.
pub proof fn law_normalized_range(deg: Double)
    requires
        deg.finite(),
    ensures
        !normalized(deg).nan(),
        0 <= normalized(deg).units() < 360 * one(),
{
    lemma_integer(0);
    lemma_integer(360);
    assert(0 * one() == 0);
    lemma_pow2_pos(1074);
    law_turn_remainder_range(deg);
}

proof fn lemma_pow2_at_most(a: nat, b: nat)
    requires
        a <= b,
    ensures
        pow2(a) <= pow2(b),
{
    if a < b {
        lemma_pow2_strictly_increases(a, b);
    }
}

/// A multiple of a power of two that 53 bits can hold is a double.
proof fn lemma_multiple_is_double(q: int, k: nat)
    requires
        0 <= q < 2 * LEADING,
    ensures
        is_double(q * pow2(k)),
{
    let g = pow2(k) as int;
    let u = q * g;
    lemma2_to64_rest();
    lemma_pow2_pos(k);
    lemma_pow2_adds(53, k);
    assert(0 <= u < (2 * LEADING) * g) by (nonlinear_arith)
        requires
            u == q * g,
            0 <= q < 2 * LEADING,
            g > 0,
    ;
    lemma_level_bounds(u);
    let l = level(u);
    if l > k {
        lemma_pow2_at_most((53 + k) as nat, (52 + l) as nat);
    }
    let (h, c) = (pow2(l) as int, pow2((k - l) as nat) as int);
    lemma_pow2_adds(l, (k - l) as nat);
    lemma_pow2_pos(l);
    assert(u == h * (q * c)) by (nonlinear_arith)
        requires
            u == q * g,
            g == h * c,
    ;
    lemma_fundamental_div_mod_converse(u, h, q * c, 0);
}

/// A whole turn, in units: forty-five eighths of 2^1080.
proof fn lemma_turn()
    ensures
        360 * one() == 45 * pow2(1077),
        360 * one() == (45 * pow2(47)) * pow2(1030),
        0 < 360 * one() < pow2(1083),
{
    lemma2_to64();
    lemma2_to64_rest();
    lemma_pow2_adds(1074, 3);
    lemma_pow2_adds(47, 1030);
    lemma_pow2_adds(1077, 6);
    lemma_pow2_pos(1074);
    lemma_pow2_pos(1077);
    assert(45 * (pow2(47) * pow2(1030)) == (45 * pow2(47)) * pow2(1030)) by (nonlinear_arith);
}

/// What is left of a finite angle after whole turns are taken off needs no rounding.
proof fn lemma_remainder_is_double(x: Double)
    requires
        x.finite(),
    ensures
        is_double(x.size() % (360 * one())),
        0 <= x.size() % (360 * one()) < 360 * one(),
{
    let turn = 360 * one();
    let u = x.size();
    let m = u % turn;
    lemma_turn();
    lemma_size(x);
    lemma_finite_is_double(x);
    lemma_mod_bound(u, turn);
    if u < turn {
        lemma_small_mod(u as nat, turn as nat);
    } else {
        // The angle is a multiple of what its last bit stands for, and so is a turn.
        let g = pow2(1030) as int;
        let k = level(u);
        let h = pow2(k) as int;
        lemma_pow2_pos(1030);
        lemma_pow2_pos(k);
        lemma_level_bounds(u);
        lemma2_to64();
        lemma2_to64_rest();
        lemma_pow2_adds(1077, 5);
        if k < 1030 {
            lemma_pow2_at_most((53 + k) as nat, 1082);
        }
        lemma_pow2_adds(1030, (k - 1030) as nat);
        lemma_fundamental_div_mod(u, h);
        lemma_fundamental_div_mod(u, turn);
        let (a, b) = (u / h, u / turn);
        let c = pow2((k - 1030) as nat) as int;
        let w = 45 * pow2(47) as int;
        let q = a * c - w * b;
        assert(m == q * g) by (nonlinear_arith)
            requires
                u == h * a,
                u == turn * b + m,
                h == g * c,
                turn == w * g,
                q == a * c - w * b,
        ;
        lemma_pow2_adds(53, 1030);
        assert(0 <= q < 2 * LEADING) by (nonlinear_arith)
            requires
                m == q * g,
                0 <= m < (2 * LEADING) * g,
                g > 0,
        ;
        lemma_multiple_is_double(q, 1030);
    }
}

/// So many whole turns, in units.
pub open spec fn whole(turns: int) -> int {
    turns * (360 * one())
}

/// Half the gap between the numbers just below a whole turn, in units: 2^-45 degrees.
pub open spec fn half_gap() -> int {
    pow2(1029) as int
}

/// Below a whole turn, the gap between numbers is no more than twice that.
proof fn lemma_gap(u: int)
    requires
        0 <= u <= 360 * one(),
    ensures
        u / 1 == u,
        pow2(level(u)) <= 2 * half_gap(),
{
    lemma_turn();
    lemma_level_bounds(u);
    lemma_pow2_adds(1029, 1);
    lemma2_to64();
    let l = level(u);
    if l > 1030 {
        lemma_pow2_at_most(1083, (52 + l) as nat);
    }
    if l < 1030 {
        lemma_pow2_strictly_increases(l, 1030);
    }
}

/// What a finite angle is brought to. Only for a negative one is there a rounding.
proof fn lemma_normalized(x: Double)
    requires
        x.finite(),
    ensures
        ({
            let m = x.size() % (360 * one());
            let n = normalized(x).units();
            &&& !x.negative() || m == 0 ==> n == m
            &&& x.negative() && m > 0 ==> (n == 0 && m <= half_gap()) || -half_gap() <= n - (360 * one() - m)
                <= half_gap()
        }),
{
    let turn = integer(360);
    let m = x.size() % (360 * one());
    lemma_integer(0);
    lemma_integer(360);
    assert(0 * one() == 0);
    lemma_turn();
    reveal(Double::remainder);
    reveal(Double::plus);
    lemma_size(x);
    lemma_size(turn);
    lemma_remainder_is_double(x);
    lemma_finite_is_double(turn);
    lemma_double_of(x.negative(), m);
    lemma_double_of_exact(x.negative(), m);
    let r = x.remainder(turn);
    lemma_size(r);
    if x.negative() && m > 0 {
        let sum = 360 * one() - m;
        let near = nearest_units(sum, 1);
        assert(r.units() + turn.units() == sum);
        law_rounding_is_nearest(sum, 1, 360 * one());
        lemma_nearest_not_negative(sum);
        lemma_nearest_is_double(sum, 1);
        lemma_double_of(false, near);
        lemma_double_of_exact(false, near);
        lemma_size(r.plus(turn));
        lemma_gap(sum);
        assert(distance(sum, 1, near) <= half_gap());
    }
}

/// An angle that lies in `[0, 360)` stays as it is.
pub proof fn law_normalize_keeps(deg: Double)
    requires
        deg.finite(),
        0 <= deg.units() < 360 * one(),
    ensures
        normalized(deg) == deg,
{
    let turn = integer(360);
    let u = deg.size();
    lemma_integer(0);
    lemma_integer(360);
    assert(0 * one() == 0);
    lemma_turn();
    reveal(Double::remainder);
    lemma_size(deg);
    lemma_small_mod(u as nat, (360 * one()) as nat);
    lemma_finite_is_double(deg);
    lemma_double_of(deg.negative(), u);
    lemma_double_of_exact(deg.negative(), u);
    // Two doubles of one sign and one size are one.
    let r = double_of(deg.negative(), u);
    if r.magnitude_bits() < deg.magnitude_bits() {
        lemma_magnitude_increases(r.magnitude_bits(), deg.magnitude_bits());
    }
    if deg.magnitude_bits() < r.magnitude_bits() {
        lemma_magnitude_increases(deg.magnitude_bits(), r.magnitude_bits());
    }
    assert(r.bits == deg.bits);
}

/// Normalizing twice is normalizing once.
pub proof fn law_normalize_once(deg: Double)
    requires
        deg.finite(),
    ensures
        normalized(normalized(deg)) == normalized(deg),
{
    law_normalized_range(deg);
    let n = normalized(deg);
    lemma_integer(360);
    lemma_size(n);
    if n.infinite() {
        lemma_magnitude_increases(integer(360).magnitude_bits(), n.magnitude_bits());
    }
    law_normalize_keeps(n);
}

/// Normalizing takes off or adds whole turns, and nothing else: where the angle is not
/// negative exactly, else to half a gap.
pub proof fn law_normalize_by_turns(deg: Double)
    requires
        deg.finite(),
    ensures
        exists|turns: int|
            -half_gap() <= normalized(deg).units() - (deg.units() + #[trigger] whole(turns)) <= half_gap(),
        !deg.negative() ==> normalized(deg).units() == deg.units() % (360 * one()),
{
    let turn = 360 * one();
    let u = deg.size();
    let m = u % turn;
    let n = normalized(deg).units();
    let q = u / turn;
    lemma_turn();
    lemma_pow2_pos(1029);
    lemma_size(deg);
    lemma_normalized(deg);
    lemma_fundamental_div_mod(u, turn);
    lemma_mod_bound(u, turn);
    assert((-q) * turn == -(turn * q) && q * turn == turn * q && (q + 1) * turn == turn * q + turn) by (nonlinear_arith);
    let turns: int = if !deg.negative() {
        -q
    } else if m == 0 || (n == 0 && m <= half_gap()) {
        q
    } else {
        q + 1
    };
    assert(-half_gap() <= n - (deg.units() + whole(turns)) <= half_gap());
}

/// The roll that an angle from east to the image's right stands for, in degrees.
pub open spec fn roll_of_degrees(theta_deg: Double, parity_flip: bool) -> Double {
    let r = theta_deg.plus(integer(180));
    normalized(
        if parity_flip {
            r.negation()
        } else {
            r
        },
    )
}

/// The roll, in degrees, that an angle from east to the image's right stands for, in
/// radians.
pub open spec fn roll_of(theta_rad: Double, parity_flip: bool) -> Double {
    roll_of_degrees(theta_rad.degrees(), parity_flip)
}

/// The rotation of celestial north relative to the image's up, in degrees.
///
/// `theta_rad` is the angle from the tangent plane's east axis to the camera's +X,
/// counter-clockwise: 180 degrees less than the roll. In a mirrored image it is
/// measured in the mirror-corrected frame, so the sign of the roll inverts.
pub fn roll_deg(theta_rad: Double, parity_flip: bool) -> (r: Double)
    ensures
        r == roll_of(theta_rad, parity_flip),
{
    let r: Double = theta_rad.to_degrees().add(Double::from_u64(180));
    normalize_deg(
        if parity_flip {
            r.neg()
        } else {
            r
        },
    )
}

/// A roll lies in `[0, 360)`, mirrored or not.
pub proof fn law_roll_range(theta_rad: Double, parity_flip: bool)
    requires
        theta_rad.degrees().plus(integer(180)).finite(),
    ensures
        !roll_of(theta_rad, parity_flip).nan(),
        0 <= roll_of(theta_rad, parity_flip).units() < 360 * one(),
{
    let r = theta_rad.degrees().plus(integer(180));
    if parity_flip {
        law_normalized_range(r.negation());
    } else {
        law_normalized_range(r);
    }
}

/// A number that is no larger than an integer is finite.
proof fn lemma_small_is_finite(x: Double, n: nat)
    requires
        !x.nan(),
        x.size() <= n * one(),
        0 < n < 1000,
    ensures
        x.finite(),
{
    lemma2_to64_rest();
    lemma_integer(n);
    lemma_size(integer(n));
    if x.infinite() {
        lemma_magnitude_increases(integer(n).magnitude_bits(), x.magnitude_bits());
    }
}

/// A radian is less than sixty-four degrees.
proof fn lemma_degrees_per_radian()
    ensures
        ({
            let c = Double { bits: DEGREES_PER_RADIAN };
            c.finite() && c.size() <= 64 * one()
        }),
{
    let m = DEGREES_PER_RADIAN as int;
    let lead = LEADING as int;
    let g = pow2(1027) as int;
    lemma2_to64();
    lemma2_to64_rest();
    lemma_pow2_pos(1027);
    lemma_pow2_adds(53, 1027);
    lemma_pow2_adds(6, 1074);
    assert(m / lead == 1028 && m % lead == 0xc_a5dc_1a63_c1f8);
    assert((lead + 0xc_a5dc_1a63_c1f8) * g <= (2 * lead) * g) by (nonlinear_arith)
        requires
            lead == 0x10_0000_0000_0000,
            g > 0,
    ;
}

/// An angle of no more than seven radians, either way, has a roll: in degrees, and
/// with half a turn added, it is still finite.
pub proof fn law_angles_have_rolls(theta_rad: Double)
    requires
        theta_rad.finite(),
        -7 * one() <= theta_rad.units() <= 7 * one(),
    ensures
        theta_rad.degrees().plus(integer(180)).finite(),
{
    let c = Double { bits: DEGREES_PER_RADIAN };
    let d = theta_rad.degrees();
    let (a, b) = (theta_rad.size(), c.size());
    lemma2_to64_rest();
    lemma_pow2_pos(1074);
    reveal(Double::times);
    reveal(Double::plus);
    lemma_size(theta_rad);
    lemma_size(c);
    lemma_integer(448);
    lemma_integer(180);
    lemma_integer(628);
    lemma_size(integer(448));
    lemma_size(integer(628));
    lemma_finite_is_double(integer(448));
    lemma_finite_is_double(integer(628));
    lemma_degrees_per_radian();
    assert(0 <= a * b <= (448 * one()) * one()) by (nonlinear_arith)
        requires
            0 <= a <= 7 * one(),
            0 <= b <= 64 * one(),
    ;
    let near = nearest_units(a * b, one());
    law_rounding_is_nearest(a * b, one(), 448 * one());
    lemma_nearest_is_double(a * b, one());
    lemma_double_of(d.negative(), near);
    lemma_double_of(theta_rad.negative() != c.negative(), near);
    lemma_size(d);
    lemma_small_is_finite(d, 448);
    let sum = d.units() + 180 * one();
    let t = d.plus(integer(180));
    if sum > 0 {
        law_rounding_is_nearest(sum, 1, 628 * one());
        lemma_nearest_is_double(sum, 1);
        lemma_double_of(false, nearest_units(sum, 1));
    } else if sum < 0 {
        law_rounding_is_nearest(-sum, 1, 628 * one());
        lemma_nearest_is_double(-sum, 1);
        lemma_double_of(true, nearest_units(-sum, 1));
    } else {
        lemma_double_of(false, 0);
    }
    lemma_small_is_finite(t, 628);
}

/// The rolls of an image and of its mirror image make up a whole turn, or nothing, to
/// half a gap.
pub proof fn law_mirror_inverts_roll(theta_rad: Double)
    requires
        theta_rad.degrees().plus(integer(180)).finite(),
    ensures
        ({
            let both = roll_of(theta_rad, false).units() + roll_of(theta_rad, true).units();
            -half_gap() <= both <= half_gap() || -half_gap() <= both - 360 * one() <= half_gap()
        }),
{
    let r = theta_rad.degrees().plus(integer(180));
    assert(r.negation().negative() != r.negative());
    assert(r.negation().magnitude_bits() == r.magnitude_bits());
    lemma_turn();
    lemma_pow2_pos(1029);
    lemma_size(r);
    lemma_mod_bound(r.size(), 360 * one());
    lemma_normalized(r);
    lemma_normalized(r.negation());
}

/// The angle whose roll an attitude gives, in degrees, not normalized.
pub open spec fn theta_degrees(roll: Double) -> Double {
    roll.minus(integer(180))
}

/// The angle from east to the image's right that a roll stands for: `roll_deg`
/// undone. From degrees to radians.
pub fn theta_rad(roll: Double) -> (r: Double)
    ensures
        r == theta_degrees(roll).radians(),
{
    roll.sub(Double::from_u64(180)).to_radians()
}

/// A sum of no more than a whole turn, either way, is off by half a gap at most.
pub proof fn lemma_sum(a: Double, b: Double)
    requires
        a.finite(),
        b.finite(),
        -360 * one() <= a.units() + b.units() <= 360 * one(),
    ensures
        ({
            let s = a.plus(b);
            let sum = a.units() + b.units();
            &&& s.finite()
            &&& -half_gap() <= s.units() - sum <= half_gap()
            &&& sum >= 0 ==> 0 <= s.units() <= 360 * one()
            &&& -180 * one() <= sum <= 180 * one() ==> -180 * one() <= s.units() <= 180 * one()
        }),
{
    let sum = a.units() + b.units();
    let size = if sum < 0 {
        -sum
    } else {
        sum
    };
    let s = a.plus(b);
    let turn = integer(360);
    reveal(Double::plus);
    lemma_turn();
    lemma_pow2_pos(1029);
    lemma_integer(180);
    lemma_integer(360);
    lemma_size(integer(180));
    lemma_size(turn);
    lemma_finite_is_double(integer(180));
    lemma_finite_is_double(turn);
    if sum == 0 {
        lemma_double_of(a.negative() && b.negative(), 0);
    } else {
        let near = nearest_units(size, 1);
        law_rounding_is_nearest(size, 1, 180 * one());
        law_rounding_is_nearest(size, 1, 360 * one());
        lemma_nearest_not_negative(size);
        lemma_nearest_is_double(size, 1);
        lemma_double_of(sum < 0, near);
        lemma_double_of_exact(sum < 0, near);
        lemma_gap(size);
        assert(distance(size, 1, near) <= half_gap());
    }
    lemma_size(s);
    lemma_small_is_finite(s, 360);
}

/// `b` is `a`, to twice half a gap; or it is a whole turn less.
pub open spec fn is_close(a: Double, b: Double) -> bool {
    let d = b.units() - a.units();
    -2 * half_gap() <= d <= 2 * half_gap() || -2 * half_gap() <= d + 360 * one() <= 2 * half_gap()
}

/// Taking half a turn off a roll gives back the angle that it was made of, from half a
/// turn one way to half a turn the other, but for rounding. An angle that was rounded
/// up to half a turn comes back as half a turn the other way.
pub proof fn law_theta_undoes_roll(theta: Double)
    requires
        theta.finite(),
        -180 * one() <= theta.units() < 180 * one(),
    ensures
        is_close(theta, theta_degrees(roll_of_degrees(theta, false))),
{
    let half = integer(180);
    let r = theta.plus(half);
    lemma_integer(0);
    lemma_integer(180);
    lemma_turn();
    lemma_pow2_pos(1029);
    lemma_sum(theta, half);
    let n = normalized(r);
    if r.units() < 360 * one() {
        law_normalize_keeps(r);
    } else {
        lemma_normalized(r);
        lemma_size(r);
        law_normalized_range(r);
        lemma_size(n);
        assert((360 * one()) % (360 * one()) == 0);
        assert(n.units() == 0);
        lemma_small_is_finite(n, 360);
    }
    assert(half.negation().units() == -180 * one());
    lemma_sum(n, half.negation());
}

/// Making a roll of the angle that a roll stands for gives the roll back, but for
/// rounding. A roll that was rounded up to a whole turn comes back as none.
pub proof fn law_roll_undoes_theta(roll: Double)
    requires
        roll.finite(),
        0 <= roll.units() < 360 * one(),
    ensures
        is_close(roll, roll_of_degrees(theta_degrees(roll), false)),
{
    let half = integer(180);
    let theta = theta_degrees(roll);
    lemma_integer(0);
    lemma_integer(180);
    lemma_turn();
    lemma_pow2_pos(1029);
    assert(half.negation().units() == -180 * one());
    lemma_sum(roll, half.negation());
    let r = theta.plus(half);
    lemma_sum(theta, half);
    let n = normalized(r);
    if r.units() < 360 * one() {
        law_normalize_keeps(r);
    } else {
        lemma_normalized(r);
        lemma_size(r);
        assert((360 * one()) % (360 * one()) == 0);
        assert(n.units() == 0);
    }
}

/// A vector of three doubles.
#[derive(Clone, Copy, Debug, PartialEq, Eq, Structural)]
pub struct Vector {
    pub x: Double,
    pub y: Double,
    pub z: Double,
}

impl Vector {
    pub open spec fn negation(self) -> Vector {
        Vector { x: self.x.negation(), y: self.y.negation(), z: self.z.negation() }
    }

    /// The cross product: each component is a difference of two rounded products.
    pub open spec fn crossed(self, b: Vector) -> Vector {
        Vector {
            x: self.y.times(b.z).minus(self.z.times(b.y)),
            y: self.z.times(b.x).minus(self.x.times(b.z)),
            z: self.x.times(b.y).minus(self.y.times(b.x)),
        }
    }

    /// The exact inner product, in units squared.
    pub open spec fn dot(self, b: Vector) -> int {
        self.x.units() * b.x.units() + self.y.units() * b.y.units() + self.z.units() * b.z.units()
    }

    pub fn neg(&self) -> (r: Vector)
        ensures
            r == self.negation(),
    {
        Vector { x: self.x.neg(), y: self.y.neg(), z: self.z.neg() }
    }

    pub fn cross(&self, b: Vector) -> (r: Vector)
        ensures
            r == self.crossed(b),
    {
        Vector {
            x: self.y.mul(b.z).sub(self.z.mul(b.y)),
            y: self.z.mul(b.x).sub(self.x.mul(b.z)),
            z: self.x.mul(b.y).sub(self.y.mul(b.x)),
        }
    }
}

/// Three vectors, the rows of a 3x3 matrix.
#[derive(Clone, Copy, Debug, PartialEq, Eq, Structural)]
pub struct Matrix {
    pub row0: Vector,
    pub row1: Vector,
    pub row2: Vector,
}

impl Matrix {
    /// The exact determinant, in units cubed.
    pub open spec fn determinant(self) -> int {
        let a = self.row0;
        let b = self.row1;
        let c = self.row2;
        a.x.units() * (b.y.units() * c.z.units() - b.z.units() * c.y.units()) - a.y.units() * (b.x.units()
            * c.z.units() - b.z.units() * c.x.units()) + a.z.units() * (b.x.units() * c.y.units() - b.y.units()
            * c.x.units())
    }

    /// The entries, row by row.
    pub open spec fn entries(self) -> Seq<Double> {
        seq![
            self.row0.x,
            self.row0.y,
            self.row0.z,
            self.row1.x,
            self.row1.y,
            self.row1.z,
            self.row2.x,
            self.row2.y,
            self.row2.z,
        ]
    }

    pub fn to_vec(&self) -> (v: Vec<Double>)
        ensures
            v@ == self.entries(),
    {
        vec![
            self.row0.x,
            self.row0.y,
            self.row0.z,
            self.row1.x,
            self.row1.y,
            self.row1.z,
            self.row2.x,
            self.row2.y,
            self.row2.z,
        ]
    }
}

/// From the solver's axes (right, down, boresight) to (boresight, left, up).
pub open spec fn boresight_left_up(camera: Matrix) -> Matrix {
    Matrix { row0: camera.row2, row1: camera.row0.negation(), row2: camera.row1.negation() }
}

/// The rotation matrix in the callers' axes.
///
/// Takes the matrix that turns sky vectors into the solver's camera frame, whose
/// rows are the camera's right, down and boresight; gives the one whose rows are
/// boresight, left and up. A mirrored image has no such matrix: what is returned
/// then describes the mirror-corrected image, as the solver's own matrix does.
pub fn tetra3_rotation_matrix(camera: Matrix) -> (r: Matrix)
    ensures
        r == boresight_left_up(camera),
{
    Matrix { row0: camera.row2, row1: camera.row0.neg(), row2: camera.row1.neg() }
}

proof fn lemma_negation(v: Vector)
    ensures
        v.negation().x.units() == -v.x.units(),
        v.negation().y.units() == -v.y.units(),
        v.negation().z.units() == -v.z.units(),
{
}

/// A determinant does not change when its rows move round.
proof fn lemma_rows_turn(ax: int, ay: int, az: int, bx: int, by: int, bz: int, cx: int, cy: int, cz: int)
    ensures
        cx * (ay * bz - az * by) - cy * (ax * bz - az * bx) + cz * (ax * by - ay * bx) == ax * (by * cz - bz * cy) - ay
            * (bx * cz - bz * cx) + az * (bx * cy - by * cx),
{
    assert(cx * (ay * bz - az * by) == ay * (bz * cx) - az * (by * cx)) by (nonlinear_arith);
    assert(cy * (ax * bz - az * bx) == ax * (bz * cy) - az * (bx * cy)) by (nonlinear_arith);
    assert(cz * (ax * by - ay * bx) == ax * (by * cz) - ay * (bx * cz)) by (nonlinear_arith);
    assert(ax * (by * cz - bz * cy) == ax * (by * cz) - ax * (bz * cy)) by (nonlinear_arith);
    assert(ay * (bx * cz - bz * cx) == ay * (bx * cz) - ay * (bz * cx)) by (nonlinear_arith);
    assert(az * (bx * cy - by * cx) == az * (bx * cy) - az * (by * cx)) by (nonlinear_arith);
}

/// Changing axes keeps a rotation a rotation. The determinant stays what it was, so
/// the sky is not mirrored; and the rows keep their lengths and their angles, but
/// for the signs of the two that are turned round.
pub proof fn law_rotation_stays_proper(camera: Matrix)
    ensures
        boresight_left_up(camera).determinant() == camera.determinant(),
        ({
            let r = boresight_left_up(camera);
            &&& r.row0.dot(r.row0) == camera.row2.dot(camera.row2)
            &&& r.row1.dot(r.row1) == camera.row0.dot(camera.row0)
            &&& r.row2.dot(r.row2) == camera.row1.dot(camera.row1)
            &&& r.row0.dot(r.row1) == -camera.row2.dot(camera.row0)
            &&& r.row0.dot(r.row2) == -camera.row2.dot(camera.row1)
            &&& r.row1.dot(r.row2) == camera.row0.dot(camera.row1)
        }),
{
    let a = camera.row0;
    let b = camera.row1;
    let c = camera.row2;
    lemma_negation(a);
    lemma_negation(b);
    let (ax, ay, az) = (a.x.units(), a.y.units(), a.z.units());
    let (bx, by, bz) = (b.x.units(), b.y.units(), b.z.units());
    let (cx, cy, cz) = (c.x.units(), c.y.units(), c.z.units());
    assert((-ay) * (-bz) == ay * bz && (-az) * (-by) == az * by && (-ax) * (-bz) == ax * bz && (-az) * (-bx) == az * bx)
        by (nonlinear_arith);
    assert((-ax) * (-by) == ax * by && (-ay) * (-bx) == ay * bx) by (nonlinear_arith);
    lemma_rows_turn(ax, ay, az, bx, by, bz, cx, cy, cz);
    assert((-ax) * (-ax) == ax * ax && (-ay) * (-ay) == ay * ay && (-az) * (-az) == az * az) by (nonlinear_arith);
    assert((-bx) * (-bx) == bx * bx && (-by) * (-by) == by * by && (-bz) * (-bz) == bz * bz) by (nonlinear_arith);
    assert(cx * (-ax) == -(cx * ax) && cy * (-ay) == -(cy * ay) && cz * (-az) == -(cz * az)) by (nonlinear_arith);
    assert(cx * (-bx) == -(cx * bx) && cy * (-by) == -(cy * by) && cz * (-bz) == -(cz * bz)) by (nonlinear_arith);
    assert((-ax) * (-bx) == ax * bx && (-ay) * (-by) == ay * by && (-az) * (-bz) == az * bz) by (nonlinear_arith);
}

/// What turns a vector that lies along a camera axis into the callers' axes: the
/// product of the new matrix with a vector is made of the products of the old rows.
pub proof fn law_axes_are_permuted(camera: Matrix, v: Vector)
    ensures
        boresight_left_up(camera).row0.dot(v) == camera.row2.dot(v),
        boresight_left_up(camera).row1.dot(v) == -camera.row0.dot(v),
        boresight_left_up(camera).row2.dot(v) == -camera.row1.dot(v),
{
    let a = camera.row0;
    let b = camera.row1;
    lemma_negation(a);
    lemma_negation(b);
    let (x, y, z) = (v.x.units(), v.y.units(), v.z.units());
    let (ax, ay, az) = (a.x.units(), a.y.units(), a.z.units());
    let (bx, by, bz) = (b.x.units(), b.y.units(), b.z.units());
    assert((-ax) * x == -(ax * x) && (-ay) * y == -(ay * y) && (-az) * z == -(az * z)) by (nonlinear_arith);
    assert((-bx) * x == -(bx * x) && (-by) * y == -(by * y) && (-bz) * z == -(bz * z)) by (nonlinear_arith);
}

/// The sine and the cosine of an angle.
#[derive(Clone, Copy, Debug, PartialEq, Eq, Structural)]
pub struct SinCos {
    pub sin: Double,
    pub cos: Double,
}

/// The direction of the boresight.
pub open spec fn boresight_of(ra: SinCos, dec: SinCos) -> Vector {
    Vector { x: dec.cos.times(ra.cos), y: dec.cos.times(ra.sin), z: dec.sin }
}

/// The direction of increasing right ascension at the boresight.
pub open spec fn east_of(ra: SinCos) -> Vector {
    Vector { x: ra.sin.negation(), y: ra.cos, z: integer(0) }
}

/// The direction of increasing declination at the boresight.
pub open spec fn north_of(ra: SinCos, dec: SinCos) -> Vector {
    Vector { x: dec.sin.negation().times(ra.cos), y: dec.sin.negation().times(ra.sin), z: dec.cos }
}

/// `theta` from east toward north.
pub open spec fn right_of(ra: SinCos, dec: SinCos, theta: SinCos) -> Vector {
    let e = east_of(ra);
    let n = north_of(ra, dec);
    Vector {
        x: theta.cos.times(e.x).plus(theta.sin.times(n.x)),
        y: theta.cos.times(e.y).plus(theta.sin.times(n.y)),
        z: theta.cos.times(e.z).plus(theta.sin.times(n.z)),
    }
}

/// The camera axes of an attitude, in sky coordinates: the rows of the matrix that
/// turns sky vectors into the camera frame. `theta` is the angle that `theta_rad`
/// gives for the attitude's roll.
///
/// Image right lies in the tangent plane, `theta` from east toward north; image
/// down completes the right-handed frame.
pub fn camera_axes(ra: SinCos, dec: SinCos, theta: SinCos) -> (m: Matrix)
    ensures
        m.row2 == boresight_of(ra, dec),
        m.row0 == right_of(ra, dec, theta),
        m.row1 == boresight_of(ra, dec).crossed(right_of(ra, dec, theta)),
{
    let boresight: Vector = Vector { x: dec.cos.mul(ra.cos), y: dec.cos.mul(ra.sin), z: dec.sin };
    let east: Vector = Vector { x: ra.sin.neg(), y: ra.cos, z: Double::from_u64(0) };
    let south: Double = dec.sin.neg();
    let north: Vector = Vector { x: south.mul(ra.cos), y: south.mul(ra.sin), z: dec.cos };
    let right: Vector = Vector {
        x: theta.cos.mul(east.x).add(theta.sin.mul(north.x)),
        y: theta.cos.mul(east.y).add(theta.sin.mul(north.y)),
        z: theta.cos.mul(east.z).add(theta.sin.mul(north.z)),
    };
    Matrix { row0: right, row1: boresight.cross(right), row2: boresight }
}

/// The angles of an attitude, in radians.
#[derive(Clone, Copy, Debug, PartialEq, Eq, Structural)]
pub struct AttitudeAngles {
    pub ra: Double,
    pub dec: Double,
    pub theta: Double,
}

/// The angles whose sines and cosines make the axes of an attitude.
pub fn attitude_angles(attitude: EquatorialCoordinates) -> (r: AttitudeAngles)
    ensures
        r.ra == attitude.ra.radians(),
        r.dec == attitude.dec.radians(),
        r.theta == theta_degrees(attitude.north_roll_angle).radians(),
{
    AttitudeAngles {
        ra: attitude.ra.to_radians(),
        dec: attitude.dec.to_radians(),
        theta: theta_rad(attitude.north_roll_angle),
    }
}

/// Two angles in degrees are the same, to `e` units and whole turns.
pub open spec fn is_same_angle(a: int, b: int, e: int) -> bool {
    exists|turns: int| -e <= a - (b + #[trigger] whole(turns)) <= e
}

proof fn lemma_turns(turns: int)
    ensures
        whole(turns) == turns * 360 * one(),
        whole(turns) + whole(1) == whole(turns + 1),
        whole(-turns) == -whole(turns),
        whole(1) == 360 * one(),
        whole(0) == 0,
{
    let t = 360 * one();
    assert(turns * t == turns * 360 * one() && turns * t + t == (turns + 1) * t && (-turns) * t == -(turns * t) && 1 * t == t && 0 * t == 0)
        by (nonlinear_arith)
        requires
            t == 360 * one(),
    ;
}

/// Normalizing an angle gives the same angle, from none to less than a whole turn.
pub proof fn law_normalized_is_the_same_angle(deg: Double, r: Double)
    requires
        call_ensures(normalize_deg, (deg,), r),
        deg.finite(),
    ensures
        !r.nan(),
        0 <= r.units() < 360 * one(),
        is_same_angle(r.units(), deg.units(), half_gap()),
        !deg.negative() ==> is_same_angle(r.units(), deg.units(), 0),
{
    law_normalized_range(deg);
    law_normalize_by_turns(deg);
    if !deg.negative() {
        let (u, turn) = (deg.units(), 360 * one());
        lemma_turn();
        lemma_size(deg);
        lemma_fundamental_div_mod(u, turn);
        let q = u / turn;
        lemma_turns(q);
        assert(turn * q == q * turn) by (nonlinear_arith);
        assert(r.units() - (u + whole(-q)) == 0);
    }
}

/// A remainder by a turn is the same angle, from none to a whole turn.
pub proof fn lemma_turn_remainder_is_the_same_angle(deg: Double)
    requires
        deg.finite(),
    ensures
        !turn_remainder(deg).nan(),
        0 <= turn_remainder(deg).units() <= 360 * one(),
        is_same_angle(turn_remainder(deg).units(), deg.units(), half_gap()),
{
    let t = turn_remainder(deg);
    law_turn_remainder_range(deg);
    law_normalize_by_turns(deg);
    lemma_integer(0);
    lemma_integer(360);
    assert(0 * one() == 0);
    let turns = choose|turns: int|
        -half_gap() <= normalized(deg).units() - (deg.units() + #[trigger] whole(turns)) <= half_gap();
    lemma_turns(turns);
    if integer(360).at_most(t) {
        assert(-half_gap() <= t.units() - (deg.units() + whole(turns + 1)) <= half_gap());
    } else {
        assert(-half_gap() <= t.units() - (deg.units() + whole(turns)) <= half_gap());
    }
}

/// A remainder by a turn is the same angle, from none to a whole turn.
pub proof fn law_remainder_is_the_same_angle(deg: Double, r: Double)
    requires
        call_ensures(turn_rem, (deg,), r),
        deg.finite(),
    ensures
        !r.nan(),
        0 <= r.units() <= 360 * one(),
        is_same_angle(r.units(), deg.units(), half_gap()),
{
    lemma_turn_remainder_is_the_same_angle(deg);
}

/// The roll is half a turn more than the angle from east to the image's right, brought
/// into a turn; in a mirrored image it goes the other way.
pub proof fn law_roll_is_half_a_turn_on(
    theta_rad: Double,
    parity_flip: bool,
    theta_deg: Double,
    half: Double,
    sum: Double,
    r: Double,
)
    requires
        call_ensures(Double::to_degrees, (&theta_rad,), theta_deg),
        call_ensures(Double::from_u64, (180u64,), half),
        call_ensures(Double::add, (&theta_deg, half), sum),
        call_ensures(roll_deg, (theta_rad, parity_flip), r),
        sum.finite(),
    ensures
        !r.nan(),
        0 <= r.units() < 360 * one(),
        !parity_flip ==> is_same_angle(r.units(), sum.units(), half_gap()),
        parity_flip ==> is_same_angle(r.units(), -sum.units(), half_gap()),
{
    let x = if parity_flip {
        sum.negation()
    } else {
        sum
    };
    law_normalized_range(x);
    law_normalize_by_turns(x);
    assert(x.units() == (if parity_flip { -sum.units() } else { sum.units() }));
}

/// For an angle of at most half a turn, either way, the roll is half a turn more to two
/// roundings; in a mirrored image it goes the other way.
pub proof fn law_roll_tells_the_angle(theta_rad: Double, parity_flip: bool, theta_deg: Double, r: Double)
    requires
        call_ensures(Double::to_degrees, (&theta_rad,), theta_deg),
        call_ensures(roll_deg, (theta_rad, parity_flip), r),
        theta_deg.finite(),
        -180 * one() <= theta_deg.units() <= 180 * one(),
    ensures
        !r.nan(),
        0 <= r.units() < 360 * one(),
        !parity_flip ==> is_same_angle(r.units(), theta_deg.units() + 180 * one(), 2 * half_gap()),
        parity_flip ==> is_same_angle(r.units(), -(theta_deg.units() + 180 * one()), 2 * half_gap()),
{
    let half = integer(180);
    let sum = theta_deg.plus(half);
    lemma_integer(180);
    lemma_pow2_pos(1074);
    lemma_sum(theta_deg, half);
    let x = if parity_flip {
        sum.negation()
    } else {
        sum
    };
    law_normalized_range(x);
    law_normalize_by_turns(x);
    assert(x.units() == (if parity_flip { -sum.units() } else { sum.units() }));
    let turns = choose|turns: int|
        -half_gap() <= normalized(x).units() - (x.units() + #[trigger] whole(turns)) <= half_gap();
    if parity_flip {
        assert(-2 * half_gap() <= r.units() - (-(theta_deg.units() + 180 * one()) + whole(turns)) <= 2 * half_gap());
    } else {
        assert(-2 * half_gap() <= r.units() - (theta_deg.units() + 180 * one() + whole(turns)) <= 2 * half_gap());
    }
}

/// The angle that a roll stands for is half a turn less, in radians: of a roll from none
/// to a whole turn to two parts in 10^15.
pub proof fn law_theta_tells_the_roll(roll: Double, r: Double)
    requires
        call_ensures(theta_rad, (roll,), r),
        roll.finite(),
        0 <= roll.units() <= 360 * one(),
    ensures
        r.finite(),
        apart(
            r.units() * 1_000_000_000_000_000_000_000,
            (roll.units() - 180 * one()) * 17_453_292_519_943_295_769,
        ) <= 2_000_000 * one(),
{
    let half = integer(180);
    let x = theta_degrees(roll);
    let (o, g) = (one(), half_gap());
    lemma_integer(180);
    assert(half.negation().units() == -180 * o);
    lemma_sum(roll, half.negation());
    lemma_size(x);
    lemma_size(half.negation());
    lemma_pow2_adds(45, 1029);
    lemma2_to64();
    lemma2_to64_rest();
    lemma_pow2_pos(1029);
    assert(o == 0x2000_0000_0000 * g);
    lemma_pow2_adds(60, 40);
    lemma_pow2_strictly_increases(100, 1029);
    lemma_radians_of_a_turn(x);
}

/// The angles of an attitude are its right ascension and its declination, in radians, and
/// the angle that its roll stands for.
pub proof fn law_attitude_angles(
    attitude: EquatorialCoordinates,
    ra: Double,
    dec: Double,
    theta: Double,
    r: AttitudeAngles,
)
    requires
        call_ensures(attitude_angles, (attitude,), r),
        call_ensures(Double::to_radians, (&attitude.ra,), ra),
        call_ensures(Double::to_radians, (&attitude.dec,), dec),
        call_ensures(theta_rad, (attitude.north_roll_angle,), theta),
    ensures
        r.ra == ra,
        r.dec == dec,
        r.theta == theta,
{
}

/// The rotation matrix has the camera's boresight for its first row, the opposite of its
/// right for the second and the opposite of its down for the third, and is written out
/// row by row.
pub proof fn law_rotation_matrix_rows(camera: Matrix, r: Matrix, entries: Vec<Double>)
    requires
        call_ensures(tetra3_rotation_matrix, (camera,), r),
        call_ensures(Matrix::to_vec, (&r,), entries),
    ensures
        r.row0 == camera.row2,
        r.row1.x.units() == -camera.row0.x.units(),
        r.row1.y.units() == -camera.row0.y.units(),
        r.row1.z.units() == -camera.row0.z.units(),
        r.row2.x.units() == -camera.row1.x.units(),
        r.row2.y.units() == -camera.row1.y.units(),
        r.row2.z.units() == -camera.row1.z.units(),
        entries.len() == 9,
        entries@[0] == r.row0.x && entries@[1] == r.row0.y && entries@[2] == r.row0.z,
        entries@[3] == r.row1.x && entries@[4] == r.row1.y && entries@[5] == r.row1.z,
        entries@[6] == r.row2.x && entries@[7] == r.row2.y && entries@[8] == r.row2.z,
{
    lemma_negation(camera.row0);
    lemma_negation(camera.row1);
}

/// What is no finite angle is brought to none, and has no roll.
pub proof fn law_no_angle_no_roll(deg: Double, r: Double, n: Double)
    requires
        call_ensures(turn_rem, (deg,), r),
        call_ensures(normalize_deg, (deg,), n),
        !deg.finite(),
    ensures
        r.nan(),
        n.nan(),
{
    reveal(Double::remainder);
}

/// The negative of a vector is its opposite, part by part.
pub proof fn law_opposite_vectors(a: Vector, x: Double, y: Double, z: Double, r: Vector)
    requires
        call_ensures(Vector::neg, (&a,), r),
        call_ensures(Double::neg, (&a.x,), x),
        call_ensures(Double::neg, (&a.y,), y),
        call_ensures(Double::neg, (&a.z,), z),
    ensures
        r.x == x,
        r.y == y,
        r.z == z,
{
}

/// A cross product is made of differences of products, the right-handed way.
pub proof fn law_cross_products(
    a: Vector,
    b: Vector,
    yz: Double,
    zy: Double,
    zx: Double,
    xz: Double,
    xy: Double,
    yx: Double,
    x: Double,
    y: Double,
    z: Double,
    r: Vector,
)
    requires
        call_ensures(Vector::cross, (&a, b), r),
        call_ensures(Double::mul, (&a.y, b.z), yz),
        call_ensures(Double::mul, (&a.z, b.y), zy),
        call_ensures(Double::mul, (&a.z, b.x), zx),
        call_ensures(Double::mul, (&a.x, b.z), xz),
        call_ensures(Double::mul, (&a.x, b.y), xy),
        call_ensures(Double::mul, (&a.y, b.x), yx),
        call_ensures(Double::sub, (&yz, zy), x),
        call_ensures(Double::sub, (&zx, xz), y),
        call_ensures(Double::sub, (&xy, yx), z),
    ensures
        r.x == x,
        r.y == y,
        r.z == z,
{
}

} // verus!
