//! Scoring a solver against a corpus of frames.

use vstd::prelude::*;

use crate::arithmetic::{apart, integer, lemma_double_of, lemma_finite_is_double, lemma_integer, lemma_size};
use crate::number::{lemma_magnitude_increases, one, Double, SIGN};
use crate::pose::{
    half_gap, is_same_angle, law_turn_remainder_range, lemma_sum, lemma_turn_remainder_is_the_same_angle,
    roll_of_degrees, turn_rem, turn_remainder, whole,
};
use crate::rounding::{law_rounding_is_nearest, lemma_nearest_not_negative, nearest_units};

verus! {

/// The encoding of 0.02.
pub const FOV_TOL_FRAC: u64 = 0x3f94_7ae1_47ae_147b;

/// How far off an image center may be, in arcminutes.
pub const CENTER_TOL_ARCMIN: u64 = 5;

/// How far off a roll may be, in degrees.
pub const ROLL_TOL_DEG: u64 = 1;

/// How the detector bins a sensor's pixels, and whether the display is sampled.
pub open spec fn binning_of(pixels: int) -> (u32, bool) {
    if pixels <= 750_000 {
        (1, false)
    } else if pixels <= 3_000_000 {
        (2, false)
    } else if pixels <= 12_000_000 {
        (4, false)
    } else {
        (4, true)
    }
}

/// The binning for a sensor of `width` by `height` pixels: it goes by megapixels.
pub fn production_binning(width: u32, height: u32) -> (r: (u32, bool))
    requires
        width * height <= u32::MAX,
    ensures
        r == binning_of(width * height),
{
    let pixels: u32 = width * height;
    if pixels <= 750_000 {
        (1, false)
    } else if pixels <= 3_000_000 {
        (2, false)
    } else if pixels <= 12_000_000 {
        (4, false)
    } else {
        (4, true)
    }
}

/// How one frame was solved, held against what is known of it.
#[derive(Debug)]
pub struct Outcome {
    pub name: String,
    pub solved: bool,
    pub center_arcmin: Double,
    pub roll_err_deg: Double,
    pub fov_err_frac: Double,
    pub solve_time_ms: Double,
    pub num_matches: i32,
    pub num_centroids: usize,
}

impl Outcome {
    /// Solved, and within every tolerance. A measurement that is not a number is not.
    pub open spec fn is_passed(&self) -> bool {
        &&& self.solved
        &&& self.center_arcmin.below(integer(CENTER_TOL_ARCMIN as nat))
        &&& magnitude(self.roll_err_deg).below(integer(ROLL_TOL_DEG as nat))
        &&& self.fov_err_frac.below(Double { bits: FOV_TOL_FRAC })
    }

    pub fn passed(&self) -> (b: bool)
        ensures
            b == self.is_passed(),
    {
        self.solved && self.center_arcmin.lt(Double::from_u64(CENTER_TOL_ARCMIN)) && Double {
            bits: self.roll_err_deg.bits % SIGN,
        }.lt(Double::from_u64(ROLL_TOL_DEG)) && self.fov_err_frac.lt(Double { bits: FOV_TOL_FRAC })
    }
}

/// A number without its sign.
pub open spec fn magnitude(x: Double) -> Double {
    Double { bits: (x.bits as int % SIGN as int) as u64 }
}

/// The difference between two angles, taken the short way round.
pub open spec fn circular_difference(a: Double, b: Double) -> Double {
    turn_remainder(a.minus(b).plus(integer(180))).minus(integer(180))
}

/// The smallest signed difference between two angles, in `[-180, 180]` degrees.
pub fn circular_diff_deg(a: Double, b: Double) -> (r: Double)
    ensures
        r == circular_difference(a, b),
{
    let half: Double = Double::from_u64(180);
    turn_rem(a.sub(b).add(half)).sub(half)
}

/// The difference between two angles is at most half a turn, either way.
pub proof fn law_circular_range(a: Double, b: Double)
    requires
        a.minus(b).plus(integer(180)).finite(),
    ensures
        !circular_difference(a, b).nan(),
        -180 * one() <= circular_difference(a, b).units() <= 180 * one(),
{
    let x = a.minus(b).plus(integer(180));
    let r = turn_remainder(x);
    law_turn_remainder_range(x);
    lemma_integer(180);
    lemma_integer(360);
    vstd::arithmetic::power2::lemma_pow2_pos(1074);
    reveal(Double::plus);
    let half = integer(180);
    let d = r.units() - 180 * one();
    assert(half.negation().units() == -180 * one());
    lemma_size(half);
    lemma_finite_is_double(half);
    assert(half.size() == 180 * one());
    if r.infinite() {
        lemma_magnitude_increases(integer(360).magnitude_bits(), r.magnitude_bits());
    }
    let u = if d < 0 {
        -d
    } else {
        d
    };
    law_rounding_is_nearest(u, 1, 180 * one());
    lemma_nearest_not_negative(u);
    lemma_double_of(d < 0, nearest_units(u, 1));
    lemma_double_of(r.negative() && half.negation().negative(), 0);
}

/// The roll that a field has that was drawn with a rotation, in degrees.
pub fn expected_roll_deg(rotation_deg: Double) -> (r: Double)
    ensures
        r == turn_remainder(integer(180).plus(rotation_deg)),
{
    turn_rem(Double::from_u64(180).add(rotation_deg))
}

/// The roll that a solve reports of a field is the one expected of it, where that is
/// less than a whole turn.
pub proof fn law_expected_roll_is_the_roll(rotation_deg: Double)
    requires
        rotation_deg.finite(),
        turn_remainder(integer(180).plus(rotation_deg)).below(integer(360)),
    ensures
        roll_of_degrees(rotation_deg, false) == turn_remainder(integer(180).plus(rotation_deg)),
{
    lemma_integer(180);
    reveal(Double::plus);
    assert(integer(180).plus(rotation_deg) == rotation_deg.plus(integer(180)));
}

/// A stride of zero counts as one.
pub open spec fn step_of(stride: usize) -> int {
    if stride == 0 {
        1
    } else {
        stride as int
    }
}

/// `x` was made of the item that `i` steps lead to.
pub open spec fn is_sample<T: Clone>(items: Seq<T>, step: int, i: int, x: T) -> bool {
    0 <= i * step < items.len() && cloned(items[i * step], x)
}

/// Every `stride`th item, from the first on.
pub fn subsample<T: Clone>(items: &[T], stride: usize) -> (r: Vec<T>)
    ensures
        r.len() == (items@.len() + step_of(stride) - 1) / step_of(stride),
        forall|i: int| 0 <= i < r.len() ==> is_sample(items@, step_of(stride), i, #[trigger] r[i]),
{
    let step: usize = if stride == 0 {
        1
    } else {
        stride
    };
    let len: usize = items.len();
    let ghost s = step as int;
    let mut r: Vec<T> = Vec::new();
    let mut at: usize = 0;
    assert(0 * s == 0);
    while at < len
        invariant
            0 < step,
            s == step,
            len == items@.len(),
            at < len ==> at == r.len() * s,
            at >= len ==> len <= r.len() * s,
            r.len() > 0 ==> (r.len() - 1) * s < len,
            forall|i: int| 0 <= i < r.len() ==> is_sample(items@, s, i, #[trigger] r[i]),
        decreases len - at,
    {
        let ghost n = r.len() as int;
        let ghost before = r@;
        let x: T = items[at].clone();
        assert(is_sample(items@, s, n, x));
        r.push(x);
        assert((n + 1) * s == n * s + s) by (nonlinear_arith);
        at = if step < len - at {
            at + step
        } else {
            len
        };
        assert forall|i: int| 0 <= i < r.len() implies is_sample(items@, s, i, #[trigger] r[i]) by {
            if i < n {
                assert(r[i] == before[i]);
            }
        }
    }
    proof {
        let n = r.len() as int;
        assert((len + s - 1) / s == n) by (nonlinear_arith)
            requires
                0 < s,
                0 <= len <= n * s,
                0 <= n,
                n > 0 ==> (n - 1) * s < len,
        ;
    }
    r
}

/// The binning grows with the sensor: none up to three quarters of a megapixel, by two up
/// to three, by four beyond; and beyond twelve the display is sampled too.
pub proof fn law_binning_goes_by_megapixels(width: u32, height: u32, r: (u32, bool))
    requires
        call_ensures(production_binning, (width, height), r),
    ensures
        r.0 == 1 <==> width * height <= 750_000,
        r.0 == 2 <==> 750_000 < width * height <= 3_000_000,
        r.0 == 4 <==> width * height > 3_000_000,
        r.1 <==> width * height > 12_000_000,
{
}

/// Two hundredths, to half of what lies between two doubles there.
proof fn lemma_two_hundredths()
    ensures
        ({
            let c = Double { bits: FOV_TOL_FRAC };
            &&& !c.nan()
            &&& apart(c.units() * 50_000_000_000_000_000, 1_000_000_000_000_000 * one()) <= one()
        }),
{
    let (m, lead) = (FOV_TOL_FRAC as int, crate::number::LEADING as int);
    vstd::arithmetic::power2::lemma2_to64();
    vstd::arithmetic::power2::lemma2_to64_rest();
    vstd::arithmetic::power2::lemma_pow2_adds(58, 1016);
    vstd::arithmetic::power2::lemma_pow2_pos(1016);
    assert(m / lead == 1017 && m % lead == 0x4_7ae1_47ae_147b);
    let g = vstd::arithmetic::power2::pow2(1016) as int;
    assert((Double { bits: FOV_TOL_FRAC }).units() == 5_764_607_523_034_235 * g);
    assert(one() == 0x400_0000_0000_0000 * g);
}

/// A frame passes when it solved, less than five arcminutes off its center, less than a
/// degree off in roll, either way, and less than two hundredths off in width.
pub proof fn law_frames_pass_within_tolerance(o: Outcome, b: bool)
    requires
        call_ensures(Outcome::passed, (&o,), b),
    ensures
        b ==> o.solved && !o.center_arcmin.nan() && !o.roll_err_deg.nan() && !o.fov_err_frac.nan(),
        o.solved && !o.center_arcmin.nan() && !o.roll_err_deg.nan() && !o.fov_err_frac.nan() ==> {
            let close = o.center_arcmin.units() < 5 * one() && -one() < o.roll_err_deg.units()
                && o.roll_err_deg.units() < one();
            &&& b ==> close && o.fov_err_frac.units() * 50_000_000_000_000_000 <= 1_000_000_000_000_001 * one()
            &&& close && o.fov_err_frac.units() * 50_000_000_000_000_000 < 999_999_999_999_999 * one() ==> b
        },
{
    lemma_integer(5);
    lemma_integer(1);
    lemma_two_hundredths();
    vstd::arithmetic::power2::lemma_pow2_pos(1074);
    assert(1 * one() == one());
    lemma_size(o.roll_err_deg);
    let m = magnitude(o.roll_err_deg);
    assert(m.magnitude_bits() == o.roll_err_deg.magnitude_bits());
    lemma_size(m);
}

/// The difference between two angles is what lies between them, but for rounding and
/// whole turns, and at most half a turn either way.
pub proof fn law_circular_difference_is_the_difference(
    a: Double,
    b: Double,
    difference: Double,
    half: Double,
    sum: Double,
    r: Double,
)
    requires
        call_ensures(Double::sub, (&a, b), difference),
        call_ensures(Double::from_u64, (180u64,), half),
        call_ensures(Double::add, (&difference, half), sum),
        call_ensures(circular_diff_deg, (a, b), r),
        sum.finite(),
    ensures
        !r.nan(),
        -180 * one() <= r.units() <= 180 * one(),
        is_same_angle(r.units(), sum.units() - 180 * one(), 2 * half_gap()),
{
    law_circular_range(a, b);
    lemma_circular(sum, r);
}

proof fn lemma_circular(sum: Double, r: Double)
    requires
        sum.finite(),
        r == turn_remainder(sum).minus(integer(180)),
    ensures
        is_same_angle(r.units(), sum.units() - 180 * one(), 2 * half_gap()),
{
    let t = turn_remainder(sum);
    let half = integer(180);
    lemma_turn_remainder_is_the_same_angle(sum);
    lemma_integer(180);
    lemma_integer(360);
    vstd::arithmetic::power2::lemma_pow2_pos(1074);
    assert(half.negation().units() == -180 * one());
    assert(t.finite()) by {
        lemma_size(t);
        lemma_size(integer(360));
        if t.infinite() {
            lemma_magnitude_increases(integer(360).magnitude_bits(), t.magnitude_bits());
        }
    }
    lemma_sum(t, half.negation());
    let turns = choose|turns: int|
        -half_gap() <= t.units() - (sum.units() + #[trigger] whole(turns)) <= half_gap();
    assert(-2 * half_gap() <= r.units() - (sum.units() - 180 * one() + whole(turns)) <= 2 * half_gap());
}

/// For two angles that are at most half a turn apart, the difference is the one from the
/// second to the first, to four roundings and whole turns.
pub proof fn law_circular_difference_of_near_angles(a: Double, b: Double, r: Double)
    requires
        call_ensures(circular_diff_deg, (a, b), r),
        a.finite(),
        b.finite(),
        -180 * one() <= a.units() - b.units() <= 180 * one(),
    ensures
        !r.nan(),
        -180 * one() <= r.units() <= 180 * one(),
        is_same_angle(r.units(), a.units() - b.units(), 4 * half_gap()),
{
    let d = a.minus(b);
    let half = integer(180);
    vstd::arithmetic::power2::lemma_pow2_pos(1074);
    vstd::arithmetic::power2::lemma_pow2_pos(1029);
    lemma_integer(180);
    assert(b.negation().units() == -b.units());
    lemma_sum(a, b.negation());
    lemma_sum(d, half);
    let sum = d.plus(half);
    law_circular_range(a, b);
    lemma_circular(sum, r);
    let turns = choose|turns: int|
        -2 * half_gap() <= r.units() - (sum.units() - 180 * one() + #[trigger] whole(turns)) <= 2 * half_gap();
    assert(-4 * half_gap() <= r.units() - (a.units() - b.units() + whole(turns)) <= 4 * half_gap());
}

/// The roll that is expected of a field is half a turn more than the rotation it was
/// drawn with, brought into a turn.
pub proof fn law_expected_roll_is_half_a_turn_on(rotation_deg: Double, half: Double, sum: Double, r: Double)
    requires
        call_ensures(Double::from_u64, (180u64,), half),
        call_ensures(Double::add, (&half, rotation_deg), sum),
        call_ensures(expected_roll_deg, (rotation_deg,), r),
        sum.finite(),
    ensures
        !r.nan(),
        0 <= r.units() <= 360 * one(),
        is_same_angle(r.units(), sum.units(), half_gap()),
{
    lemma_turn_remainder_is_the_same_angle(sum);
}

/// A sample holds the first item and then every `stride`th, as far as there are any. A
/// stride of none or one leaves nothing out.
pub proof fn law_samples_are_a_stride_apart<T: Clone>(items: &[T], stride: usize, r: Vec<T>, i: int)
    requires
        call_ensures(subsample::<T>, (items, stride), r),
    ensures
        stride <= 1 ==> r.len() == items@.len(),
        stride <= 1 && 0 <= i < r.len() ==> cloned(items@[i], r@[i]),
        stride > 1 && items@.len() == 0 ==> r.len() == 0,
        stride > 1 && items@.len() > 0 ==> (r.len() - 1) * stride < items@.len() <= r.len() * stride,
        stride > 1 && 0 <= i < r.len() ==> i * stride < items@.len() && cloned(items@[i * stride], r@[i]),
{
    let (n, s) = (items@.len() as int, step_of(stride));
    assert(0 <= i < r.len() ==> is_sample(items@, s, i, r@[i]));
    assert(i * 1 == i);
    let k = (n + s - 1) / s;
    assert(k * s <= n + s - 1 < k * s + s) by (nonlinear_arith)
        requires
            k == (n + s - 1) / s,
            s >= 1,
            n >= 0,
    ;
    assert((k - 1) * s == k * s - s) by (nonlinear_arith);
    if stride <= 1 {
        assert(k * 1 == k);
        assert(r.len() == k);
    }
}

} // verus!
