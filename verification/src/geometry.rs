//! Positions in the image and on the sky.

use vstd::arithmetic::power2::{lemma2_to64, lemma2_to64_rest, lemma_pow2_adds, lemma_pow2_pos, pow2};
use vstd::prelude::*;

use crate::arithmetic::{
    apart, integer, lemma_double_of, lemma_double_of_exact, lemma_finite_is_double, lemma_integer, lemma_plus_exact,
    lemma_size, lemma_sum_is_nearest,
};
use crate::number::{one, Double, LEADING};
use crate::rounding::{double_of, lemma_nearest_exact, lemma_nearest_is_double, lemma_nearest_scales};

verus! {

/// A position in the image, in pixels. The origin is the top left corner, unless a
/// name says that it is centered.
#[derive(Clone, Copy, Debug, PartialEq, Eq, Structural)]
pub struct ImageCoord {
    pub x: Double,
    pub y: Double,
}

/// A position on the sky, in degrees.
#[derive(Clone, Copy, Debug, PartialEq, Eq, Structural)]
pub struct CelestialCoord {
    pub ra: Double,
    pub dec: Double,
}

/// An attitude: where the boresight points, and how far the image is rolled against
/// celestial north. In degrees.
#[derive(Clone, Copy, Debug, PartialEq, Eq, Structural)]
pub struct EquatorialCoordinates {
    pub north_roll_angle: Double,
    pub ra: Double,
    pub dec: Double,
}

/// The size of the image, in pixels.
#[derive(Clone, Copy, Debug, PartialEq, Eq, Structural)]
pub struct Frame {
    pub width: usize,
    pub height: usize,
}

impl Frame {
    pub open spec fn w(self) -> Double {
        integer(self.width as nat)
    }

    pub open spec fn h(self) -> Double {
        integer(self.height as nat)
    }

    pub open spec fn half_w(self) -> Double {
        self.w().over(integer(2))
    }

    pub open spec fn half_h(self) -> Double {
        self.h().over(integer(2))
    }

    /// A corner-based position, measured from the image center.
    pub open spec fn centered(self, p: ImageCoord) -> ImageCoord {
        ImageCoord { x: p.x.minus(self.half_w()), y: p.y.minus(self.half_h()) }
    }

    /// A position measured from the image center, measured from the corner.
    pub open spec fn cornered(self, p: ImageCoord) -> ImageCoord {
        ImageCoord { x: p.x.plus(self.half_w()), y: p.y.plus(self.half_h()) }
    }

    /// A corner-based position lies on the image. The right and lower edges do not
    /// belong to it; a NaN lies nowhere.
    pub open spec fn holds(self, p: ImageCoord) -> bool {
        &&& integer(0).at_most(p.x)
        &&& p.x.below(self.w())
        &&& integer(0).at_most(p.y)
        &&& p.y.below(self.h())
    }

    /// The size as the solver takes it: the low 32 bits.
    pub fn solver_size(&self) -> (r: (u32, u32))
        ensures
            r.0 == self.width as int % 0x1_0000_0000,
            r.1 == self.height as int % 0x1_0000_0000,
    {
        ((self.width as u64 % 0x1_0000_0000) as u32, (self.height as u64 % 0x1_0000_0000) as u32)
    }

    fn half(n: usize) -> (r: Double)
        ensures
            r == integer(n as nat).over(integer(2)),
    {
        Double::from_u64(n as u64).div(Double::from_u64(2))
    }

    /// The solver measures pixels from the image center, the camera from the top
    /// left corner.
    pub fn to_centered(&self, p: ImageCoord) -> (r: ImageCoord)
        ensures
            r == self.centered(p),
    {
        ImageCoord { x: p.x.sub(Frame::half(self.width)), y: p.y.sub(Frame::half(self.height)) }
    }

    pub fn to_corner(&self, p: ImageCoord) -> (r: ImageCoord)
        ensures
            r == self.cornered(p),
    {
        ImageCoord { x: p.x.add(Frame::half(self.width)), y: p.y.add(Frame::half(self.height)) }
    }

    pub fn contains(&self, p: ImageCoord) -> (b: bool)
        ensures
            b == self.holds(p),
    {
        let zero: Double = Double::from_u64(0);
        zero.le(p.x) && p.x.lt(Double::from_u64(self.width as u64)) && zero.le(p.y) && p.y.lt(
            Double::from_u64(self.height as u64),
        )
    }
}

/// What lies on the image has coordinates from zero up to, and not including, the
/// image's size.
pub proof fn law_on_the_image(frame: Frame, p: ImageCoord)
    requires
        frame.width <= u32::MAX,
        frame.height <= u32::MAX,
    ensures
        frame.holds(p) <==> {
            &&& !p.x.nan() && 0 <= p.x.units() < frame.width * one()
            &&& !p.y.nan() && 0 <= p.y.units() < frame.height * one()
        },
{
    lemma_integer(0);
    lemma_integer(frame.width as nat);
    lemma_integer(frame.height as nat);
    assert(0 * one() == 0);
}

/// A position measured from the center, and then from the corner again, is where it
/// was, where the way to the center needed no rounding.
pub proof fn law_centering_is_undone(frame: Frame, p: ImageCoord)
    requires
        p.x.finite() && p.y.finite(),
        frame.half_w().finite() && frame.half_h().finite(),
        frame.centered(p).x.finite() && frame.centered(p).y.finite(),
        frame.centered(p).x.units() == p.x.units() - frame.half_w().units(),
        frame.centered(p).y.units() == p.y.units() - frame.half_h().units(),
    ensures
        frame.cornered(frame.centered(p)).x.units() == p.x.units(),
        frame.cornered(frame.centered(p)).y.units() == p.y.units(),
{
    lemma_plus_exact(frame.centered(p).x, frame.half_w(), p.x);
    lemma_plus_exact(frame.centered(p).y, frame.half_h(), p.y);
}

/// Half of a whole number below 2^53 is exact.
proof fn lemma_half(n: nat)
    requires
        n < 2 * LEADING,
    ensures
        integer(n).over(integer(2)).finite(),
        2 * integer(n).over(integer(2)).units() == n * one(),
{
    reveal(Double::over);
    lemma_integer(n);
    lemma_integer(2);
    let (a, b) = (integer(n), integer(2));
    let g = pow2(1073) as int;
    let u = n * g;
    lemma_size(a);
    lemma_size(b);
    lemma2_to64();
    lemma2_to64_rest();
    lemma_pow2_pos(1073);
    lemma_pow2_pos(1074);
    lemma_pow2_adds(1073, 1);
    let o = one();
    assert(a.size() * o == u * (2 * o) && 2 * u == n * o && u >= 0 && b.size() == 1 * (2 * o)) by (nonlinear_arith)
        requires
            a.size() == n * o,
            b.size() == 2 * o,
            o == g * 2,
            u == n * g,
            g > 0,
    ;
    lemma_nearest_scales(u, 1, 2 * o);
    lemma_nearest_exact(n as int, 1073);
    lemma_nearest_is_double(u, 1);
    lemma_double_of(false, u);
    lemma_double_of_exact(false, u);
    let h = a.over(b);
    assert(h == double_of(false, u));
    lemma_finite_is_double(a);
    assert(u <= a.size()) by (nonlinear_arith)
        requires
            2 * u == n * o,
            a.size() == n * o,
            u >= 0,
    ;
    lemma_size(h);
}

/// To measure from the corner is to add half the size of the image, and to measure from
/// the center to take it off: of all numbers, what comes out is nearest to that.
///
/// `y` is any number that might have come out instead.
pub proof fn law_center_is_half_way(frame: Frame, p: ImageCoord, corner: ImageCoord, center: ImageCoord, y: Double)
    requires
        call_ensures(Frame::to_corner, (&frame, p), corner),
        call_ensures(Frame::to_centered, (&frame, p), center),
        frame.width < 2 * LEADING,
        frame.height < 2 * LEADING,
        y.finite(),
    ensures
        p.x.finite() && corner.x.finite() ==> apart(2 * corner.x.units(), 2 * p.x.units() + frame.width * one()) <= apart(
            2 * y.units(),
            2 * p.x.units() + frame.width * one(),
        ),
        p.y.finite() && corner.y.finite() ==> apart(2 * corner.y.units(), 2 * p.y.units() + frame.height * one()) <= apart(
            2 * y.units(),
            2 * p.y.units() + frame.height * one(),
        ),
        p.x.finite() && center.x.finite() ==> apart(2 * center.x.units(), 2 * p.x.units() - frame.width * one()) <= apart(
            2 * y.units(),
            2 * p.x.units() - frame.width * one(),
        ),
        p.y.finite() && center.y.finite() ==> apart(2 * center.y.units(), 2 * p.y.units() - frame.height * one()) <= apart(
            2 * y.units(),
            2 * p.y.units() - frame.height * one(),
        ),
{
    let (w, h) = (frame.half_w(), frame.half_h());
    lemma_half(frame.width as nat);
    lemma_half(frame.height as nat);
    assert(w.negation().units() == -w.units() && w.negation().finite());
    assert(h.negation().units() == -h.units() && h.negation().finite());
    if p.x.finite() && corner.x.finite() {
        lemma_sum_is_nearest(p.x, w, y);
    }
    if p.y.finite() && corner.y.finite() {
        lemma_sum_is_nearest(p.y, h, y);
    }
    if p.x.finite() && center.x.finite() {
        lemma_sum_is_nearest(p.x, w.negation(), y);
    }
    if p.y.finite() && center.y.finite() {
        lemma_sum_is_nearest(p.y, h.negation(), y);
    }
}

/// A position is on the image from the first row and column up to, and not including,
/// its size; and nowhere else.
pub proof fn law_image_holds_what_is_on_it(frame: Frame, p: ImageCoord, b: bool)
    requires
        call_ensures(Frame::contains, (&frame, p), b),
        frame.width < 2 * LEADING,
        frame.height < 2 * LEADING,
    ensures
        b <==> {
            &&& !p.x.nan() && 0 <= p.x.units() < frame.width * one()
            &&& !p.y.nan() && 0 <= p.y.units() < frame.height * one()
        },
{
    lemma_integer(0);
    lemma_integer(frame.width as nat);
    lemma_integer(frame.height as nat);
    assert(0 * one() == 0);
}

/// The solver is told the low 32 bits of the size: the size itself, where it has no more.
pub proof fn law_solver_is_told_the_size(frame: Frame, r: (u32, u32))
    requires
        call_ensures(Frame::solver_size, (&frame,), r),
    ensures
        frame.width < 0x1_0000_0000 ==> r.0 == frame.width,
        frame.height < 0x1_0000_0000 ==> r.1 == frame.height,
        (frame.width - r.0) % 0x1_0000_0000 == 0,
        (frame.height - r.1) % 0x1_0000_0000 == 0,
{
}

} // verus!
