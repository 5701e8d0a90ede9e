//! One request to solve an image: what the caller asks for, and what the solver is
//! given.

use vstd::arithmetic::power2::{lemma2_to64, lemma2_to64_rest, lemma_pow2_adds, lemma_pow2_pos, pow2};
use vstd::prelude::*;

use crate::arithmetic::{apart, integer, lemma_size};
use crate::catalog::CenteredCentroid;
use crate::geometry::{CelestialCoord, EquatorialCoordinates, Frame, ImageCoord};
use crate::number::{one, Double, Single, LEADING, SIGN};
use crate::seeds::{fov_seeds, seeds_for};

verus! {

/// How long a solve may take when the caller does not say, in nanoseconds.
pub const DEFAULT_TIMEOUT: u128 = 5_000_000_000;

/// 0.01
pub const DEFAULT_MATCH_RADIUS: u64 = 0x3f84_7ae1_47ae_147b;

/// 1e-5
pub const DEFAULT_MATCH_THRESHOLD: u64 = 0x3ee4_f8b5_88e3_68f1;

/// 1e-9
pub const LEAST_DISTORTION: u64 = 0x3e11_2e0b_e826_d695;

/// What the caller asks of one solve. What is absent gets a default.
#[derive(Clone, Copy, Debug)]
pub struct SolveParams {
    /// The field of view and its tolerance, in degrees.
    pub fov_estimate: Option<(Double, Double)>,
    pub match_radius: Option<Double>,
    pub match_threshold: Option<Double>,
    pub match_max_error: Option<Double>,
    /// In nanoseconds.
    pub solve_timeout: Option<u128>,
    pub distortion: Option<Double>,
    /// Where the previous frame pointed.
    pub attitude_hint: Option<EquatorialCoordinates>,
}

/// What else the caller wants to know of the solution.
#[derive(Debug)]
pub struct SolveExtension {
    pub target_pixel: Option<Vec<ImageCoord>>,
    pub target_sky_coord: Option<Vec<CelestialCoord>>,
    pub return_matches: bool,
    pub return_catalog: bool,
    pub return_rotation_matrix: bool,
}

/// Everything that one solve needs.
#[derive(Debug)]
pub struct SolveInputs {
    pub centroids: Vec<CenteredCentroid>,
    pub frame: Frame,
    /// The fields of view to try, in order, in degrees.
    pub seeds: Vec<Double>,
    pub match_radius: Single,
    pub match_threshold: Double,
    pub match_max_error: Option<Single>,
    pub attitude_hint: Option<EquatorialCoordinates>,
    /// In nanoseconds.
    pub timeout: u128,
    pub target_pixels: Vec<ImageCoord>,
    pub target_sky_coords: Vec<CelestialCoord>,
    pub return_matches: bool,
    pub return_catalog: bool,
    pub return_rotation_matrix: bool,
    pub distortion: Double,
}

pub open spec fn or_else(value: Option<Double>, default: u64) -> Double {
    match value {
        Some(v) => v,
        None => Double { bits: default },
    }
}

fn double_or(value: Option<Double>, default: u64) -> (r: Double)
    ensures
        r == or_else(value, default),
{
    match value {
        Some(v) => v,
        None => Double { bits: default },
    }
}

/// The items of an optional list: none, where the list is absent.
pub open spec fn listed<T>(list: Option<Vec<T>>) -> Seq<T> {
    match list {
        Some(v) => v@,
        None => Seq::empty(),
    }
}

/// The field of view to go by: the caller's estimate, without its tolerance, and
/// else the configured one.
pub open spec fn known_fov(params: SolveParams, default_fov_deg: Option<Double>) -> Option<Double> {
    match params.fov_estimate {
        Some(estimate) => Some(estimate.0),
        None => default_fov_deg,
    }
}

/// The attitude to start from: the caller's, and else that of the motion sensor.
pub open spec fn hint_of(params: SolveParams, imu_estimate: Option<EquatorialCoordinates>) -> Option<EquatorialCoordinates> {
    match params.attitude_hint {
        Some(hint) => Some(hint),
        None => imu_estimate,
    }
}

/// What the solver is given for a request.
pub open spec fn is_prepared(
    inputs: SolveInputs,
    star_centroids: Seq<ImageCoord>,
    frame: Frame,
    extension: SolveExtension,
    params: SolveParams,
    imu_estimate: Option<EquatorialCoordinates>,
    default_fov_deg: Option<Double>,
    db_min_fov_deg: Double,
    db_max_fov_deg: Double,
) -> bool {
    &&& inputs.centroids@ == star_centroids.map_values(|p: ImageCoord| CenteredCentroid::of(frame, p))
    &&& inputs.frame == frame
    &&& inputs.seeds@ == seeds_for(known_fov(params, default_fov_deg), db_min_fov_deg, db_max_fov_deg)
    &&& inputs.match_radius == or_else(params.match_radius, DEFAULT_MATCH_RADIUS).narrowed()
    &&& inputs.match_threshold == or_else(params.match_threshold, DEFAULT_MATCH_THRESHOLD)
    &&& inputs.match_max_error == (match params.match_max_error {
        Some(e) => Some(e.narrowed()),
        None => None,
    })
    &&& inputs.attitude_hint == hint_of(params, imu_estimate)
    &&& inputs.timeout == (match params.solve_timeout {
        Some(t) => t,
        None => DEFAULT_TIMEOUT,
    })
    &&& inputs.target_pixels@ == listed(extension.target_pixel)
    &&& inputs.target_sky_coords@ == listed(extension.target_sky_coord)
    &&& inputs.return_matches == extension.return_matches
    &&& inputs.return_catalog == extension.return_catalog
    &&& inputs.return_rotation_matrix == extension.return_rotation_matrix
    &&& inputs.distortion == or_else(params.distortion, 0)
}

fn copied<T: Copy>(list: &Option<Vec<T>>) -> (r: Vec<T>)
    ensures
        r@ == listed(*list),
{
    let mut r: Vec<T> = Vec::new();
    match list {
        Some(v) => {
            let mut i: usize = 0;
            while i < v.len()
                invariant
                    i <= v.len(),
                    r@ == v@.take(i as int),
                decreases v.len() - i,
            {
                r.push(v[i]);
                i = i + 1;
            }
            assert(v@.take(i as int) == v@);
        },
        None => {},
    }
    r
}

/// Prepares a solve.
///
/// Centroids are measured from the image center; they stay in the order they came,
/// brightest first, since the solver has no other word of their brightness. The
/// tolerance of a field-of-view estimate is left aside: to the solver it would be a
/// filter on its results, not the width of its search.
pub fn prepare(
    star_centroids: &Vec<ImageCoord>,
    frame: Frame,
    extension: &SolveExtension,
    params: &SolveParams,
    imu_estimate: Option<EquatorialCoordinates>,
    default_fov_deg: Option<Double>,
    db_min_fov_deg: Double,
    db_max_fov_deg: Double,
) -> (inputs: SolveInputs)
    ensures
        is_prepared(
            inputs,
            star_centroids@,
            frame,
            *extension,
            *params,
            imu_estimate,
            default_fov_deg,
            db_min_fov_deg,
            db_max_fov_deg,
        ),
{
    let mut centroids: Vec<CenteredCentroid> = Vec::new();
    let mut i: usize = 0;
    while i < star_centroids.len()
        invariant
            i <= star_centroids.len(),
            centroids.len() == i,
            forall|k: int| 0 <= k < i ==> centroids[k] == CenteredCentroid::of(frame, #[trigger] star_centroids[k]),
        decreases star_centroids.len() - i,
    {
        centroids.push(CenteredCentroid::from_corner(&frame, star_centroids[i]));
        i = i + 1;
    }
    assert(centroids@ == star_centroids@.map_values(|p: ImageCoord| CenteredCentroid::of(frame, p)));
    let fov: Option<Double> = match params.fov_estimate {
        Some(estimate) => Some(estimate.0),
        None => default_fov_deg,
    };
    SolveInputs {
        centroids,
        frame,
        seeds: fov_seeds(fov, db_min_fov_deg, db_max_fov_deg),
        match_radius: double_or(params.match_radius, DEFAULT_MATCH_RADIUS).narrow(),
        match_threshold: double_or(params.match_threshold, DEFAULT_MATCH_THRESHOLD),
        match_max_error: match params.match_max_error {
            Some(e) => Some(e.narrow()),
            None => None,
        },
        attitude_hint: match params.attitude_hint {
            Some(hint) => Some(hint),
            None => imu_estimate,
        },
        timeout: match params.solve_timeout {
            Some(t) => t,
            None => DEFAULT_TIMEOUT,
        },
        target_pixels: copied(&extension.target_pixel),
        target_sky_coords: copied(&extension.target_sky_coord),
        return_matches: extension.return_matches,
        return_catalog: extension.return_catalog,
        return_rotation_matrix: extension.return_rotation_matrix,
        distortion: double_or(params.distortion, 0),
    }
}

/// The solver fits no distortion: a request for more than a trace of it is ignored,
/// and worth a warning.
pub fn distortion_is_ignored(distortion: Double) -> (b: bool)
    ensures
        b == (Double { bits: LEAST_DISTORTION }).below(Double { bits: (distortion.bits as int % SIGN as int) as u64 }),
{
    Double { bits: LEAST_DISTORTION }.lt(Double { bits: distortion.bits % SIGN })
}

impl SolveInputs {
    /// The fields of view to try, in radians, as the solver takes them.
    pub fn seeds_rad(&self) -> (r: Vec<Single>)
        ensures
            r@ == self.seeds@.map_values(|seed: Double| seed.radians().narrowed()),
    {
        let mut r: Vec<Single> = Vec::new();
        let mut i: usize = 0;
        while i < self.seeds.len()
            invariant
                i <= self.seeds.len(),
                r.len() == i,
                forall|k: int| 0 <= k < i ==> r[k] == (#[trigger] self.seeds[k]).radians().narrowed(),
            decreases self.seeds.len() - i,
        {
            r.push(self.seeds[i].to_radians().narrow());
            i = i + 1;
        }
        assert(r@ == self.seeds@.map_values(|seed: Double| seed.radians().narrowed()));
        r
    }
}

/// One degree: how far off an attitude hint may be. A hint that is further off fails,
/// and the blind search takes over.
pub const HINT_UNCERTAINTY_DEG: u32 = 0x3f80_0000;

/// How far off an attitude hint may be, in radians.
pub fn hint_uncertainty_rad() -> (r: Single)
    ensures
        r == (Single { bits: HINT_UNCERTAINTY_DEG }).radians(),
{
    Single { bits: HINT_UNCERTAINTY_DEG }.to_radians()
}

/// A request is passed on as it was made: what the caller gave is what the solver is
/// given, each thing whatever the others are, and what the caller left out has its
/// default.
///
/// The tolerance of a field of view is not among it. Centroids keep their order, and are
/// moved by half the size of the image.
pub proof fn law_request_is_passed_on(
    star_centroids: Vec<ImageCoord>,
    frame: Frame,
    extension: SolveExtension,
    params: SolveParams,
    imu_estimate: Option<EquatorialCoordinates>,
    default_fov_deg: Option<Double>,
    db_min: Double,
    db_max: Double,
    inputs: SolveInputs,
)
    requires
        call_ensures(
            prepare,
            (&star_centroids, frame, &extension, &params, imu_estimate, default_fov_deg, db_min, db_max),
            inputs,
        ),
    ensures
        params.attitude_hint matches Some(hint) ==> inputs.attitude_hint == Some(hint),
        params.attitude_hint is None ==> inputs.attitude_hint == imu_estimate,
        params.fov_estimate matches Some(estimate) ==> inputs.seeds@ == seq![estimate.0],
        params.fov_estimate is None ==> (default_fov_deg matches Some(fov) ==> inputs.seeds@ == seq![fov]),
        params.solve_timeout matches Some(t) ==> inputs.timeout == t,
        params.solve_timeout is None ==> inputs.timeout == 5_000_000_000,
        params.match_radius matches Some(r) ==> inputs.match_radius == r.narrowed(),
        params.match_radius is None ==> inputs.match_radius == (Double { bits: 0x3f84_7ae1_47ae_147b }).narrowed(),
        params.match_threshold matches Some(t) ==> inputs.match_threshold == t,
        params.match_threshold is None ==> inputs.match_threshold.bits == 0x3ee4_f8b5_88e3_68f1,
        params.match_max_error matches Some(e) ==> inputs.match_max_error == Some(e.narrowed()),
        params.match_max_error is None ==> inputs.match_max_error is None,
        params.distortion matches Some(d) ==> inputs.distortion == d,
        params.distortion is None ==> inputs.distortion.bits == 0,
        inputs.frame == frame,
        inputs.centroids.len() == star_centroids.len(),
        forall|i: int|
            0 <= i < star_centroids.len() ==> {
                let c = #[trigger] inputs.centroids@[i];
                &&& c.x == star_centroids[i].x.minus(integer(frame.width as nat).over(integer(2))).narrowed()
                &&& c.y == star_centroids[i].y.minus(integer(frame.height as nat).over(integer(2))).narrowed()
            },
        extension.target_pixel matches Some(v) ==> inputs.target_pixels@ == v@,
        extension.target_pixel is None ==> inputs.target_pixels.len() == 0,
        extension.target_sky_coord matches Some(v) ==> inputs.target_sky_coords@ == v@,
        extension.target_sky_coord is None ==> inputs.target_sky_coords.len() == 0,
        inputs.return_matches == extension.return_matches,
        inputs.return_catalog == extension.return_catalog,
        inputs.return_rotation_matrix == extension.return_rotation_matrix,
{
}

/// Without a known field of view, the ones to try depend on the database's range alone:
/// they are those that a blind solve of the same range tries.
pub proof fn law_blind_requests_share_seeds(
    star_centroids: Vec<ImageCoord>,
    frame: Frame,
    extension: SolveExtension,
    params: SolveParams,
    imu_estimate: Option<EquatorialCoordinates>,
    db_min: Double,
    db_max: Double,
    inputs: SolveInputs,
    blind: Vec<Double>,
)
    requires
        params.fov_estimate is None,
        call_ensures(
            prepare,
            (&star_centroids, frame, &extension, &params, imu_estimate, None, db_min, db_max),
            inputs,
        ),
        call_ensures(fov_seeds, (None, db_min, db_max), blind),
    ensures
        inputs.seeds@ == blind@,
{
}

/// A billionth, to half of what lies between two doubles there.
proof fn lemma_a_billionth()
    ensures
        ({
            let c = Double { bits: LEAST_DISTORTION };
            &&& !c.nan()
            &&& apart(c.units() * 1_000_000_000_000_000_000_000_000, 1_000_000_000_000_000 * one()) <= one()
        }),
{
    let (m, lead) = (LEAST_DISTORTION as int, LEADING as int);
    lemma2_to64();
    lemma2_to64_rest();
    lemma_pow2_adds(41, 41);
    lemma_pow2_adds(82, 992);
    lemma_pow2_pos(992);
    assert(m / lead == 993 && m % lead == 0x1_2e0b_e826_d695);
    let g = pow2(992) as int;
    assert(pow2(82) == 4_835_703_278_458_516_698_824_704);
    let (u, o) = ((Double { bits: LEAST_DISTORTION }).units(), one());
    assert(u == 4_835_703_278_458_517 * g);
    assert(o == 4_835_703_278_458_516_698_824_704 * g);
    assert(apart(u * 1_000_000_000_000_000_000_000_000, 1_000_000_000_000_000 * o) <= o) by (nonlinear_arith)
        requires
            u == 4_835_703_278_458_517 * g,
            o == 4_835_703_278_458_516_698_824_704 * g,
            g > 0,
    ;
}

/// A distortion that is ignored is one of more than a billionth, either way. What is not
/// a number is none.
pub proof fn law_traces_of_distortion_pass(distortion: Double, b: bool)
    requires
        call_ensures(distortion_is_ignored, (distortion,), b),
    ensures
        distortion.nan() ==> !b,
        !distortion.nan() ==> {
            let size = distortion.size() * 1_000_000_000_000_000_000_000_000;
            &&& b ==> size > 999_999_999_999_999 * one()
            &&& size > 1_000_000_000_000_001 * one() ==> b
        },
{
    lemma_a_billionth();
    let m = Double { bits: (distortion.bits as int % SIGN as int) as u64 };
    assert(m.magnitude_bits() == distortion.magnitude_bits());
    lemma_size(m);
    lemma_size(distortion);
}

/// The solver takes the fields of view to try one for one, in radians and in single
/// precision.
pub proof fn law_seeds_are_told_in_radians(inputs: SolveInputs, i: int, rad: Double, narrow: Single, r: Vec<Single>)
    requires
        call_ensures(SolveInputs::seeds_rad, (&inputs,), r),
        0 <= i < inputs.seeds.len(),
        call_ensures(Double::to_radians, (&inputs.seeds@[i],), rad),
        call_ensures(Double::narrow, (&rad,), narrow),
    ensures
        r.len() == inputs.seeds.len(),
        r@[i] == narrow,
{
}

/// A hint may be a degree off.
pub proof fn law_hints_may_be_a_degree_off(degree: Single, rad: Single, r: Single)
    requires
        call_ensures(hint_uncertainty_rad, (), r),
        degree.bits == 0x3f80_0000,
        call_ensures(Single::to_radians, (&degree,), rad),
    ensures
        r == rad,
{
}

} // verus!
