//! From what the solver found to what the callers are told.

use vstd::prelude::*;

use crate::angle::{arcseconds, rad_to_arcsec};
use crate::arithmetic::{apart, integer, lemma_integer, lemma_integer_is_number};
use crate::catalog::{
    catalog_stars_in_frame, is_brightest_first, law_overlay_is_brightest_first, lemma_matches_are_listed,
    lemma_overlay_is_shown, matches_of, overlay, Catalog, Star, StarInfo,
};
use crate::duration::{proto_from_nanos, ProtoDuration, DURATION_END, LONGEST, SECOND};
use crate::geometry::{CelestialCoord, Frame, ImageCoord};
use crate::number::{one, Double, Single};
use crate::order::{are_all_that, are_in_order};
use crate::pose::{boresight_left_up, roll_deg, roll_of, tetra3_rotation_matrix, Matrix, Vector};
use crate::request::SolveInputs;

verus! {

/// What the solver found, in plain numbers.
#[derive(Debug)]
pub struct SolvedPose {
    /// Where the image center points.
    pub center: CelestialCoord,
    /// From east to the image's right, counter-clockwise, in radians.
    pub theta_rad: Double,
    pub parity_flip: bool,
    pub fov_rad: Single,
    /// The residuals, in radians.
    pub rmse_rad: Single,
    pub p90e_rad: Single,
    pub max_err_rad: Single,
    pub num_matches: u32,
    pub prob: Double,
    /// Turns sky vectors into the solver's camera frame.
    pub camera: Matrix,
    pub matched_catalog_ids: Vec<i64>,
    pub matched_centroid_indices: Vec<usize>,
}

/// What the solution says of the positions that were asked about: where target
/// pixels point; where target positions fall, measured from the image center (or
/// nowhere, behind the camera); and the same of the catalog stars in question.
#[derive(Debug)]
pub struct Projections {
    pub target_sky_coords: Vec<CelestialCoord>,
    pub target_pixels: Vec<Option<ImageCoord>>,
    pub catalog_stars: Vec<Star>,
    pub catalog_pixels: Vec<Option<ImageCoord>>,
}

/// A plate solution, as the callers are told of it.
#[derive(Debug)]
pub struct PlateSolution {
    pub image_sky_coord: Option<CelestialCoord>,
    /// In degrees.
    pub roll: Double,
    /// In degrees.
    pub fov: Double,
    pub distortion: Option<Double>,
    /// In arcseconds.
    pub rmse: Double,
    /// In arcseconds.
    pub p90_error: Double,
    /// In arcseconds.
    pub max_error: Double,
    pub num_matches: i32,
    pub prob: Double,
    pub epoch_equinox: i32,
    pub epoch_proper_motion: Single,
    pub solve_time: Option<ProtoDuration>,
    pub target_sky_coord: Vec<CelestialCoord>,
    pub target_pixel: Vec<ImageCoord>,
    pub rotation_matrix: Vec<Double>,
    pub matched_stars: Vec<StarInfo>,
    pub catalog_stars: Vec<StarInfo>,
    pub pattern_centroids: Vec<ImageCoord>,
    pub solution_from_imu: bool,
}

/// What stands for a position outside the frame.
pub open spec fn nowhere() -> ImageCoord {
    ImageCoord { x: integer(1).negation(), y: integer(1).negation() }
}

/// Where on the image a position falls that is measured from the image center.
pub open spec fn placed(frame: Frame, p: Option<ImageCoord>) -> ImageCoord {
    match p {
        Some(p) => if frame.holds(frame.cornered(p)) {
            frame.cornered(p)
        } else {
            nowhere()
        },
        None => nowhere(),
    }
}

/// A target is placed where it falls on the image, and at (-1, -1) where it does not.
pub fn place_target(frame: &Frame, p: Option<ImageCoord>) -> (r: ImageCoord)
    ensures
        r == placed(*frame, p),
{
    match p {
        Some(p) => {
            let pixel: ImageCoord = frame.to_corner(p);
            if frame.contains(pixel) {
                return pixel;
            }
        },
        None => {},
    }
    let minus_one: Double = Double::from_u64(1).neg();
    ImageCoord { x: minus_one, y: minus_one }
}

/// A target lies on the image, or nowhere: at (-1, -1), which is on no image.
pub proof fn law_targets_are_on_the_image(frame: Frame, p: Option<ImageCoord>)
    ensures
        placed(frame, p) == nowhere() || frame.holds(placed(frame, p)),
        !frame.holds(nowhere()),
{
    lemma_integer(0);
    lemma_integer(1);
    vstd::arithmetic::power2::lemma_pow2_pos(1074);
    assert(0 * one() == 0 && 1 * one() == one());
}

/// The target pixels of a request, measured from the image center: what the solver
/// is asked about.
pub fn target_queries(inputs: &SolveInputs) -> (r: Vec<ImageCoord>)
    ensures
        r@ == inputs.target_pixels@.map_values(|p: ImageCoord| inputs.frame.centered(p)),
{
    let mut r: Vec<ImageCoord> = Vec::new();
    let mut i: usize = 0;
    while i < inputs.target_pixels.len()
        invariant
            i <= inputs.target_pixels.len(),
            r.len() == i,
            forall|k: int| 0 <= k < i ==> r[k] == inputs.frame.centered(#[trigger] inputs.target_pixels[k]),
        decreases inputs.target_pixels.len() - i,
    {
        r.push(inputs.frame.to_centered(inputs.target_pixels[i]));
        i = i + 1;
    }
    assert(r@ == inputs.target_pixels@.map_values(|p: ImageCoord| inputs.frame.centered(p)));
    r
}

/// A count of matches as the protocol carries it: the low 32 bits, with a sign.
pub open spec fn wrapped(n: u32) -> int {
    if n < 0x8000_0000 {
        n as int
    } else {
        n - 0x1_0000_0000
    }
}

/// What the callers are told of a solution.
pub open spec fn is_plate(
    plate: PlateSolution,
    catalog: &Catalog,
    epoch_equinox: u16,
    epoch_proper_motion: Single,
    inputs: SolveInputs,
    pose: SolvedPose,
    projections: Projections,
    elapsed: u128,
) -> bool {
    &&& plate.image_sky_coord == Some(pose.center)
    &&& plate.roll == roll_of(pose.theta_rad, pose.parity_flip)
    &&& plate.fov == pose.fov_rad.degrees().widened()
    &&& plate.distortion == Some(inputs.distortion)
    &&& plate.rmse == arcseconds(pose.rmse_rad)
    &&& plate.p90_error == arcseconds(pose.p90e_rad)
    &&& plate.max_error == arcseconds(pose.max_err_rad)
    &&& plate.num_matches == wrapped(pose.num_matches)
    &&& plate.prob == pose.prob
    &&& plate.epoch_equinox == epoch_equinox
    &&& plate.epoch_proper_motion == epoch_proper_motion
    &&& plate.solve_time == (if elapsed <= LONGEST {
        Some(
            ProtoDuration {
                seconds: (elapsed / SECOND) as i64,
                nanos: (elapsed % SECOND) as i32,
            },
        )
    } else {
        None
    })
    &&& plate.target_sky_coord@ == projections.target_sky_coords@
    &&& plate.target_pixel@ == projections.target_pixels@.map_values(
        |p: Option<ImageCoord>| placed(inputs.frame, p),
    )
    &&& plate.rotation_matrix@ == (if inputs.return_rotation_matrix {
        boresight_left_up(pose.camera).entries()
    } else {
        Seq::empty()
    })
    &&& plate.matched_stars@ == (if inputs.return_matches {
        matches_of(
            catalog,
            inputs.frame,
            inputs.centroids@,
            pose.matched_catalog_ids@,
            pose.matched_centroid_indices@,
        )
    } else {
        Seq::empty()
    })
    &&& plate.catalog_stars@ == (if inputs.return_catalog {
        overlay(inputs.frame, projections.catalog_stars@, projections.catalog_pixels@)
    } else {
        Seq::empty()
    })
    &&& plate.pattern_centroids@.len() == 0
    &&& !plate.solution_from_imu
}

/// What was projected is what the request asks about: an answer for each target, and,
/// where the catalog is wanted, some of its stars, brightest first, each with where it
/// falls.
pub open spec fn answers(projections: Projections, inputs: SolveInputs, catalog: &Catalog) -> bool {
    &&& projections.target_sky_coords.len() == inputs.target_pixels.len()
    &&& projections.target_pixels.len() == inputs.target_sky_coords.len()
    &&& projections.catalog_pixels.len() == projections.catalog_stars.len()
    &&& inputs.return_catalog ==> exists|indices: Seq<usize>| #[trigger]
        is_brightest_first(catalog.stars(), indices, projections.catalog_stars@)
}

/// A plate solution has one answer for each target, in order.
pub proof fn law_every_target_is_answered(
    plate: PlateSolution,
    catalog: &Catalog,
    epoch_equinox: u16,
    epoch_proper_motion: Single,
    inputs: SolveInputs,
    pose: SolvedPose,
    projections: Projections,
    elapsed: u128,
)
    requires
        is_plate(plate, catalog, epoch_equinox, epoch_proper_motion, inputs, pose, projections, elapsed),
        answers(projections, inputs, catalog),
    ensures
        plate.target_sky_coord.len() == inputs.target_pixels.len(),
        plate.target_pixel.len() == inputs.target_sky_coords.len(),
        forall|i: int|
            0 <= i < plate.target_pixel.len() ==> #[trigger] plate.target_pixel[i] == placed(
                inputs.frame,
                projections.target_pixels[i],
            ),
{
}

/// The catalog stars of a plate solution come brightest first.
pub proof fn law_catalog_stars_are_brightest_first(
    plate: PlateSolution,
    catalog: &Catalog,
    epoch_equinox: u16,
    epoch_proper_motion: Single,
    inputs: SolveInputs,
    pose: SolvedPose,
    projections: Projections,
    elapsed: u128,
)
    requires
        is_plate(plate, catalog, epoch_equinox, epoch_proper_motion, inputs, pose, projections, elapsed),
        answers(projections, inputs, catalog),
    ensures
        forall|k: int, l: int|
            0 <= k <= l < plate.catalog_stars.len() ==> (#[trigger] plate.catalog_stars@[k]).mag.rank() <= (
            #[trigger] plate.catalog_stars@[l]).mag.rank(),
{
    if inputs.return_catalog {
        let indices = choose|indices: Seq<usize>| #[trigger]
            is_brightest_first(catalog.stars(), indices, projections.catalog_stars@);
        law_overlay_is_brightest_first(
            inputs.frame,
            catalog.stars(),
            indices,
            projections.catalog_stars@,
            projections.catalog_pixels@,
        );
    }
}

/// Tells the callers of a solution.
///
/// `elapsed` is the time since the whole solve began, in nanoseconds. The solver
/// fits no distortion; the requested one is echoed. Nor does it name the stars of
/// the pattern it matched.
pub fn build_proto(
    catalog: &Catalog,
    epoch_equinox: u16,
    epoch_proper_motion: Single,
    inputs: &SolveInputs,
    pose: &SolvedPose,
    projections: Projections,
    elapsed: u128,
) -> (plate: PlateSolution)
    requires
        inputs.return_matches ==> catalog.leads_to_stars(
            pose.matched_catalog_ids@,
            pose.matched_centroid_indices@,
            inputs.centroids.len() as nat,
        ),
        answers(projections, *inputs, catalog),
        elapsed < DURATION_END,
    ensures
        is_plate(plate, catalog, epoch_equinox, epoch_proper_motion, *inputs, *pose, projections, elapsed),
{
    let mut target_pixel: Vec<ImageCoord> = Vec::new();
    let mut i: usize = 0;
    while i < projections.target_pixels.len()
        invariant
            i <= projections.target_pixels.len(),
            target_pixel.len() == i,
            forall|k: int|
                0 <= k < i ==> target_pixel[k] == placed(inputs.frame, #[trigger] projections.target_pixels[k]),
        decreases projections.target_pixels.len() - i,
    {
        target_pixel.push(place_target(&inputs.frame, projections.target_pixels[i]));
        i = i + 1;
    }
    assert(target_pixel@ == projections.target_pixels@.map_values(
        |p: Option<ImageCoord>| placed(inputs.frame, p),
    ));
    let rotation_matrix: Vec<Double> = if inputs.return_rotation_matrix {
        tetra3_rotation_matrix(pose.camera).to_vec()
    } else {
        Vec::new()
    };
    let matched_stars: Vec<StarInfo> = if inputs.return_matches {
        catalog.matched_stars(
            &inputs.frame,
            &inputs.centroids,
            &pose.matched_catalog_ids,
            &pose.matched_centroid_indices,
        )
    } else {
        Vec::new()
    };
    let catalog_stars: Vec<StarInfo> = if inputs.return_catalog {
        catalog_stars_in_frame(&inputs.frame, &projections.catalog_stars, &projections.catalog_pixels)
    } else {
        Vec::new()
    };
    let num_matches: i32 = if pose.num_matches < 0x8000_0000 {
        pose.num_matches as i32
    } else {
        (pose.num_matches as i64 - 0x1_0000_0000) as i32
    };
    PlateSolution {
        image_sky_coord: Some(pose.center),
        roll: roll_deg(pose.theta_rad, pose.parity_flip),
        fov: pose.fov_rad.to_degrees().widen(),
        distortion: Some(inputs.distortion),
        rmse: rad_to_arcsec(pose.rmse_rad),
        p90_error: rad_to_arcsec(pose.p90e_rad),
        max_error: rad_to_arcsec(pose.max_err_rad),
        num_matches,
        prob: pose.prob,
        epoch_equinox: epoch_equinox as i32,
        epoch_proper_motion,
        solve_time: proto_from_nanos(elapsed),
        target_sky_coord: projections.target_sky_coords,
        target_pixel,
        rotation_matrix,
        matched_stars,
        catalog_stars,
        pattern_centroids: Vec::new(),
        solution_from_imu: false,
    }
}

/// The rotation matrix of a plate solution, entry by entry: the camera's boresight,
/// which is its third row, then the opposite of its right, the first row, then the
/// opposite of its down, the second. So the nine entries turn any vector of the sky
/// into how far it lies along the boresight, to the left and up.
pub proof fn law_rotation_matrix_tells_boresight_left_up(
    catalog: Catalog,
    epoch_equinox: u16,
    epoch_proper_motion: Single,
    inputs: SolveInputs,
    pose: SolvedPose,
    projections: Projections,
    elapsed: u128,
    plate: PlateSolution,
    x: int,
    y: int,
    z: int,
)
    requires
        call_ensures(
            build_proto,
            (&catalog, epoch_equinox, epoch_proper_motion, &inputs, &pose, projections, elapsed),
            plate,
        ),
    ensures
        !inputs.return_rotation_matrix ==> plate.rotation_matrix.len() == 0,
        inputs.return_rotation_matrix ==> {
            let m = plate.rotation_matrix@;
            let (right, down, ahead) = (pose.camera.row0, pose.camera.row1, pose.camera.row2);
            &&& m.len() == 9
            &&& m[0] == ahead.x && m[1] == ahead.y && m[2] == ahead.z
            &&& is_opposite(m[3], right.x) && is_opposite(m[4], right.y) && is_opposite(m[5], right.z)
            &&& is_opposite(m[6], down.x) && is_opposite(m[7], down.y) && is_opposite(m[8], down.z)
            &&& m[0].units() * x + m[1].units() * y + m[2].units() * z == ahead.x.units() * x + ahead.y.units() * y
                + ahead.z.units() * z
            &&& m[3].units() * x + m[4].units() * y + m[5].units() * z == -(right.x.units() * x + right.y.units() * y
                + right.z.units() * z)
            &&& m[6].units() * x + m[7].units() * y + m[8].units() * z == -(down.x.units() * x + down.y.units() * y
                + down.z.units() * z)
        },
{
    if inputs.return_rotation_matrix {
        let m = plate.rotation_matrix@;
        let (right, down) = (pose.camera.row0, pose.camera.row1);
        assert(m == boresight_left_up(pose.camera).entries());
        lemma_opposite_row(right, x, y, z);
        lemma_opposite_row(down, x, y, z);
    }
}

proof fn lemma_opposite(a: Double)
    ensures
        is_opposite(a.negation(), a),
{
}

/// A row that is turned round tells the opposite of every vector.
pub proof fn lemma_opposite_row(row: Vector, x: int, y: int, z: int)
    ensures
        ({
            let r = row.negation();
            &&& is_opposite(r.x, row.x) && is_opposite(r.y, row.y) && is_opposite(r.z, row.z)
            &&& r.x.units() * x + r.y.units() * y + r.z.units() * z == -(row.x.units() * x + row.y.units() * y
                + row.z.units() * z)
        }),
{
    lemma_opposite(row.x);
    lemma_opposite(row.y);
    lemma_opposite(row.z);
    let (a, b, c) = (row.x.units(), row.y.units(), row.z.units());
    assert((-a) * x == -(a * x) && (-b) * y == -(b * y) && (-c) * z == -(c * z)) by (nonlinear_arith);
}

/// Two numbers are alike but for their sign.
pub open spec fn is_opposite(a: Double, b: Double) -> bool {
    &&& a.nan() == b.nan()
    &&& a.units() == -b.units()
    &&& apart(a.bits as int, b.bits as int) == 0x8000_0000_0000_0000
}

/// A target that the solution has in view, on the image, is placed where it falls,
/// measured from the corner. Any other is placed at (-1, -1).
pub proof fn law_target_is_placed(frame: Frame, p: Option<ImageCoord>, r: ImageCoord)
    requires
        call_ensures(place_target, (&frame, p), r),
    ensures
        match p {
            Some(c) => {
                let x = c.x.plus(integer(frame.width as nat).over(integer(2)));
                let y = c.y.plus(integer(frame.height as nat).over(integer(2)));
                let inside = {
                    &&& !x.nan() && 0 <= x.units() < integer(frame.width as nat).units()
                    &&& !y.nan() && 0 <= y.units() < integer(frame.height as nat).units()
                };
                if inside {
                    r.x == x && r.y == y
                } else {
                    !r.x.nan() && r.x.units() == -one() && !r.y.nan() && r.y.units() == -one()
                }
            },
            None => !r.x.nan() && r.x.units() == -one() && !r.y.nan() && r.y.units() == -one(),
        },
{
    lemma_integer(0);
    lemma_integer(1);
    lemma_integer_is_number(frame.width as nat);
    lemma_integer_is_number(frame.height as nat);
    assert(0 * one() == 0 && 1 * one() == one());
}

/// The solver is asked about each target pixel, in order, where it lies from the center.
pub proof fn law_targets_are_asked_about(inputs: SolveInputs, r: Vec<ImageCoord>, i: int)
    requires
        call_ensures(target_queries, (&inputs,), r),
    ensures
        r.len() == inputs.target_pixels.len(),
        0 <= i < r.len() ==> {
            let p = inputs.target_pixels@[i];
            &&& r@[i].x == p.x.minus(integer(inputs.frame.width as nat).over(integer(2)))
            &&& r@[i].y == p.y.minus(integer(inputs.frame.height as nat).over(integer(2)))
        },
{
}

/// What was found is passed on as it was found: where the image points, how likely the
/// match is by chance, how many stars matched, how long it took. The requested
/// distortion and the epochs of the database are told with it, and the answers for the
/// targets. What was not asked for is left out, and nothing here came from the motion
/// sensor.
pub proof fn law_findings_are_passed_on(
    catalog: Catalog,
    epoch_equinox: u16,
    epoch_proper_motion: Single,
    inputs: SolveInputs,
    pose: SolvedPose,
    projections: Projections,
    elapsed: u128,
    plate: PlateSolution,
)
    requires
        call_ensures(
            build_proto,
            (&catalog, epoch_equinox, epoch_proper_motion, &inputs, &pose, projections, elapsed),
            plate,
        ),
    ensures
        plate.image_sky_coord == Some(pose.center),
        plate.prob == pose.prob,
        plate.distortion == Some(inputs.distortion),
        plate.epoch_equinox == epoch_equinox,
        plate.epoch_proper_motion == epoch_proper_motion,
        pose.num_matches <= i32::MAX ==> plate.num_matches == pose.num_matches,
        pose.num_matches > i32::MAX ==> plate.num_matches == pose.num_matches - 0x1_0000_0000,
        plate.solve_time matches Some(d) ==> d.seconds * 1_000_000_000 + d.nanos == elapsed && 0 <= d.nanos
            < 1_000_000_000,
        plate.solve_time is None <==> elapsed > 9_223_372_036_854_775_807_999_999_999,
        plate.target_sky_coord@ == projections.target_sky_coords@,
        plate.target_pixel.len() == projections.target_pixels.len(),
        !inputs.return_matches ==> plate.matched_stars.len() == 0,
        !inputs.return_catalog ==> plate.catalog_stars.len() == 0,
        plate.pattern_centroids.len() == 0,
        !plate.solution_from_imu,
{
}

/// The angles of a plate solution are those of the pose: the roll and the width of the
/// field in degrees, the residuals in arcseconds, each in its own place.
pub proof fn law_angles_are_passed_on(
    catalog: Catalog,
    epoch_equinox: u16,
    epoch_proper_motion: Single,
    inputs: SolveInputs,
    pose: SolvedPose,
    projections: Projections,
    elapsed: u128,
    plate: PlateSolution,
)
    requires
        call_ensures(
            build_proto,
            (&catalog, epoch_equinox, epoch_proper_motion, &inputs, &pose, projections, elapsed),
            plate,
        ),
    ensures
        plate.roll == roll_of(pose.theta_rad, pose.parity_flip),
        plate.fov == pose.fov_rad.degrees().widened(),
        plate.rmse == arcseconds(pose.rmse_rad),
        plate.p90_error == arcseconds(pose.p90e_rad),
        plate.max_error == arcseconds(pose.max_err_rad),
{
}

/// Each target's answer is where that target was found to fall, or (-1, -1) off the
/// image.
pub proof fn law_targets_are_passed_on(
    catalog: Catalog,
    epoch_equinox: u16,
    epoch_proper_motion: Single,
    inputs: SolveInputs,
    pose: SolvedPose,
    projections: Projections,
    elapsed: u128,
    plate: PlateSolution,
    i: int,
)
    requires
        call_ensures(
            build_proto,
            (&catalog, epoch_equinox, epoch_proper_motion, &inputs, &pose, projections, elapsed),
            plate,
        ),
        0 <= i < projections.target_pixels.len(),
    ensures
        plate.target_pixel.len() == projections.target_pixels.len(),
        ({
            let (r, frame) = (plate.target_pixel@[i], inputs.frame);
            match projections.target_pixels@[i] {
                Some(c) => {
                    let x = c.x.plus(integer(frame.width as nat).over(integer(2)));
                    let y = c.y.plus(integer(frame.height as nat).over(integer(2)));
                    let inside = {
                        &&& !x.nan() && 0 <= x.units() < integer(frame.width as nat).units()
                        &&& !y.nan() && 0 <= y.units() < integer(frame.height as nat).units()
                    };
                    if inside {
                        r.x == x && r.y == y
                    } else {
                        r.x.units() == -one() && r.y.units() == -one()
                    }
                },
                None => r.x.units() == -one() && r.y.units() == -one(),
            }
        }),
{
    lemma_integer(0);
    lemma_integer(1);
    lemma_integer_is_number(inputs.frame.width as nat);
    lemma_integer_is_number(inputs.frame.height as nat);
    assert(0 * one() == 0 && 1 * one() == one());
    assert(plate.target_pixel@[i] == placed(inputs.frame, projections.target_pixels@[i]));
}

/// Where the matches are wanted, every match of the pose is told of, in order: the star
/// that its id stands for, where its centroid lies on the image.
pub proof fn law_matches_are_passed_on(
    catalog: Catalog,
    epoch_equinox: u16,
    epoch_proper_motion: Single,
    inputs: SolveInputs,
    pose: SolvedPose,
    projections: Projections,
    elapsed: u128,
    plate: PlateSolution,
)
    requires
        call_ensures(
            build_proto,
            (&catalog, epoch_equinox, epoch_proper_motion, &inputs, &pose, projections, elapsed),
            plate,
        ),
        inputs.return_matches,
    ensures
        exists|at: Seq<int>|
            {
                let (ids, indices) = (pose.matched_catalog_ids@, pose.matched_centroid_indices@);
                let (found, centroids, frame) = (plate.matched_stars@, inputs.centroids@, inputs.frame);
                &&& #[trigger] are_in_order(at)
                &&& are_all_that(
                    at,
                    if ids.len() <= indices.len() {
                        ids.len() as int
                    } else {
                        indices.len() as int
                    },
                    |i: int| catalog.index().dom().contains(ids[i]) && indices[i] < centroids.len(),
                )
                &&& found.len() == at.len()
                &&& forall|k: int|
                    0 <= k < found.len() ==> {
                        let info = #[trigger] found[k];
                        let star = catalog.stars()[catalog.index()[ids[at[k]]] as int];
                        let c = centroids[indices[at[k]] as int];
                        &&& info.mag == star.mag
                        &&& info.sky_coord.ra == star.ra_rad.widened().degrees()
                        &&& info.sky_coord.dec == star.dec_rad.widened().degrees()
                        &&& info.pixel.x == c.x.widened().plus(integer(frame.width as nat).over(integer(2)))
                        &&& info.pixel.y == c.y.widened().plus(integer(frame.height as nat).over(integer(2)))
                    }
            },
{
    lemma_matches_are_listed(
        catalog,
        inputs.frame,
        inputs.centroids@,
        pose.matched_catalog_ids@,
        pose.matched_centroid_indices@,
        plate.matched_stars@,
    );
}

/// Where the catalog is wanted, the overlay holds every given star that falls on the
/// image, in order, until it has two hundred.
pub proof fn law_overlay_is_passed_on(
    catalog: Catalog,
    epoch_equinox: u16,
    epoch_proper_motion: Single,
    inputs: SolveInputs,
    pose: SolvedPose,
    projections: Projections,
    elapsed: u128,
    plate: PlateSolution,
)
    requires
        call_ensures(
            build_proto,
            (&catalog, epoch_equinox, epoch_proper_motion, &inputs, &pose, projections, elapsed),
            plate,
        ),
        projections.catalog_pixels.len() == projections.catalog_stars.len(),
        inputs.return_catalog,
    ensures
        exists|at: Seq<int>|
            {
                let (stars, pixels) = (projections.catalog_stars@, projections.catalog_pixels@);
                let (shown, frame) = (plate.catalog_stars@, inputs.frame);
                &&& #[trigger] are_in_order(at)
                &&& are_all_that(
                    at,
                    stars.len() as int,
                    |i: int|
                        pixels[i] matches Some(p) && {
                            let x = p.x.plus(integer(frame.width as nat).over(integer(2)));
                            let y = p.y.plus(integer(frame.height as nat).over(integer(2)));
                            &&& !x.nan() && 0 <= x.units() < integer(frame.width as nat).units()
                            &&& !y.nan() && 0 <= y.units() < integer(frame.height as nat).units()
                        },
                )
                &&& shown.len() == (if at.len() <= 200 {
                    at.len() as int
                } else {
                    200
                })
                &&& forall|k: int|
                    0 <= k < shown.len() ==> {
                        let info = #[trigger] shown[k];
                        let (star, p) = (stars[at[k]], pixels[at[k]]->0);
                        &&& info.mag == star.mag
                        &&& info.sky_coord.ra == star.ra_rad.widened().degrees()
                        &&& info.sky_coord.dec == star.dec_rad.widened().degrees()
                        &&& info.pixel.x == p.x.plus(integer(frame.width as nat).over(integer(2)))
                        &&& info.pixel.y == p.y.plus(integer(frame.height as nat).over(integer(2)))
                    }
            },
{
    lemma_overlay_is_shown(
        inputs.frame,
        projections.catalog_stars@,
        projections.catalog_pixels@,
        plate.catalog_stars@,
    );
}

} // verus!
