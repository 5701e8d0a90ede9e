//! The solver: a star database, and what a request to solve an image makes of it.

use vstd::prelude::*;

use crate::angle::arcseconds;
use crate::arithmetic::{integer, lemma_integer};
use crate::catalog::{id_index, is_brightest_first, lemma_cone_is_sorted, matches_of, overlay, Catalog, Star};
use crate::duration::DURATION_END;
use crate::geometry::{EquatorialCoordinates, Frame, ImageCoord};
use crate::number::{one, Double, Single};
use crate::plate::{
    answers, build_proto, is_opposite, is_plate, lemma_opposite_row, placed, PlateSolution, Projections,
    SolvedPose,
};
use crate::pose::roll_of;
use crate::request::{is_prepared, prepare, SolveExtension, SolveInputs, SolveParams, DEFAULT_TIMEOUT};
use crate::seeds::fov_seeds;

verus! {

/// What a database says of itself.
#[derive(Clone, Copy, Debug, PartialEq, Eq, Structural)]
pub struct DatabaseProperties {
    /// The narrowest and the widest field it can solve, in radians.
    pub min_fov_rad: Single,
    pub max_fov_rad: Single,
    pub epoch_equinox: u16,
    pub epoch_proper_motion: Single,
}

/// A plate solver over one database.
pub struct Tetra3RsSolver {
    catalog: Catalog,
    properties: DatabaseProperties,
    /// The camera's field of view, where it is known: for requests that do not tell.
    default_fov_deg: Option<Double>,
}

impl Tetra3RsSolver {
    pub closed spec fn stars(&self) -> Catalog {
        self.catalog
    }

    pub closed spec fn properties(&self) -> DatabaseProperties {
        self.properties
    }

    pub closed spec fn default_fov_deg(&self) -> Option<Double> {
        self.default_fov_deg
    }

    /// The catalog's index leads to stars.
    pub open spec fn well_formed(&self) -> bool {
        self.stars().well_formed()
    }

    /// A solver for a database that lists its stars and, in the same order, their
    /// catalog ids. With `default_fov_deg` unknown, a request that does not tell its
    /// field of view is solved over the database's whole range.
    pub fn new(
        stars: Vec<Star>,
        star_catalog_ids: &Vec<i64>,
        properties: DatabaseProperties,
        default_fov_deg: Option<Double>,
    ) -> (s: Tetra3RsSolver)
        ensures
            star_catalog_ids.len() <= stars.len() ==> s.well_formed(),
            s.stars().stars() == stars@,
            s.stars().index() == id_index(star_catalog_ids@),
            s.properties() == properties,
            s.default_fov_deg() == default_fov_deg,
    {
        Tetra3RsSolver { catalog: Catalog::new(stars, star_catalog_ids), properties, default_fov_deg }
    }

    /// The narrowest and the widest field of the database, in degrees.
    pub fn db_fov_range_deg(&self) -> (r: (Double, Double))
        ensures
            r.0 == self.properties().min_fov_rad.degrees().widened(),
            r.1 == self.properties().max_fov_rad.degrees().widened(),
    {
        (self.properties.min_fov_rad.to_degrees().widen(), self.properties.max_fov_rad.to_degrees().widen())
    }

    /// How long a solve may take when the caller does not say, in nanoseconds.
    pub fn default_timeout(&self) -> (nanos: u128)
        ensures
            nanos == DEFAULT_TIMEOUT,
    {
        DEFAULT_TIMEOUT
    }

    /// What the solver is given for a request.
    pub fn prepare(
        &self,
        star_centroids: &Vec<ImageCoord>,
        width: usize,
        height: usize,
        extension: &SolveExtension,
        params: &SolveParams,
        imu_estimate: Option<EquatorialCoordinates>,
    ) -> (inputs: SolveInputs)
        ensures
            is_prepared(
                inputs,
                star_centroids@,
                Frame { width, height },
                *extension,
                *params,
                imu_estimate,
                self.default_fov_deg(),
                self.properties().min_fov_rad.degrees().widened(),
                self.properties().max_fov_rad.degrees().widened(),
            ),
    {
        let (db_min, db_max): (Double, Double) = self.db_fov_range_deg();
        prepare(
            star_centroids,
            Frame { width, height },
            extension,
            params,
            imu_estimate,
            self.default_fov_deg,
            db_min,
            db_max,
        )
    }

    /// The stars at `indices` of the catalog, brightest first.
    pub fn brightest_first(&self, indices: &Vec<usize>) -> (r: Vec<Star>)
        requires
            forall|i: int| 0 <= i < indices.len() ==> (#[trigger] indices[i]) < self.stars().stars().len(),
        ensures
            is_brightest_first(self.stars().stars(), indices@, r@),
    {
        self.catalog.brightest_first(indices)
    }

    /// Whether the catalog has a star for each match that the callers are told of.
    pub fn has_matched_stars(&self, inputs: &SolveInputs, pose: &SolvedPose) -> (b: bool)
        ensures
            b == (inputs.return_matches ==> self.stars().leads_to_stars(
                pose.matched_catalog_ids@,
                pose.matched_centroid_indices@,
                inputs.centroids.len() as nat,
            )),
    {
        !inputs.return_matches || self.catalog.has_stars_for(
            &pose.matched_catalog_ids,
            &pose.matched_centroid_indices,
            inputs.centroids.len(),
        )
    }

    /// What the callers are told of a solution. `elapsed` is the time since the whole
    /// solve began, in nanoseconds.
    pub fn build_proto(&self, inputs: &SolveInputs, pose: &SolvedPose, projections: Projections, elapsed: u128) -> (plate:
        PlateSolution)
        requires
            inputs.return_matches ==> self.stars().leads_to_stars(
                pose.matched_catalog_ids@,
                pose.matched_centroid_indices@,
                inputs.centroids.len() as nat,
            ),
            answers(projections, *inputs, &self.stars()),
            elapsed < DURATION_END,
        ensures
            is_plate(
                plate,
                &self.stars(),
                self.properties().epoch_equinox,
                self.properties().epoch_proper_motion,
                *inputs,
                *pose,
                projections,
                elapsed,
            ),
    {
        build_proto(
            &self.catalog,
            self.properties.epoch_equinox,
            self.properties.epoch_proper_motion,
            inputs,
            pose,
            projections,
            elapsed,
        )
    }
}

/// A range of fields of view that a database can be made for: `0 < min <= max < 180`.
pub open spec fn valid_fov_range(min_fov: Double, max_fov: Double) -> bool {
    &&& integer(0).below(min_fov)
    &&& min_fov.at_most(max_fov)
    &&& max_fov.below(integer(180))
}

/// Whether a database can be made for a range of fields of view, in degrees.
pub fn is_valid_fov_range(min_fov: Single, max_fov: Single) -> (b: bool)
    ensures
        b == valid_fov_range(min_fov.widened(), max_fov.widened()),
{
    let min: Double = min_fov.widen();
    let max: Double = max_fov.widen();
    Double::from_u64(0).lt(min) && min.le(max) && max.lt(Double::from_u64(180))
}

/// A solver has the stars, the ids and the properties of its database, and the field of
/// view that it was made with.
pub proof fn law_solver_keeps_its_database(
    stars: Vec<Star>,
    ids: Vec<i64>,
    properties: DatabaseProperties,
    default_fov_deg: Option<Double>,
    catalog: Catalog,
    solver: Tetra3RsSolver,
)
    requires
        call_ensures(Tetra3RsSolver::new, (stars, &ids, properties, default_fov_deg), solver),
        call_ensures(Catalog::new, (stars, &ids), catalog),
    ensures
        solver.stars().stars() == stars@,
        solver.stars().index() == catalog.index(),
        solver.properties() == properties,
        solver.default_fov_deg() == default_fov_deg,
{
}

/// The range of a database goes from its narrowest field to its widest, each in degrees.
pub proof fn law_range_is_the_databases(
    solver: Tetra3RsSolver,
    narrowest: Single,
    widest: Single,
    min: Double,
    max: Double,
    r: (Double, Double),
)
    requires
        call_ensures(Tetra3RsSolver::db_fov_range_deg, (&solver,), r),
        call_ensures(Single::to_degrees, (&solver.properties().min_fov_rad,), narrowest),
        call_ensures(Single::to_degrees, (&solver.properties().max_fov_rad,), widest),
        call_ensures(Single::widen, (&narrowest,), min),
        call_ensures(Single::widen, (&widest,), max),
    ensures
        r.0 == min,
        r.1 == max,
{
}

/// A solve may take five seconds when the caller does not say.
pub proof fn law_solves_take_five_seconds(solver: Tetra3RsSolver, nanos: u128)
    requires
        call_ensures(Tetra3RsSolver::default_timeout, (&solver,), nanos),
    ensures
        nanos == 5_000_000_000,
{
}

/// A solver passes a request on as it was made: what the caller gave is what the search
/// is given, each thing whatever the others are, and what the caller left out has its
/// default.
pub proof fn law_solver_passes_requests_on(
    solver: Tetra3RsSolver,
    star_centroids: Vec<ImageCoord>,
    width: usize,
    height: usize,
    extension: SolveExtension,
    params: SolveParams,
    imu_estimate: Option<EquatorialCoordinates>,
    inputs: SolveInputs,
)
    requires
        call_ensures(
            Tetra3RsSolver::prepare,
            (&solver, &star_centroids, width, height, &extension, &params, imu_estimate),
            inputs,
        ),
    ensures
        params.attitude_hint matches Some(hint) ==> inputs.attitude_hint == Some(hint),
        params.attitude_hint is None ==> inputs.attitude_hint == imu_estimate,
        params.fov_estimate matches Some(estimate) ==> inputs.seeds@ == seq![estimate.0],
        params.fov_estimate is None ==> (solver.default_fov_deg() matches Some(fov) ==> inputs.seeds@ == seq![fov]),
        params.solve_timeout matches Some(t) ==> inputs.timeout == t,
        params.solve_timeout is None ==> inputs.timeout == 5_000_000_000,
        params.match_radius matches Some(r) ==> inputs.match_radius == r.narrowed(),
        params.match_radius is None ==> inputs.match_radius == (Double { bits: 0x3f84_7ae1_47ae_147b }).narrowed(),
        params.match_threshold matches Some(t) ==> inputs.match_threshold == t,
        params.match_threshold is None ==> inputs.match_threshold.bits == 0x3ee4_f8b5_88e3_68f1,
        params.match_max_error matches Some(e) ==> inputs.match_max_error == Some(e.narrowed()),
        params.match_max_error is None ==> inputs.match_max_error is None,
        params.distortion matches Some(d) ==> inputs.distortion == d,
        params.distortion is None ==> inputs.distortion.bits == 0,
        inputs.frame.width == width && inputs.frame.height == height,
        inputs.centroids.len() == star_centroids.len(),
        forall|i: int|
            0 <= i < star_centroids.len() ==> {
                let c = #[trigger] inputs.centroids@[i];
                &&& c.x == star_centroids[i].x.minus(integer(width as nat).over(integer(2))).narrowed()
                &&& c.y == star_centroids[i].y.minus(integer(height as nat).over(integer(2))).narrowed()
            },
        extension.target_pixel matches Some(v) ==> inputs.target_pixels@ == v@,
        extension.target_pixel is None ==> inputs.target_pixels.len() == 0,
        extension.target_sky_coord matches Some(v) ==> inputs.target_sky_coords@ == v@,
        extension.target_sky_coord is None ==> inputs.target_sky_coords.len() == 0,
        inputs.return_matches == extension.return_matches,
        inputs.return_catalog == extension.return_catalog,
        inputs.return_rotation_matrix == extension.return_rotation_matrix,
{
}

/// Without a known field of view, a solver tries those of its database's range.
pub proof fn law_solver_searches_its_range(
    solver: Tetra3RsSolver,
    star_centroids: Vec<ImageCoord>,
    width: usize,
    height: usize,
    extension: SolveExtension,
    params: SolveParams,
    imu_estimate: Option<EquatorialCoordinates>,
    inputs: SolveInputs,
    range: (Double, Double),
    blind: Vec<Double>,
)
    requires
        call_ensures(
            Tetra3RsSolver::prepare,
            (&solver, &star_centroids, width, height, &extension, &params, imu_estimate),
            inputs,
        ),
        call_ensures(Tetra3RsSolver::db_fov_range_deg, (&solver,), range),
        call_ensures(fov_seeds, (None, range.0, range.1), blind),
        params.fov_estimate is None,
        solver.default_fov_deg() is None,
    ensures
        inputs.seeds@ == blind@,
{
}

/// A solver tells of a solution with the epochs of its database. The rest is as the
/// solution has it; the matrix, entry by entry, is the camera's boresight, the opposite of
/// its right and the opposite of its down.
pub proof fn law_solver_passes_findings_on(
    solver: Tetra3RsSolver,
    inputs: SolveInputs,
    pose: SolvedPose,
    projections: Projections,
    elapsed: u128,
    plate: PlateSolution,
)
    requires
        call_ensures(Tetra3RsSolver::build_proto, (&solver, &inputs, &pose, projections, elapsed), plate),
    ensures
        plate.epoch_equinox == solver.properties().epoch_equinox,
        plate.epoch_proper_motion == solver.properties().epoch_proper_motion,
        plate.image_sky_coord == Some(pose.center),
        plate.prob == pose.prob,
        plate.distortion == Some(inputs.distortion),
        plate.roll == roll_of(pose.theta_rad, pose.parity_flip),
        plate.fov == pose.fov_rad.degrees().widened(),
        plate.rmse == arcseconds(pose.rmse_rad),
        plate.p90_error == arcseconds(pose.p90e_rad),
        plate.max_error == arcseconds(pose.max_err_rad),
        pose.num_matches <= i32::MAX ==> plate.num_matches == pose.num_matches,
        plate.solve_time matches Some(d) ==> d.seconds * 1_000_000_000 + d.nanos == elapsed && 0 <= d.nanos
            < 1_000_000_000,
        plate.solve_time is None <==> elapsed > 9_223_372_036_854_775_807_999_999_999,
        plate.target_sky_coord@ == projections.target_sky_coords@,
        plate.target_pixel.len() == projections.target_pixels.len(),
        plate.rotation_matrix.len() == (if inputs.return_rotation_matrix {
            9int
        } else {
            0
        }),
        inputs.return_rotation_matrix ==> {
            let m = plate.rotation_matrix@;
            let (right, down, ahead) = (pose.camera.row0, pose.camera.row1, pose.camera.row2);
            &&& m[0] == ahead.x && m[1] == ahead.y && m[2] == ahead.z
            &&& is_opposite(m[3], right.x) && is_opposite(m[4], right.y) && is_opposite(m[5], right.z)
            &&& is_opposite(m[6], down.x) && is_opposite(m[7], down.y) && is_opposite(m[8], down.z)
        },
        forall|i: int|
            0 <= i < projections.target_pixels.len() ==> #[trigger] plate.target_pixel@[i] == placed(
                inputs.frame,
                projections.target_pixels@[i],
            ),
        inputs.return_matches ==> plate.matched_stars@ == matches_of(
            &solver.stars(),
            inputs.frame,
            inputs.centroids@,
            pose.matched_catalog_ids@,
            pose.matched_centroid_indices@,
        ),
        inputs.return_catalog ==> plate.catalog_stars@ == overlay(
            inputs.frame,
            projections.catalog_stars@,
            projections.catalog_pixels@,
        ),
        !inputs.return_matches ==> plate.matched_stars.len() == 0,
        !inputs.return_catalog ==> plate.catalog_stars.len() == 0,
        plate.pattern_centroids.len() == 0,
        !plate.solution_from_imu,
{
    lemma_opposite_row(pose.camera.row0, 0, 0, 0);
    lemma_opposite_row(pose.camera.row1, 0, 0, 0);
}

/// A database can be made for fields of more than nothing and less than half a turn, the
/// narrowest first.
pub proof fn law_fov_ranges(min_fov: Single, max_fov: Single, min: Double, max: Double, b: bool)
    requires
        call_ensures(is_valid_fov_range, (min_fov, max_fov), b),
        call_ensures(Single::widen, (&min_fov,), min),
        call_ensures(Single::widen, (&max_fov,), max),
    ensures
        b <==> !min.nan() && !max.nan() && 0 < min.units() && min.units() <= max.units() && max.units() < 180 * one(),
{
    lemma_integer(0);
    lemma_integer(180);
    assert(0 * one() == 0);
}

/// A solver has a star for each match that is told of, or says that it has not: where the
/// matches are wanted, each that names a centroid and a listed id leads to a star.
pub proof fn law_solver_knows_its_stars(solver: Tetra3RsSolver, inputs: SolveInputs, pose: SolvedPose, b: bool)
    requires
        call_ensures(Tetra3RsSolver::has_matched_stars, (&solver, &inputs, &pose), b),
    ensures
        !inputs.return_matches ==> b,
        inputs.return_matches ==> (b <==> forall|k: int|
            #![trigger pose.matched_catalog_ids@[k]]
            0 <= k < pose.matched_catalog_ids.len() && k < pose.matched_centroid_indices.len()
                && pose.matched_centroid_indices@[k] < inputs.centroids.len() && solver.stars().index().dom().contains(
                pose.matched_catalog_ids@[k],
            ) ==> solver.stars().index()[pose.matched_catalog_ids@[k]] < solver.stars().stars().len()),
{
}

/// A solver sorts the stars of a cone of its catalog: every one of them, the brighter
/// before the fainter, and equals in order.
pub proof fn law_solver_sorts_its_cones(solver: Tetra3RsSolver, indices: Vec<usize>, r: Vec<Star>)
    requires
        call_ensures(Tetra3RsSolver::brightest_first, (&solver, &indices), r),
    ensures
        exists|order: Seq<usize>|
            {
                &&& #[trigger] order.no_duplicates()
                &&& order.len() == indices.len()
                &&& forall|p: usize| p < indices.len() ==> #[trigger] order.contains(p)
                &&& r.len() == indices.len()
                &&& forall|i: int|
                    0 <= i < order.len() ==> {
                        &&& (#[trigger] order[i]) < indices.len()
                        &&& r@[i] == solver.stars().stars()[indices@[order[i] as int] as int]
                    }
                &&& forall|i: int, j: int|
                    0 <= i < j < order.len() ==> {
                        let (a, b) = (#[trigger] order[i], #[trigger] order[j]);
                        r@[i].mag.rank() <= r@[j].mag.rank() && (r@[i].mag.rank() == r@[j].mag.rank() ==> a < b)
                    }
            },
{
    lemma_cone_is_sorted(solver.stars().stars(), indices@, r@);
}

} // verus!
