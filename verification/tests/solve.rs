//! The solve, over a small database of made-up stars.

use std::sync::atomic::AtomicBool;

use cedar_server::catalog::CenteredCentroid;
use cedar_server::database::{Database, StarField};
use cedar_server::error::SolverError;
use cedar_server::geometry::{EquatorialCoordinates, Frame};
use cedar_server::number::{Double, Single};
use cedar_server::request::SolveInputs;
use cedar_server::settings::is_set_up;
use cedar_server::solve::{after_failure, before_seed, solve_blocking, when_exhausted, SolveStatus, Solved, Step};
use tetra3::{
    Centroid, Distortion, GenerateDatabaseConfig, Quaternion, RadialDistortion, SolveConfig, SolverDatabase, Star,
    StarCatalog, Vector3,
};

const SECOND: u128 = 1_000_000_000;
const FOV_DEG: f32 = 20.0;
const SIZE: u32 = 1000;

/// Stars scattered evenly over the sky, the same ones every time.
fn sky() -> Vec<Star> {
    let mut state: u64 = 0x9e37_79b9_7f4a_7c15;
    let mut random = || {
        state ^= state << 13;
        state ^= state >> 7;
        state ^= state << 17;
        (state >> 11) as f64 / (1u64 << 53) as f64
    };
    (0..3000)
        .map(|id| Star {
            id,
            ra_rad: (random() * std::f64::consts::TAU) as f32,
            dec_rad: (random() * 2.0 - 1.0).asin() as f32,
            mag: (random() * 6.0) as f32,
        })
        .collect()
}

fn tables() -> SolverDatabase {
    let config = GenerateDatabaseConfig {
        max_fov_deg: FOV_DEG,
        min_fov_deg: Some(FOV_DEG),
        lattice_field_oversampling: 10,
        patterns_per_lattice_field: 20,
        verification_stars_per_fov: 40,
        epoch_proper_motion_year: None,
        ..Default::default()
    };
    SolverDatabase::generate_from_star_list(sky(), &config, 2000.0).unwrap()
}

fn database() -> Database {
    match Database::new(tables()) {
        Some(db) => db,
        None => panic!("the tables do not fit together"),
    }
}

/// The stars that a camera sees, brightest first.
fn seen(q: Quaternion, count: usize) -> Vec<Centroid> {
    let f = (SIZE as f32 / 2.0) / (FOV_DEG.to_radians() / 2.0).tan();
    let mut stars = sky();
    stars.sort_by(|a, b| a.mag.total_cmp(&b.mag));
    let mut out = Vec::new();
    for star in stars {
        let v: Vector3 = q * star.uvec();
        let (x, y) = (v[0] / v[2] * f, v[1] / v[2] * f);
        if v[2] > 0.0 && x.abs() < SIZE as f32 / 2.0 && y.abs() < SIZE as f32 / 2.0 && out.len() < count {
            out.push(Centroid { x, y, mass: None, cov: None });
        }
    }
    out
}

fn single(x: f32) -> Single {
    Single { bits: x.to_bits() }
}

fn double(x: f64) -> Double {
    Double { bits: x.to_bits() }
}

/// A request to find some centroids, in some fields of view, in degrees.
fn request(centroids: &[Centroid], fovs: &[f32], timeout: u128) -> SolveInputs {
    SolveInputs {
        centroids: centroids.iter().map(|c| CenteredCentroid { x: single(c.x), y: single(c.y) }).collect(),
        frame: Frame { width: SIZE as usize, height: SIZE as usize },
        seeds: fovs.iter().map(|f| double(*f as f64)).collect(),
        match_radius: single(0.01),
        match_threshold: double(1e-5),
        match_max_error: None,
        attitude_hint: None,
        timeout,
        target_pixels: vec![],
        target_sky_coords: vec![],
        return_matches: false,
        return_catalog: false,
        return_rotation_matrix: false,
        distortion: double(0.0),
    }
}

fn configs(fovs: &[f32], hint: Option<Quaternion>) -> Vec<SolveConfig> {
    let config = |fov: &f32| {
        let mut config = SolveConfig::new(fov.to_radians(), SIZE, SIZE);
        config.attitude_hint = hint;
        config
    };
    fovs.iter().map(config).collect()
}

fn field(centroids: &[Centroid]) -> StarField {
    match StarField::new(centroids.to_vec()) {
        Some(field) => field,
        None => panic!("not a field"),
    }
}

/// An attitude for a request that has one: what it is, the solver is told apart.
const SOMEWHERE: EquatorialCoordinates =
    EquatorialCoordinates { north_roll_angle: Double { bits: 0 }, ra: Double { bits: 0 }, dec: Double { bits: 0 } };

/// Tries some fields of view, with nobody to withdraw the request.
fn solve_from(
    db: &Database,
    centroids: &[Centroid],
    fovs: &[f32],
    hint: Option<Quaternion>,
    timeout: u128,
) -> Result<Solved, SolverError> {
    let mut inputs = request(centroids, fovs, timeout);
    inputs.attitude_hint = hint.map(|_| SOMEWHERE);
    let (field, mut configs) = (field(centroids), configs(fovs, hint));
    assert!(is_set_up(&inputs, &field, &configs));
    // The time and the strictness of a hint are not the config's to say.
    for config in &mut configs {
        config.solve_timeout_ms = Some(0);
        config.strict_hint = true;
    }
    solve_blocking(db, &inputs, &field, configs, &AtomicBool::new(false))
}

fn solve(db: &Database, centroids: &[Centroid], fovs: &[f32], timeout: u128) -> Result<Solved, SolverError> {
    solve_from(db, centroids, fovs, None, timeout)
}

fn error(r: Result<Solved, SolverError>) -> SolverError {
    match r {
        Ok(_) => panic!("solved"),
        Err(e) => e,
    }
}

fn solution(r: Result<Solved, SolverError>) -> Solved {
    match r {
        Ok(solved) => solved,
        Err(e) => panic!("{}", e.message()),
    }
}

fn points_along(solved: &Solved, q: Quaternion) -> bool {
    let m = (q * solved.solution.qicrs2cam.inverse()).to_rotation_matrix();
    m[(0, 0)] > 0.9999 && m[(1, 1)] > 0.9999 && m[(2, 2)] > 0.9999
}

/// Centroids that are no field at all.
fn noise(count: i32) -> Vec<Centroid> {
    (0..count)
        .map(|i| Centroid { x: (i * i * 7 % 800) as f32 - 400.0, y: (i * 53 % 780) as f32 - 390.0, mass: None, cov: None })
        .collect()
}

#[test]
fn a_field_is_solved() {
    let db = database();
    let q = Quaternion::from_axis_angle(Vector3::from_array([0.3, -0.5, 0.81]).normalize(), 1.3);
    let centroids = seen(q, 30);
    assert!(centroids.len() >= 20, "{} stars in view", centroids.len());
    let solved = solution(solve(&db, &centroids, &[FOV_DEG], 10 * SECOND));
    assert_eq!(solved.seed, 0);
    assert!(solved.solution.num_matches >= 10);
    assert!(points_along(&solved, q));
    assert!(solved.elapsed() > 0);

    // A request that was withdrawn, one that has no time, one with nothing to try.
    let withdrawn = solve_blocking(
        &db,
        &request(&centroids, &[FOV_DEG], SECOND),
        &field(&centroids),
        configs(&[FOV_DEG], None),
        &AtomicBool::new(true),
    );
    assert_eq!(error(withdrawn), SolverError::Canceled);
    assert_eq!(error(solve(&db, &centroids, &[FOV_DEG], 0)), SolverError::TimedOutBetweenSeeds { seeds: 0 });
    assert_eq!(
        error(solve(&db, &centroids, &[], SECOND)),
        SolverError::NoMatch { centroids: centroids.len(), seeds: 0 }
    );

    // Four stars are too few, and two are even with a hint.
    assert_eq!(error(solve(&db, &centroids[..4], &[FOV_DEG], 10 * SECOND)), SolverError::TooFew { centroids: 4 });
    assert_eq!(
        error(solve_from(&db, &centroids[..2], &[FOV_DEG], Some(q), 10 * SECOND)),
        SolverError::TooFew { centroids: 2 }
    );

    // With a hint, four of them may do.
    match solve_from(&db, &centroids[..4], &[FOV_DEG], Some(q), 10 * SECOND) {
        Ok(solved) => assert_eq!(solved.seed, 0),
        Err(e) => assert_eq!(e, SolverError::TooFew { centroids: 4 }),
    }

    // A wrong hint does not lose what is solved without one.
    let wrong = Quaternion::from_axis_angle(Vector3::from_array([0.0, 1.0, 0.0]), 2.0);
    assert!(points_along(&solution(solve_from(&db, &centroids, &[FOV_DEG], Some(wrong), 10 * SECOND)), q));

    assert_eq!(
        error(solve(&db, &noise(12), &[FOV_DEG, FOV_DEG * 1.2], 10 * SECOND)),
        SolverError::NoMatch { centroids: 12, seeds: 2 }
    );
}

/// The first field of view is hopeless: at that scale nothing looks like the sky. The
/// second one solves.
#[test]
fn the_next_field_of_view_is_tried() {
    let db = database();
    let q = Quaternion::from_axis_angle(Vector3::from_array([-0.1, 0.9, 0.2]).normalize(), 2.1);
    let centroids = seen(q, 30);
    let solved = solution(solve(&db, &centroids, &[170.0, FOV_DEG, 170.0], 10 * SECOND));
    assert_eq!(solved.seed, 1);
    assert!(solved.solution.num_matches >= 10);
    assert!(points_along(&solved, q));
    assert_eq!(
        error(solve(&db, &centroids, &[170.0, 170.0], 10 * SECOND)),
        SolverError::NoMatch { centroids: centroids.len(), seeds: 2 }
    );
}

/// A solve gives up when its time is over.
#[test]
fn a_solve_runs_out_of_time() {
    let db = database();
    match error(solve(&db, &noise(60), &[FOV_DEG], SECOND / 100)) {
        SolverError::TimedOut { elapsed } => assert!(elapsed >= SECOND / 1000 * 9),
        e => panic!("{}", e.message()),
    }
    match error(solve(&db, &noise(60), &[FOV_DEG; 3000], SECOND / 100)) {
        SolverError::TimedOutBetweenSeeds { seeds } => assert!(seeds >= 1 && seeds < 3000),
        e => panic!("{}", e.message()),
    }
}

/// What the solver is given has to be what the request asks for.
#[test]
fn a_config_is_held_against_the_request() {
    let centroids = noise(6);
    let fovs = [FOV_DEG, 30.0];
    let stars = field(&centroids);
    let plain = request(&centroids, &fovs, SECOND);
    let with = |change: &dyn Fn(&mut SolveConfig)| {
        let mut c = configs(&fovs, None);
        change(&mut c[1]);
        is_set_up(&plain, &stars, &c)
    };
    assert!(with(&|_| ()));
    assert!(!with(&|c| c.fov_max_error_rad = Some(0.1)));
    assert!(!with(&|c| c.fov_max_error_rad = Some(f32::INFINITY)));
    assert!(!with(&|c| c.match_radius = 0.02));
    assert!(!with(&|c| c.match_threshold = 1e-4));
    assert!(!with(&|c| c.match_max_error = Some(0.01)));
    assert!(!with(&|c| c.attitude_hint = Some(Quaternion::from_axis_angle(Vector3::from_array([0.0, 1.0, 0.0]), 2.0))));
    assert!(!with(&|c| c.observer_velocity_km_s = Some([0.0, 30.0, 0.0])));
    assert!(!with(&|c| c.camera_model.distortion = Distortion::Radial(RadialDistortion::new(1e-9, 0.0, 0.0))));
    assert!(!with(&|c| c.camera_model.crpix = [0.0, 1e-300]));
    assert!(!with(&|c| c.camera_model.crpix = [f64::NAN, 0.0]));
    assert!(with(&|c| c.camera_model.crpix = [-0.0, 0.0]));
    assert!(!with(&|c| c.camera_model.image_width = SIZE + 1));
    assert!(!with(&|c| c.camera_model.image_height = 0));
    assert!(!with(&|c| c.camera_model.parity_flip = true));
    assert!(!with(&|c| c.camera_model.focal_length_px = (2.0f64).powi(-56)));
    for focus in [(2.0f64).powi(-55), 0.0, -1.0, f64::NAN, f64::INFINITY] {
        assert!(with(&|c| c.camera_model.focal_length_px = focus), "{focus}");
    }

    // The tolerance of the patterns is that of the request, and it is a number.
    let mut loose = request(&centroids, &fovs, SECOND);
    for (error, fits) in [(0.02, true), (f32::INFINITY, true), (-0.0, true), (f32::NAN, false)] {
        loose.match_max_error = Some(single(error));
        let mut c = configs(&fovs, None);
        assert!(!is_set_up(&loose, &stars, &c));
        for config in &mut c {
            config.match_max_error = Some(error);
        }
        assert_eq!(is_set_up(&loose, &stars, &c), fits, "{error}");
    }

    // A hint may be a degree off.
    let mut hinted = request(&centroids, &fovs, SECOND);
    hinted.attitude_hint = Some(SOMEWHERE);
    let hint = Quaternion::from_axis_angle(Vector3::from_array([0.0, 1.0, 0.0]), 2.0);
    assert!(!is_set_up(&hinted, &stars, &configs(&fovs, None)));
    let mut c = configs(&fovs, Some(hint));
    assert!(is_set_up(&hinted, &stars, &c));
    c[0].hint_uncertainty_rad = (2.0f32).to_radians();
    assert!(!is_set_up(&hinted, &stars, &c));

    // One config for each field of view, and the same centroids in the same order.
    assert!(!is_set_up(&plain, &stars, &configs(&fovs[..1], None)));
    assert!(!is_set_up(&plain, &field(&centroids[..5]), &configs(&fovs, None)));
    let mut turned = centroids.clone();
    turned.swap(1, 2);
    assert!(!is_set_up(&plain, &field(&turned), &configs(&fovs, None)));
}

/// A field is made of positions that can be scaled, and of nothing else.
#[test]
fn a_field_is_made_of_positions() {
    let with = |change: &dyn Fn(&mut Centroid)| {
        let mut c = noise(6);
        change(&mut c[5]);
        StarField::new(c).is_some()
    };
    assert!(with(&|_| ()));
    assert!(!with(&|c| c.mass = Some(1.0)));
    assert!(!with(&|c| c.cov = Some(Default::default())));
    let far = (2.0f32).powi(72);
    for (x, fits) in [(far, true), (-far, true), (far * 1.5, false), (f32::MIN, false), (f32::INFINITY, true), (f32::NAN, true)] {
        assert_eq!(with(&|c| c.x = x), fits, "{x}");
        assert_eq!(with(&|c| c.y = x), fits, "{x}");
    }
    let stars = field(&noise(6));
    assert_eq!(stars.len(), 6);
    assert_eq!(stars.centroids(), &noise(6));
    let spot = stars.spot(1);
    assert_eq!((spot.x, spot.y), (single(-393.0), single(-337.0)));
    assert!(!spot.has_mass && !spot.has_spread);
}

/// Positions that are not numbers are passed over.
#[test]
fn odd_positions_do_no_harm() {
    let db = database();
    let q = Quaternion::from_axis_angle(Vector3::from_array([0.3, -0.5, 0.81]).normalize(), 1.3);
    let mut centroids = seen(q, 30);
    centroids[3].x = f32::NAN;
    centroids[7].y = f32::INFINITY;
    centroids[9].x = (2.0f32).powi(72);
    let solved = solution(solve(&db, &centroids, &[FOV_DEG], 10 * SECOND));
    assert!(points_along(&solved, q));
    for i in [3, 7, 9] {
        assert!(!solved.solution.matched_centroid_indices.contains(&i));
    }
}

#[test]
fn a_database_fits_together() {
    let whole = tables();
    match Database::new(whole.clone()) {
        Some(db) => assert_eq!(db.tables().to_bytes(), whole.to_bytes()),
        None => panic!("refused"),
    }

    // A star without a direction, and a direction without a star.
    let mut broken = whole.clone();
    broken.star_vectors.pop();
    assert!(Database::new(broken).is_none());
    let mut broken = whole.clone();
    broken.star_vectors.push([1.0, 0.0, 0.0]);
    assert!(Database::new(broken).is_none());

    // A direction that is none.
    for k in 0..3 {
        for (part, fits) in [(1.0, true), (-1.0, true), (1.0000001, false), (f32::NAN, false), (f32::NEG_INFINITY, false)] {
            let mut odd = whole.clone();
            odd.star_vectors[5][k] = part;
            assert_eq!(Database::new(odd).is_some(), fits, "{part}");
        }
    }

    // A star without an id; an id without a star does no harm.
    let mut broken = whole.clone();
    broken.star_catalog_ids.pop();
    assert!(Database::new(broken).is_none());
    let mut odd = whole.clone();
    odd.star_catalog_ids.push(7);
    assert!(Database::new(odd).is_some());

    // A pattern of stars that are not there.
    let stars = whole.star_catalog.len() as u32;
    for k in 0..4 {
        for (star, fits) in [(stars - 1, true), (stars, false)] {
            let mut broken = whole.clone();
            let slot = broken.pattern_catalog.get_mut(3);
            slot.star_indices = [1, 1, 1, 1];
            slot.star_indices[k] = star;
            assert_eq!(Database::new(broken).is_some(), fits);
        }
    }

    // A tolerance of so many bins.
    for (bins, error, fits) in [
        (250, 0.001, true),
        (256, 0.03125, true),
        (256, 0.03126, false),
        (100_000_000, 1e-3, false),
        (250, f32::NAN, false),
        (250, -1.0, true),
        (0, f32::NAN, true),
        (0, f32::INFINITY, true),
        (1 << 29, 1e-10, true),
        ((1 << 29) + 1, 1e-10, false),
        (u32::MAX, 0.0, false),
    ] {
        let mut odd = whole.clone();
        odd.props.pattern_bins = bins;
        odd.props.pattern_max_error = error;
        assert_eq!(Database::new(odd).is_some(), fits, "{bins} {error}");
    }

    // No stars, and no patterns.
    let mut empty = whole.clone();
    empty.star_catalog = StarCatalog::new(4, vec![]);
    empty.star_vectors.clear();
    assert!(Database::new(empty.clone()).is_none());
    for i in 0..empty.pattern_catalog.len() {
        empty.pattern_catalog.get_mut(i).star_indices = [0, 0, 0, 0];
    }
    assert!(Database::new(empty).is_some());
}

#[test]
fn a_step_is_taken_while_there_is_time() {
    let stop = |error: SolverError| Step::Stop { error };
    assert_eq!(before_seed(0, false, 0, 5 * SECOND), Step::Attempt { timeout_ms: 5000 });
    assert_eq!(before_seed(1, false, 4_999_500_000, 5 * SECOND), Step::Attempt { timeout_ms: 0 });
    assert_eq!(before_seed(2, false, 1_999_999, 5 * SECOND), Step::Attempt { timeout_ms: 4998 });
    assert_eq!(before_seed(3, false, 5 * SECOND, 5 * SECOND), stop(SolverError::TimedOutBetweenSeeds { seeds: 3 }));
    assert_eq!(before_seed(3, false, 6 * SECOND, 5 * SECOND), stop(SolverError::TimedOutBetweenSeeds { seeds: 3 }));
    assert_eq!(before_seed(0, true, 0, 5 * SECOND), stop(SolverError::Canceled));
    assert_eq!(before_seed(4, true, 6 * SECOND, 5 * SECOND), stop(SolverError::Canceled));
    let long: u128 = ((1u128 << 64) + 7) * 1_000_000;
    assert_eq!(before_seed(0, false, 0, long), Step::Attempt { timeout_ms: 7 });
}

#[test]
fn only_a_want_of_centroids_ends_a_solve() {
    assert_eq!(after_failure(SolveStatus::TooFew, 3), Some(SolverError::TooFew { centroids: 3 }));
    assert_eq!(after_failure(SolveStatus::NoMatch, 3), None);
    assert_eq!(after_failure(SolveStatus::Timeout, 3), None);
}

#[test]
fn the_last_attempt_decides_what_is_reported() {
    let none = SolverError::NoMatch { centroids: 9, seeds: 2 };
    assert_eq!(when_exhausted(SolveStatus::Timeout, 77, 9, 2), SolverError::TimedOut { elapsed: 77 });
    assert_eq!(when_exhausted(SolveStatus::NoMatch, 77, 9, 2), none);
    assert_eq!(when_exhausted(SolveStatus::TooFew, 77, 9, 2), none);
}
