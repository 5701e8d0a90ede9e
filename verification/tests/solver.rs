//! Requests, catalogs, plate solutions and errors.

use cedar_server::catalog::{catalog_stars_in_frame, cone_center, Catalog, CenteredCentroid, Star, StarInfo, MAX_CATALOG_STARS};
use cedar_server::duration::ProtoDuration;
use cedar_server::error::{ErrorCode, SolverError};
use cedar_server::geometry::{CelestialCoord, EquatorialCoordinates, Frame, ImageCoord};
use cedar_server::number::{Double, Single};
use cedar_server::order::stable_order;
use cedar_server::plate::{place_target, target_queries, PlateSolution, Projections, SolvedPose};
use cedar_server::pose::{Matrix, Vector};
use cedar_server::request::{distortion_is_ignored, hint_uncertainty_rad, SolveExtension, SolveInputs, SolveParams, DEFAULT_TIMEOUT};
use cedar_server::solver::{is_valid_fov_range, DatabaseProperties, Tetra3RsSolver};

fn double(x: f64) -> Double {
    Double { bits: x.to_bits() }
}

fn single(x: f32) -> Single {
    Single { bits: x.to_bits() }
}

fn float(x: Double) -> f64 {
    f64::from_bits(x.bits)
}

fn pixel(x: f64, y: f64) -> ImageCoord {
    ImageCoord { x: double(x), y: double(y) }
}

fn sky(ra: f64, dec: f64) -> CelestialCoord {
    CelestialCoord { ra: double(ra), dec: double(dec) }
}

fn star(ra_rad: f32, dec_rad: f32, mag: f32) -> Star {
    Star { ra_rad: single(ra_rad), dec_rad: single(dec_rad), mag: single(mag) }
}

fn star_sky(ra_rad: f32, dec_rad: f32) -> CelestialCoord {
    sky((ra_rad as f64).to_degrees(), (dec_rad as f64).to_degrees())
}

fn attitude(ra: f64) -> EquatorialCoordinates {
    EquatorialCoordinates { north_roll_angle: double(1.0), ra: double(ra), dec: double(2.0) }
}

const FRAME: Frame = Frame { width: 100, height: 51 };

fn params() -> SolveParams {
    SolveParams {
        fov_estimate: None,
        match_radius: None,
        match_threshold: None,
        match_max_error: None,
        solve_timeout: None,
        distortion: None,
        attitude_hint: None,
    }
}

fn extension() -> SolveExtension {
    SolveExtension {
        target_pixel: None,
        target_sky_coord: None,
        return_matches: false,
        return_catalog: false,
        return_rotation_matrix: false,
    }
}

fn solver(default_fov_deg: Option<f64>) -> Tetra3RsSolver {
    let stars = vec![star(1.0, 2.0, 3.0), star(4.0, 5.0, -1.5), star(7.0, 8.0, 3.0), star(9.0, 9.0, 2.0)];
    Tetra3RsSolver::new(
        stars,
        &vec![11, 22, 33, 11],
        DatabaseProperties {
            min_fov_rad: single(10.0f32.to_radians()),
            max_fov_rad: single(30.0f32.to_radians()),
            epoch_equinox: 2000,
            epoch_proper_motion: single(2025.5),
        },
        default_fov_deg.map(double),
    )
}

fn prepare(solver: &Tetra3RsSolver, extension: &SolveExtension, params: &SolveParams) -> SolveInputs {
    let centroids = vec![pixel(50.0, 25.5), pixel(0.0, 0.0), pixel(99.1, 50.7)];
    solver.prepare(&centroids, 100, 51, extension, params, None)
}

#[test]
fn an_empty_request_gets_the_defaults() {
    let inputs = prepare(&solver(None), &extension(), &params());
    assert_eq!(inputs.match_radius, single(0.01));
    assert_eq!(float(inputs.match_threshold), 1e-5);
    assert_eq!(inputs.match_max_error, None);
    assert_eq!(inputs.timeout, 5_000_000_000);
    assert_eq!(float(inputs.distortion), 0.0);
    assert!(inputs.attitude_hint.is_none());
    assert!(inputs.target_pixels.is_empty() && inputs.target_sky_coords.is_empty());
    assert!(!inputs.return_matches && !inputs.return_catalog && !inputs.return_rotation_matrix);
    // Solved blind, over the database's range.
    let seeds: Vec<f64> = inputs.seeds.iter().map(|s| float(*s)).collect();
    let low = 10.0f32.to_radians().to_degrees() as f64;
    assert_eq!(seeds, vec![low / 0.75, low / 0.75 * 1.75 / 0.75]);
    let radians: Vec<Single> = seeds.iter().map(|s| single(s.to_radians() as f32)).collect();
    assert_eq!(inputs.seeds_rad(), radians);
    assert_eq!(solver(None).default_timeout(), DEFAULT_TIMEOUT);
    let (min, max) = solver(None).db_fov_range_deg();
    assert_eq!((float(min), float(max)), (low, 30.0f32.to_radians().to_degrees() as f64));
    assert_eq!(hint_uncertainty_rad(), single(1.0f32.to_radians()));
}

#[test]
fn a_request_is_passed_on() {
    let mut p = params();
    p.fov_estimate = Some((double(12.66), double(0.5)));
    p.match_radius = Some(double(0.1));
    p.match_threshold = Some(double(1e-3));
    p.match_max_error = Some(double(0.005));
    p.solve_timeout = Some(7);
    p.distortion = Some(double(0.25));
    let mut e = extension();
    e.target_pixel = Some(vec![pixel(1.0, 2.0)]);
    e.target_sky_coord = Some(vec![sky(3.0, 4.0), sky(5.0, 6.0)]);
    e.return_matches = true;
    e.return_catalog = true;
    e.return_rotation_matrix = true;
    let inputs = prepare(&solver(Some(15.0)), &e, &p);
    assert_eq!(inputs.seeds, vec![double(12.66)]);
    assert_eq!(inputs.match_radius, single(0.1f64 as f32));
    assert_eq!(float(inputs.match_threshold), 1e-3);
    assert_eq!(inputs.match_max_error, Some(single(0.005f64 as f32)));
    assert_eq!(inputs.timeout, 7);
    assert_eq!(float(inputs.distortion), 0.25);
    assert_eq!(inputs.target_pixels, vec![pixel(1.0, 2.0)]);
    assert_eq!(inputs.target_sky_coords, vec![sky(3.0, 4.0), sky(5.0, 6.0)]);
    assert!(inputs.return_matches && inputs.return_catalog && inputs.return_rotation_matrix);
    assert_eq!(inputs.frame.solver_size(), (100, 51));
    assert_eq!(target_queries(&inputs), vec![pixel(-49.0, -23.5)]);
}

#[test]
fn the_configured_field_of_view_stands_in_for_an_estimate() {
    let inputs = prepare(&solver(Some(15.0)), &extension(), &params());
    assert_eq!(inputs.seeds, vec![double(15.0)]);
}

#[test]
fn the_callers_hint_wins_over_the_motion_sensor() {
    let s = solver(None);
    let mut p = params();
    let imu = Some(attitude(10.0));
    assert_eq!(s.prepare(&vec![], 1, 1, &extension(), &p, imu).attitude_hint, imu);
    p.attitude_hint = Some(attitude(20.0));
    assert_eq!(s.prepare(&vec![], 1, 1, &extension(), &p, imu).attitude_hint, Some(attitude(20.0)));
    assert_eq!(s.prepare(&vec![], 1, 1, &extension(), &p, None).attitude_hint, Some(attitude(20.0)));
}

#[test]
fn centroids_are_centered_in_order() {
    let inputs = prepare(&solver(None), &extension(), &params());
    let at = |x: f64, y: f64| CenteredCentroid { x: single(x as f32), y: single(y as f32) };
    assert_eq!(inputs.centroids, vec![at(0.0, 0.0), at(-50.0, -25.5), at(99.1 - 50.0, 50.7 - 25.5)]);
    assert_eq!(inputs.centroids[1].to_corner(&FRAME), pixel(0.0, 0.0));
    let back = inputs.centroids[2].to_corner(&FRAME);
    assert_eq!(float(back.x), (99.1f64 - 50.0) as f32 as f64 + 50.0);
}

#[test]
fn a_trace_of_distortion_is_no_cause_for_warning() {
    for (d, ignored) in [(0.0, false), (1e-9, false), (1.1e-9, true), (-1e-9, false), (-0.1, true), (f64::NAN, false)] {
        assert_eq!(distortion_is_ignored(double(d)), ignored, "{d}");
    }
}

#[test]
fn positions_lie_on_the_image_or_nowhere() {
    let nowhere = pixel(-1.0, -1.0);
    assert_eq!(place_target(&FRAME, None), nowhere);
    assert_eq!(place_target(&FRAME, Some(pixel(0.0, 0.0))), pixel(50.0, 25.5));
    assert_eq!(place_target(&FRAME, Some(pixel(-50.0, -25.5))), pixel(0.0, 0.0));
    assert_eq!(place_target(&FRAME, Some(pixel(50.0, 0.0))), nowhere);
    assert_eq!(place_target(&FRAME, Some(pixel(0.0, 25.5))), nowhere);
    assert_eq!(place_target(&FRAME, Some(pixel(-50.1, 0.0))), nowhere);
    assert_eq!(place_target(&FRAME, Some(pixel(f64::NAN, 0.0))), nowhere);
    assert_eq!(place_target(&FRAME, Some(pixel(f64::INFINITY, 0.0))), nowhere);
}

#[test]
fn sorting_is_stable() {
    assert_eq!(stable_order(&vec![]), Vec::<usize>::new());
    assert_eq!(stable_order(&vec![3, 1, 3, 2, 1]), vec![1, 4, 3, 0, 2]);
    let keys: Vec<i64> = (0..1000).map(|i: i64| (i * 7919) % 13 - 6).collect();
    let mut want: Vec<usize> = (0..1000).collect();
    want.sort_by_key(|i| keys[*i]);
    assert_eq!(stable_order(&keys), want);
}

#[test]
fn the_brightest_stars_come_first() {
    let mags = [2.0, -1.0, 5.5, 2.0, f32::NAN, -0.0, 0.0, -f32::NAN, f32::INFINITY];
    let stars: Vec<Star> = mags.iter().enumerate().map(|(i, m)| star(i as f32, 0.0, *m)).collect();
    let catalog = Catalog::new(stars, &vec![]);
    let indices: Vec<usize> = vec![3, 0, 8, 2, 1, 4, 6, 5, 7];
    let got: Vec<usize> = catalog.brightest_first(&indices).iter().map(|s| f32::from_bits(s.ra_rad.bits) as usize).collect();
    let mut want = indices.clone();
    want.sort_by(|a, b| mags[*a].total_cmp(&mags[*b]));
    assert_eq!(got, want);
    assert_eq!(got, vec![7, 1, 5, 6, 3, 0, 2, 8, 4]);
}

#[test]
fn an_overlay_shows_stars_inside_the_frame() {
    let stars: Vec<Star> = (0..6).map(|i| star(i as f32, 0.0, i as f32)).collect();
    let pixels = vec![
        Some(pixel(0.0, 0.0)),
        None,
        Some(pixel(60.0, 0.0)),
        Some(pixel(-50.0, 25.0)),
        Some(pixel(0.0, -26.0)),
        Some(pixel(f64::NAN, 0.0)),
    ];
    let shown = catalog_stars_in_frame(&FRAME, &stars, &pixels);
    let info = |x: f64, y: f64, i: usize| StarInfo { pixel: pixel(x, y), sky_coord: stars[i].sky_coord(), mag: stars[i].mag };
    assert_eq!(shown, vec![info(50.0, 25.5, 0), info(0.0, 50.5, 3)]);
}

#[test]
fn an_overlay_is_cut_short() {
    let stars: Vec<Star> = (0..300).map(|i| star(i as f32, 0.0, i as f32)).collect();
    let pixels = vec![Some(pixel(0.0, 0.0)); 300];
    let shown = catalog_stars_in_frame(&FRAME, &stars, &pixels);
    assert_eq!(shown.len(), MAX_CATALOG_STARS);
    assert_eq!(MAX_CATALOG_STARS, 200);
    assert_eq!(shown[199].sky_coord, star_sky(199.0, 0.0));
    assert_eq!(cone_center(sky(10.1, -20.2)), (single((10.1f64 as f32).to_radians()), single((-20.2f64 as f32).to_radians())));
}

#[test]
fn a_repeated_id_means_the_last_star() {
    let catalog = Catalog::new(vec![star(1.0, 0.0, 0.0), star(2.0, 0.0, 0.0), star(3.0, 0.0, 0.0)], &vec![5, 6, 5]);
    assert_eq!(catalog.find(5), Some(star(3.0, 0.0, 0.0)));
    assert_eq!(catalog.find(6), Some(star(2.0, 0.0, 0.0)));
    assert_eq!(catalog.find(7), None);
}

#[test]
fn only_a_match_that_is_told_of_needs_its_star() {
    // The database lists an id too many: it leads to no star.
    let catalog = Catalog::new(vec![star(1.0, 0.0, 0.0)], &vec![5, 6]);
    assert!(catalog.has_stars_for(&vec![5, 7, 5], &vec![0, 1, 2], 3));
    assert!(!catalog.has_stars_for(&vec![5, 6], &vec![0, 1], 3));
    // A match without a centroid, and one beyond the shorter list, need none.
    assert!(catalog.has_stars_for(&vec![5, 6], &vec![0, 3], 3));
    assert!(catalog.has_stars_for(&vec![5, 6], &vec![0], 3));
    let matched = catalog.matched_stars(&FRAME, &vec![], &vec![6], &vec![0]);
    assert!(matched.is_empty());

    let s = solver(None);
    let mut e = extension();
    assert!(s.has_matched_stars(&prepare(&s, &e, &params()), &pose()));
    e.return_matches = true;
    assert!(s.has_matched_stars(&prepare(&s, &e, &params()), &pose()));
}

fn axis(x: f64, y: f64, z: f64) -> Vector {
    Vector { x: double(x), y: double(y), z: double(z) }
}

fn pose() -> SolvedPose {
    SolvedPose {
        center: sky(10.0, -20.0),
        theta_rad: double(0.5),
        parity_flip: false,
        fov_rad: single(0.211),
        rmse_rad: single(0.00001),
        p90e_rad: single(0.00002),
        max_err_rad: single(0.00003),
        num_matches: 17,
        prob: double(1e-12),
        camera: Matrix { row0: axis(1.0, 0.0, 0.0), row1: axis(0.0, 1.0, 0.0), row2: axis(0.0, 0.0, 1.0) },
        matched_catalog_ids: vec![22, 99, 11, 33, 22],
        matched_centroid_indices: vec![1, 0, 2, 7],
    }
}

fn projections() -> Projections {
    Projections {
        target_sky_coords: vec![sky(1.5, 2.5)],
        target_pixels: vec![Some(pixel(1.0, 1.0)), None],
        catalog_stars: vec![star(4.0, 5.0, -1.5)],
        catalog_pixels: vec![Some(pixel(2.0, 2.0))],
    }
}

fn build(e: &SolveExtension) -> PlateSolution {
    let s = solver(None);
    let mut p = params();
    p.distortion = Some(double(0.5));
    let inputs = prepare(&s, e, &p);
    s.build_proto(&inputs, &pose(), projections(), 31_200_000)
}

#[test]
fn a_plate_solution_says_what_the_solver_found() {
    let plate = build(&extension());
    assert_eq!(plate.image_sky_coord, Some(sky(10.0, -20.0)));
    assert_eq!(float(plate.roll), 0.5f64.to_degrees() + 180.0);
    assert_eq!(float(plate.fov), 0.211f32.to_degrees() as f64);
    assert_eq!(plate.distortion, Some(double(0.5)));
    assert_eq!(float(plate.rmse), (0.00001f32 as f64).to_degrees() * 3600.0);
    assert_eq!(float(plate.p90_error), (0.00002f32 as f64).to_degrees() * 3600.0);
    assert_eq!(float(plate.max_error), (0.00003f32 as f64).to_degrees() * 3600.0);
    assert_eq!(plate.num_matches, 17);
    assert_eq!(float(plate.prob), 1e-12);
    assert_eq!(plate.epoch_equinox, 2000);
    assert_eq!(plate.epoch_proper_motion, single(2025.5));
    assert_eq!(plate.solve_time, Some(ProtoDuration { seconds: 0, nanos: 31_200_000 }));
    assert_eq!(plate.target_sky_coord, vec![sky(1.5, 2.5)]);
    assert_eq!(plate.target_pixel, vec![pixel(51.0, 26.5), pixel(-1.0, -1.0)]);
    assert!(plate.rotation_matrix.is_empty());
    assert!(plate.matched_stars.is_empty());
    assert!(plate.catalog_stars.is_empty());
    assert!(plate.pattern_centroids.is_empty());
    assert!(!plate.solution_from_imu);
}

#[test]
fn a_plate_solution_adds_what_was_asked_for() {
    let mut e = extension();
    e.return_rotation_matrix = true;
    e.return_matches = true;
    e.return_catalog = true;
    let plate = build(&e);
    let matrix: Vec<f64> = plate.rotation_matrix.iter().map(|x| float(*x)).collect();
    assert_eq!(matrix, vec![0.0, 0.0, 1.0, -1.0, 0.0, 0.0, 0.0, -1.0, 0.0]);
    // An unknown star, and a centroid that is not there, are passed over; the last id
    // has no centroid to go with it.
    assert_eq!(plate.matched_stars.len(), 2);
    assert_eq!(plate.matched_stars[0].sky_coord, star_sky(4.0, 5.0));
    assert_eq!(plate.matched_stars[0].mag, single(-1.5));
    assert_eq!(plate.matched_stars[0].pixel, pixel(0.0, 0.0));
    assert_eq!(plate.matched_stars[1].sky_coord, star_sky(9.0, 9.0));
    assert_eq!(plate.catalog_stars.len(), 1);
    assert_eq!(plate.catalog_stars[0].pixel, pixel(52.0, 27.5));
}

#[test]
fn a_huge_count_of_matches_wraps() {
    let s = solver(None);
    let inputs = prepare(&s, &extension(), &params());
    for n in [0u32, 5, 0x7fff_ffff, 0x8000_0000, u32::MAX] {
        let mut p = pose();
        p.num_matches = n;
        assert_eq!(s.build_proto(&inputs, &p, projections(), 0).num_matches, n as i32);
    }
}

#[test]
fn databases_are_made_for_sensible_ranges() {
    for (min, max, ok) in [
        (10.0, 30.0, true),
        (12.0, 12.0, true),
        (1e-40, 179.99, true),
        (0.0, 30.0, false),
        (-1.0, 30.0, false),
        (30.0, 10.0, false),
        (10.0, 180.0, false),
        (f32::NAN, 30.0, false),
        (10.0, f32::NAN, false),
        (10.0, f32::INFINITY, false),
    ] {
        assert_eq!(is_valid_fov_range(single(min), single(max)), ok, "{min} {max}");
    }
}

#[test]
fn errors_have_a_code_and_a_message() {
    for (error, code, message) in [
        (SolverError::Canceled, ErrorCode::DeadlineExceeded, "plate solve canceled"),
        (
            SolverError::TimedOutBetweenSeeds { seeds: 3 },
            ErrorCode::DeadlineExceeded,
            "plate solve timed out after 3 FOV seeds",
        ),
        (
            SolverError::TooFew { centroids: 0 },
            ErrorCode::InvalidArgument,
            "too few centroids (0) to form a pattern",
        ),
        (
            SolverError::TimedOut { elapsed: 1_500_000_000 },
            ErrorCode::DeadlineExceeded,
            "plate solve timed out after 1.5s",
        ),
        (
            SolverError::NoMatch { centroids: 120, seeds: 8 },
            ErrorCode::NotFound,
            "no match for 120 centroids over 8 FOV seed(s)",
        ),
        (
            SolverError::NotGenerated { catalog: "a\"b".to_string(), cause: "Io".to_string() },
            ErrorCode::FailedPrecondition,
            "generating solver database from \"a\\\"b\": Io",
        ),
        (
            SolverError::NotLoaded { path: "./db.bin".to_string(), cause: "Io".to_string() },
            ErrorCode::FailedPrecondition,
            "loading tetra3rs database \"./db.bin\": Io. Build one with:\n  cargo run --release --bin make-tetra3rs-db -- --gaia_catalog <gaia_merged.bin> --out ./db.bin",
        ),
        (
            SolverError::Panicked { cause: "why".to_string() },
            ErrorCode::Internal,
            "solve task panicked: why",
        ),
    ] {
        assert_eq!(error.code(), code);
        assert_eq!(error.message(), message);
    }
}
