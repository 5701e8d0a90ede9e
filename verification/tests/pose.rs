//! Roll, rotation matrix, attitude hint, fields of view.

use cedar_server::angle::rad_to_arcsec;
use cedar_server::geometry::EquatorialCoordinates;
use cedar_server::number::{Double, Single};
use cedar_server::pose::{
    attitude_angles, camera_axes, normalize_deg, roll_deg, tetra3_rotation_matrix, theta_rad, Matrix, SinCos, Vector,
};
use cedar_server::seeds::{fov_seeds, MAX_BLIND_SEEDS, SEED_COVERS_ABOVE, SEED_COVERS_BELOW};
use numeris::Matrix3;
use tetra3::{Quaternion, Vector3};

fn double(x: f64) -> Double {
    Double { bits: x.to_bits() }
}

fn float(x: Double) -> f64 {
    f64::from_bits(x.bits)
}

fn vector(v: [f64; 3]) -> Vector {
    Vector { x: double(v[0]), y: double(v[1]), z: double(v[2]) }
}

fn floats(v: Vector) -> [f64; 3] {
    [float(v.x), float(v.y), float(v.z)]
}

fn sin_cos(rad: f64) -> SinCos {
    SinCos { sin: double(rad.sin()), cos: double(rad.cos()) }
}

fn roll(theta_rad: f64, parity_flip: bool) -> f64 {
    float(roll_deg(double(theta_rad), parity_flip))
}

fn normalize(deg: f64) -> f64 {
    float(normalize_deg(double(deg)))
}

/// The matrix of an attitude in the callers' axes.
fn rotation_matrix(q: Quaternion) -> [f64; 9] {
    let m = q.to_rotation_matrix();
    let camera = Matrix {
        row0: vector(row(&m, 0)),
        row1: vector(row(&m, 1)),
        row2: vector(row(&m, 2)),
    };
    let entries: Vec<f64> = tetra3_rotation_matrix(camera).to_vec().iter().map(|x| float(*x)).collect();
    std::array::from_fn(|i| entries[i])
}

fn attitude_to_quaternion(ra_deg: f64, dec_deg: f64, roll_deg: f64) -> Quaternion {
    let angles = attitude_angles(EquatorialCoordinates {
        north_roll_angle: double(roll_deg),
        ra: double(ra_deg),
        dec: double(dec_deg),
    });
    let m = camera_axes(sin_cos(float(angles.ra)), sin_cos(float(angles.dec)), sin_cos(float(angles.theta)));
    let rows = [floats(m.row0), floats(m.row1), floats(m.row2)];
    Quaternion::from_rotation_matrix(&Matrix3::<f32>::new(rows.map(|r| r.map(|x| x as f32))))
}

/// The convention is `roll == (180 + rotation) % 360`.
#[test]
fn roll_matches_the_pinned_convention() {
    for rotation_deg in [-180.0f64, -45.0, 0.0, 30.0, 153.0, 179.5] {
        let expected = (180.0f64 + rotation_deg).rem_euclid(360.0);
        let got = roll(rotation_deg.to_radians(), false);
        assert!((got - expected).abs() < 1e-9, "rotation {rotation_deg}: got {got}, want {expected}");
    }
}

/// A mirrored image negates the roll.
#[test]
fn roll_negates_under_parity_flip() {
    for rotation_deg in [-45.0f64, 0.0, 37.0, 143.0] {
        let theta = rotation_deg.to_radians();
        let want = (-(180.0 + rotation_deg)).rem_euclid(360.0);
        let got = roll(theta, true);
        assert!(
            (got - want).abs() < 1e-9 || (got - want).abs() > 359.999_999_999,
            "rotation {rotation_deg}: got {got}, want {want}"
        );
    }
}

#[test]
fn roll_never_returns_360() {
    assert_eq!(normalize(-1e-15), 0.0);
    assert_eq!(normalize(360.0), 0.0);
    assert_eq!(roll((-180.0f64).to_radians(), false), 0.0);
}

#[test]
fn rolls_stay_below_a_whole_turn() {
    for theta in [-1e300, -7.0, -std::f64::consts::PI, -1e-17, 0.0, 1e-17, 3.0, std::f64::consts::PI, 1e10] {
        for flip in [false, true] {
            assert!((0.0..360.0).contains(&roll(theta, flip)), "{theta} {flip}");
        }
    }
}

#[test]
fn normalized_angles_agree_with_the_plain_formula() {
    for deg in [0.0, -0.0, 1.0, -1.0, 359.999, -359.999, 720.25, -720.25, 1e300, -1e300, 5e-324, -5e-324, 539.9] {
        let r = f64::rem_euclid(deg, 360.0);
        let want = if r >= 360.0 { 0.0 } else { r };
        assert_eq!(normalize(deg), want, "{deg}");
        assert!((0.0..360.0).contains(&normalize(deg)));
    }
    assert!(normalize(f64::NAN).is_nan());
    assert!(normalize(f64::INFINITY).is_nan());
}

#[test]
fn normalizing_takes_whole_turns_and_does_so_once() {
    for deg in [0.0, -0.0, 5e-324, 1.25, 359.99999999999994, 180.0, 1e-300] {
        assert_eq!(normalize(deg).to_bits(), f64::to_bits(deg), "{deg}");
    }
    let half_gap = (2.0f64).powi(-45);
    for deg in [-5e-324, -1e-14, -2e-14, -1e-13, -0.1, -359.9, -360.0, -1234.5, 360.0, 725.25, 1e9, -1e9] {
        let n = normalize(deg);
        assert_eq!(normalize(n).to_bits(), n.to_bits(), "{deg}");
        let turns = ((n - deg) / 360.0).round();
        assert!((n - turns * 360.0 - deg).abs() <= half_gap, "{deg}");
    }
    assert_eq!(normalize(725.25), 5.25);
    assert_eq!(normalize(-1234.5), 205.5);
}

#[test]
fn rolls_of_mirror_images_make_a_turn() {
    let half_gap = (2.0f64).powi(-45);
    for theta in [0.0, -0.0, 0.3, -0.3, 1.0, 2.5, 3.1, 3.141592653589793, -3.141592653589793, 5.0, -6.2, 100.0, 1e6] {
        let both = roll(theta, false) + roll(theta, true);
        assert!(both.abs() <= half_gap || (both - 360.0).abs() <= half_gap, "{theta}: {both}");
    }
    assert_eq!(roll(0.0, false) + roll(0.0, true), 360.0);
    assert_eq!(roll(-std::f64::consts::PI, false) + roll(-std::f64::consts::PI, true), 0.0);
}

#[test]
fn theta_undoes_roll() {
    for theta in [-180.0f64, -90.5, -0.25, 0.0, 12.75, 179.5] {
        let back = float(theta_rad(roll_deg(double(f64::to_radians(theta)), false)));
        assert!((back - theta.to_radians()).abs() < 1e-12, "{theta}");
        assert_eq!(float(theta_rad(double(theta + 180.0))), theta.to_radians());
    }
}

#[test]
fn roll_undoes_theta() {
    for deg in [0.0, 1e-17, 1e-14, 0.1, 37.3, 90.0, 179.99999999999997, 180.0, 217.1, 300.0, 359.9, 359.99999999999994] {
        let back = roll(float(theta_rad(double(deg))), false);
        let off = (back - deg).abs();
        assert!(off < 1e-12 || (off - 360.0).abs() < 1e-12, "{deg}: {back}");
    }
}

fn mat_vec(m: &[f64; 9], v: [f64; 3]) -> [f64; 3] {
    std::array::from_fn(|r| (0..3).map(|c| m[r * 3 + c] * v[c]).sum())
}

fn det(m: &[f64; 9]) -> f64 {
    m[0] * (m[4] * m[8] - m[5] * m[7]) - m[1] * (m[3] * m[8] - m[5] * m[6])
        + m[2] * (m[3] * m[7] - m[4] * m[6])
}

/// Whatever the attitude, the matrix must be a proper rotation, or the sky would be
/// mirrored. The tolerance is that of single precision.
#[test]
fn rotation_matrix_is_a_proper_rotation() {
    for q in [
        Quaternion::identity(),
        Quaternion::rotx(0.4),
        Quaternion::roty(-1.1),
        Quaternion::rotz(2.7),
        Quaternion::from_axis_angle(Vector3::from_array([0.3, -0.5, 0.81]).normalize(), 1.3),
    ] {
        let m = rotation_matrix(q);
        assert!((det(&m) - 1.0).abs() < 1e-6, "det {} != 1", det(&m));
        // Rows orthonormal.
        for r in 0..3 {
            let row: [f64; 3] = std::array::from_fn(|c| m[r * 3 + c]);
            let norm: f64 = row.iter().map(|x| x * x).sum::<f64>().sqrt();
            assert!((norm - 1.0).abs() < 1e-6, "row {r} norm {norm}");
        }
    }
}

/// The callers' frame is (boresight, left, up): the camera's boresight must map to
/// [1, 0, 0], image right to [0, -1, 0], and image down to [0, 0, -1].
#[test]
fn rotation_matrix_maps_camera_axes_to_tetra3_axes() {
    let q = Quaternion::from_axis_angle(Vector3::from_array([0.3, -0.5, 0.81]).normalize(), 1.3);
    let m = rotation_matrix(q);
    let inv = q.inverse();

    // ICRS directions of the camera's own axes.
    let axis_icrs = |v: [f32; 3]| {
        let r = inv * Vector3::from_array(v);
        [r[0] as f64, r[1] as f64, r[2] as f64]
    };

    let close = |a: [f64; 3], b: [f64; 3]| a.iter().zip(b.iter()).all(|(x, y)| (x - y).abs() < 1e-6);

    let boresight = mat_vec(&m, axis_icrs([0.0, 0.0, 1.0]));
    assert!(close(boresight, [1.0, 0.0, 0.0]), "boresight -> {boresight:?}");

    let right = mat_vec(&m, axis_icrs([1.0, 0.0, 0.0]));
    assert!(close(right, [0.0, -1.0, 0.0]), "image right -> {right:?}");

    let down = mat_vec(&m, axis_icrs([0.0, 1.0, 0.0]));
    assert!(close(down, [0.0, 0.0, -1.0]), "image down -> {down:?}");
}

#[test]
fn rotation_matrix_permutes_rows_exactly() {
    let camera = Matrix {
        row0: vector([1.0, 2.0, 3.0]),
        row1: vector([4.0, -5.0, 6.0]),
        row2: vector([7.0, 8.0, 0.0]),
    };
    let entries: Vec<f64> = tetra3_rotation_matrix(camera).to_vec().iter().map(|x| float(*x)).collect();
    assert_eq!(entries, vec![7.0, 8.0, 0.0, -1.0, -2.0, -3.0, -4.0, 5.0, -6.0]);
}

fn row(m: &Matrix3<f32>, r: usize) -> [f64; 3] {
    [m[(r, 0)] as f64, m[(r, 1)] as f64, m[(r, 2)] as f64]
}

fn dot(a: [f64; 3], b: [f64; 3]) -> f64 {
    a[0] * b[0] + a[1] * b[1] + a[2] * b[2]
}

/// The attitude must point its boresight at (ra, dec).
#[test]
fn attitude_hint_boresight_matches_radec() {
    for (ra, dec) in [(0.0f64, 0.0f64), (123.4, -25.0), (359.9, 89.0), (221.0, -25.0), (270.0, -89.5)] {
        let q = attitude_to_quaternion(ra, dec, 137.0);
        let m = q.to_rotation_matrix();
        let (rr, dr) = (ra.to_radians(), dec.to_radians());
        let want = [dr.cos() * rr.cos(), dr.cos() * rr.sin(), dr.sin()];
        let boresight = row(&m, 2);
        let cos_sep = dot(boresight, want).clamp(-1.0, 1.0);
        assert!(
            cos_sep > 0.999_999,
            "ra {ra} dec {dec}: boresight off by {:.4}'",
            cos_sep.acos().to_degrees() * 60.0
        );
    }
}

/// The roll recovered from the attitude is the roll it was made of.
#[test]
fn attitude_hint_roll_round_trips() {
    for &(ra, dec) in &[(50.0f64, 10.0f64), (221.0, -25.0), (200.0, 60.0)] {
        for roll in [0.0, 37.0, 179.9, 200.0, 350.0] {
            let q = attitude_to_quaternion(ra, dec, roll);
            let m = q.to_rotation_matrix();
            let (rr, dr) = (ra.to_radians(), dec.to_radians());
            let east = [-rr.sin(), rr.cos(), 0.0];
            let north = [-dr.sin() * rr.cos(), -dr.sin() * rr.sin(), dr.cos()];
            let x = row(&m, 0);
            let theta = dot(x, north).atan2(dot(x, east));
            let got = normalize(theta.to_degrees() + 180.0);
            let want = normalize(roll);
            let err = (got - want).abs().min(360.0 - (got - want).abs());
            assert!(err < 1e-3, "ra {ra} dec {dec} roll {roll}: got {got}");
        }
    }
}

/// Whatever the inputs, the hint must be a proper rotation.
#[test]
fn attitude_hint_is_a_proper_rotation() {
    for &(ra, dec, roll) in &[(0.0, 0.0, 0.0), (123.0, 45.0, 210.0), (300.0, -60.0, 95.0), (359.0, 89.0, 15.0)] {
        let m = attitude_to_quaternion(ra, dec, roll).to_rotation_matrix();
        let rows = [row(&m, 0), row(&m, 1), row(&m, 2)];
        for r in 0..3 {
            assert!((dot(rows[r], rows[r]) - 1.0).abs() < 1e-5, "row {r} not unit");
            for c in (r + 1)..3 {
                assert!(dot(rows[r], rows[c]).abs() < 1e-5, "rows {r},{c} not orthogonal");
            }
        }
        // Right-handed: row0 x row1 == row2.
        let x_cross_y = floats(vector(rows[0]).cross(vector(rows[1])));
        assert!(dot(x_cross_y, rows[2]) > 0.999_99, "not right-handed");
    }
}

/// In double precision the axes are a rotation to a hundred roundings.
#[test]
fn camera_axes_are_a_rotation_but_for_rounding() {
    let e = 100.0 * f64::EPSILON;
    for (ra, dec, theta) in [(0.0f64, 0.0f64, 0.0f64), (1.0, 0.5, 2.0), (4.2, -1.3, -2.9), (6.28, 1.5707, 0.01)] {
        let m = camera_axes(sin_cos(ra), sin_cos(dec), sin_cos(theta));
        let rows = [floats(m.row0), floats(m.row1), floats(m.row2)];
        for r in 0..3 {
            for c in 0..3 {
                let want = if r == c { 1.0 } else { 0.0 };
                assert!((dot(rows[r], rows[c]) - want).abs() < e, "rows {r},{c}");
            }
        }
        let entries: [f64; 9] = std::array::from_fn(|i| rows[i / 3][i % 3]);
        assert!((det(&entries) - 1.0).abs() < e);
        let east = [-ra.sin(), ra.cos(), 0.0];
        let north = [-dec.sin() * ra.cos(), -dec.sin() * ra.sin(), dec.cos()];
        assert!((dot(rows[0], east) - theta.cos()).abs() < e);
        assert!((dot(rows[0], north) - theta.sin()).abs() < e);
    }
}

/// The axes agree with the plain formulas, to the last bit.
#[test]
fn camera_axes_agree_with_floats() {
    for (ra, dec, theta) in [(0.3f64, -0.4f64, 1.1f64), (2.0, 1.5, -3.0), (6.2, -1.57, 0.0)] {
        let m = camera_axes(sin_cos(ra), sin_cos(dec), sin_cos(theta));
        let b = [dec.cos() * ra.cos(), dec.cos() * ra.sin(), dec.sin()];
        let east = [-ra.sin(), ra.cos(), 0.0];
        let north = [-dec.sin() * ra.cos(), -dec.sin() * ra.sin(), dec.cos()];
        let x: [f64; 3] = std::array::from_fn(|i| theta.cos() * east[i] + theta.sin() * north[i]);
        let y = [b[1] * x[2] - b[2] * x[1], b[2] * x[0] - b[0] * x[2], b[0] * x[1] - b[1] * x[0]];
        assert_eq!(floats(m.row0), x);
        assert_eq!(floats(m.row1), y);
        assert_eq!(floats(m.row2), b);
    }
}

fn seeds(fov: Option<f64>, min: f64, max: f64) -> Vec<f64> {
    fov_seeds(fov.map(double), double(min), double(max)).iter().map(|s| float(*s)).collect()
}

#[test]
fn a_known_fov_yields_exactly_one_seed() {
    assert_eq!(seeds(Some(12.66), 10.0, 30.0), vec![12.66]);
}

/// Every FOV in [min, max] falls inside some seed's window.
#[test]
fn blind_seeds_tile_the_database_range() {
    let below = f64::from_bits(SEED_COVERS_BELOW);
    let above = f64::from_bits(SEED_COVERS_ABOVE);
    assert_eq!((below, above), (0.75, 1.75));
    for (min, max) in [(10.0, 30.0), (5.0, 60.0), (12.0, 12.0), (1.0, 40.0)] {
        let seeds = seeds(None, min, max);
        assert!(!seeds.is_empty(), "no seeds for {min}..{max}");
        assert!(seeds.len() <= MAX_BLIND_SEEDS);

        let covered = |fov: f64| seeds.iter().any(|s| fov >= s * below - 1e-9 && fov <= s * above + 1e-9);
        for i in 0..=100 {
            let fov = min + (max - min) * i as f64 / 100.0;
            assert!(covered(fov), "{fov} uncovered in {min}..{max} by {seeds:?}");
        }
    }
}

#[test]
fn a_blind_ladder_spans_a_factor_of_870() {
    let (below, above) = (f64::from_bits(SEED_COVERS_BELOW), f64::from_bits(SEED_COVERS_ABOVE));
    for min in [0.1, 0.2, 1e-3] {
        let max = min * 870.0;
        let ladder = seeds(None, min, max);
        assert_eq!(ladder.len(), MAX_BLIND_SEEDS);
        assert!(ladder[7] * above >= max);
        for i in 0..=1000 {
            let fov = min * (870.0f64).powf(i as f64 / 1000.0) * (1.0 - 1e-12);
            let held = ladder.iter().any(|s| s * below <= fov * (1.0 + 1e-11) && fov <= s * above * (1.0 + 1e-15));
            assert!(held, "{fov}");
        }
        // Beyond 878 there is a gap at the end.
        let short = seeds(None, min, min * 880.0);
        assert!(short[7] * above < min * 880.0);
    }
}

#[test]
fn blind_ladder_is_short_for_the_shipped_range() {
    assert!(seeds(None, 10.0, 30.0).len() <= 2);
}

#[test]
fn blind_seeds_agree_with_the_plain_formula() {
    for (min, max) in [(10.0, 30.0), (5.0, 60.0), (1e-3, 179.0), (7.3, 9.1), (f64::NAN, 10.0), (0.0, 1.0), (10.0, f64::NAN)] {
        let mut want = Vec::new();
        let mut lo = min;
        while want.len() < 8 {
            let seed = lo / 0.75;
            want.push(seed);
            if seed * 1.75 >= max {
                break;
            }
            lo = seed * 1.75;
        }
        let got = seeds(None, min, max);
        assert_eq!(got.len(), want.len());
        for (g, w) in got.iter().zip(want.iter()) {
            assert!(g == w || (g.is_nan() && w.is_nan()));
        }
    }
}

#[test]
fn residuals_convert_to_arcseconds() {
    // 1 arcsec in radians.
    let one_arcsec = (1.0f64 / 3600.0).to_radians() as f32;
    let arcsec = |rad: f32| float(rad_to_arcsec(Single { bits: rad.to_bits() }));
    assert!((arcsec(one_arcsec) - 1.0).abs() < 1e-4);
    for rad in [0.0f32, 1e-6, 4.8e-6, 0.1, -2.5, f32::MAX] {
        assert_eq!(arcsec(rad), (rad as f64).to_degrees() * 3600.0);
    }
    assert!(arcsec(f32::NAN).is_nan());
}
