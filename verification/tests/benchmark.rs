//! Scoring a solver against a corpus.

use cedar_server::benchmark::{circular_diff_deg, expected_roll_deg, production_binning, subsample, Outcome};
use cedar_server::number::Double;
use cedar_server::pose::roll_deg;

fn double(x: f64) -> Double {
    Double { bits: x.to_bits() }
}

fn float(x: Double) -> f64 {
    f64::from_bits(x.bits)
}

fn outcome(center_arcmin: f64, roll_err_deg: f64, fov_err_frac: f64) -> Outcome {
    Outcome {
        name: "t".to_string(),
        solved: true,
        center_arcmin: double(center_arcmin),
        roll_err_deg: double(roll_err_deg),
        fov_err_frac: double(fov_err_frac),
        solve_time_ms: double(4.0),
        num_matches: 30,
        num_centroids: 50,
    }
}

#[test]
fn on_truth_passes() {
    assert!(outcome(0.04, 0.0, 0.004).passed());
}

#[test]
fn center_just_outside_tolerance_fails() {
    assert!(!outcome(6.0, 0.0, 0.004).passed());
}

#[test]
fn fov_outside_tolerance_fails() {
    assert!(!outcome(0.04, 0.0, 0.03).passed());
}

#[test]
fn unsolved_never_passes() {
    let mut o = outcome(0.0, 0.0, 0.0);
    o.solved = false;
    assert!(!o.passed());
}

#[test]
fn roll_wraps_across_zero() {
    // rotation 179.5 -> expected roll 359.5; solver says 0.2. The true error
    // is 0.7 deg, not 359.3.
    let expected = expected_roll_deg(double(179.5));
    assert!((float(expected) - 359.5).abs() < 1e-9);
    let err = float(circular_diff_deg(double(0.2), expected));
    assert!((err - 0.7).abs() < 1e-9, "err = {err}");
    assert!(outcome(0.04, err, 0.004).passed());
}

#[test]
fn roll_convention_matches_pinned_formula() {
    assert_eq!(float(expected_roll_deg(double(0.0))), 180.0);
    assert_eq!(float(expected_roll_deg(double(-180.0))), 0.0);
    assert_eq!(float(expected_roll_deg(double(30.0))), 210.0);
    assert_eq!(float(expected_roll_deg(double(-45.0))), 135.0);
}

#[test]
fn roll_error_beyond_tolerance_fails() {
    assert!(!outcome(0.04, 1.5, 0.004).passed());
}

/// The corpus resolution: 2.07 megapixels are binned by two.
#[test]
fn corpus_resolution_bins_by_two() {
    assert_eq!(production_binning(1920, 1080), (2, false));
}

#[test]
fn binning_buckets_follow_compute_binning() {
    assert_eq!(production_binning(640, 480), (1, false)); // 0.31 mpix
    assert_eq!(production_binning(1024, 768), (2, false)); // 0.79 mpix
    assert_eq!(production_binning(2028, 1520), (4, false)); // 3.08 mpix
    assert_eq!(production_binning(4056, 3040), (4, true)); // 12.3 mpix
}

#[test]
fn subsample_takes_every_nth() {
    let v: Vec<i32> = (0..10).collect();
    assert_eq!(subsample(&v, 3), vec![0, 3, 6, 9]);
    assert_eq!(subsample(&v, 1), v);
    assert_eq!(subsample(&v, 0), v, "stride 0 must not divide by zero");
}

#[test]
fn subsample_of_few_items() {
    let none: Vec<i32> = Vec::new();
    assert_eq!(subsample(&none, 3), none);
    assert_eq!(subsample(&[7, 8], usize::MAX), vec![7]);
    assert_eq!(subsample(&[1, 2, 3, 4, 5, 6], 2), vec![1, 3, 5]);
}

/// The buckets end where megapixels say they do.
#[test]
fn binning_buckets_end_on_whole_megapixels() {
    for (w, h) in [(750, 1000), (750, 1001), (751, 999), (3000, 1000), (3001, 1000), (4000, 3000), (4001, 3000), (1, 1), (0, 5), (65535, 65535)] {
        let mpix = (w as u32 * h as u32) as f64 / 1_000_000.0;
        let want = if mpix <= 0.75 {
            (1, false)
        } else if mpix <= 3.0 {
            (2, false)
        } else if mpix <= 12.0 {
            (4, false)
        } else {
            (4, true)
        };
        assert_eq!(production_binning(w, h), want, "{w}x{h}");
    }
}

#[test]
fn tolerances_are_exclusive_and_nan_fails() {
    assert!(!outcome(5.0, 0.0, 0.0).passed());
    assert!(outcome(4.999, -0.999, 0.0199).passed());
    assert!(!outcome(0.0, 1.0, 0.0).passed());
    assert!(!outcome(0.0, -1.0, 0.0).passed());
    assert!(!outcome(0.0, 0.0, 0.02).passed());
    assert!(!outcome(f64::NAN, 0.0, 0.0).passed());
    assert!(!outcome(0.0, f64::NAN, 0.0).passed());
    assert!(!outcome(0.0, 0.0, f64::NAN).passed());
}

/// The short way round is at most half a turn, and agrees with the plain formula.
#[test]
fn circular_differences_are_at_most_half_a_turn() {
    for a in [0.0, 0.2, 90.0, 179.9, 180.0, 359.5, 360.0, 720.5, -1e-15] {
        for b in [0.0, 1.0, 179.5, 270.0, 359.5, -90.0] {
            let got = float(circular_diff_deg(double(a), double(b)));
            assert_eq!(got, (a - b + 180.0f64).rem_euclid(360.0) - 180.0, "{a} {b}");
            assert!((-180.0..=180.0).contains(&got));
        }
    }
}

/// A solve reports the roll that is expected of a field.
#[test]
fn the_expected_roll_is_the_roll() {
    for rotation in [-179.5f64, -90.0, 0.0, 33.25, 120.0, 179.0] {
        let expected = float(expected_roll_deg(double(rotation)));
        let got = float(roll_deg(double(rotation.to_radians()), false));
        assert!((got - expected).abs() < 1e-12, "{rotation}");
    }
}
