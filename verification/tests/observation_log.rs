//! The observation log.

use std::collections::HashMap;
use std::time::{Duration, Instant};

use cedar_server::clock::{fits_offset, iso_at, WallTime};
use cedar_server::duration::{nanos_from_proto, proto_from_nanos, ProtoDuration};
use cedar_server::geometry::CelestialCoord;
use cedar_server::json::{write_object, Field, JsonPiece, Value};
use cedar_server::number::{Double, Single};
use cedar_server::observation_log::{
    goto_record, parse_config, should_write, solve_record, GotoRecord, ObsLogConfig, ObservationLog, SolveRecord,
    SolvedFrame, DEFAULT_PATH, ENABLED_VARIABLE, INTERVAL_VARIABLE, PATH_VARIABLE,
};
use cedar_server::plate::PlateSolution;

fn double(x: f64) -> Double {
    Double { bits: x.to_bits() }
}

fn some(x: f64) -> Option<Double> {
    Some(double(x))
}

/// A line as it is written to the file.
fn print(line: Vec<JsonPiece>) -> String {
    line.iter()
        .map(|piece| match piece {
            JsonPiece::Text(s) => s.clone(),
            JsonPiece::Number(x) => serde_json::to_string(&f64::from_bits(x.bits)).unwrap(),
        })
        .collect()
}

/// The configuration of an environment with these variables.
fn config(pairs: &[(&str, &str)]) -> ObsLogConfig {
    let map: HashMap<String, String> = pairs.iter().map(|(k, v)| (k.to_string(), v.to_string())).collect();
    let get = |k: &str| map.get(k).cloned();
    let interval = get(INTERVAL_VARIABLE).and_then(|s| s.parse::<f64>().ok()).map(double);
    parse_config(get(ENABLED_VARIABLE), get(PATH_VARIABLE), interval)
}

#[test]
fn config_defaults_when_unset() {
    let c = config(&[]);
    assert!(c.enabled);
    assert_eq!(c.path, DEFAULT_PATH);
    assert_eq!(c.throttle, Duration::from_secs_f64(1.0).as_nanos());
}

#[test]
fn config_disable_flag() {
    assert!(!config(&[("CEDAR_OBSLOG", "0")]).enabled);
    assert!(!config(&[("CEDAR_OBSLOG", "false")]).enabled);
    assert!(!config(&[("CEDAR_OBSLOG", "no")]).enabled);
    // Any other value keeps it enabled.
    assert!(config(&[("CEDAR_OBSLOG", "1")]).enabled);
}

#[test]
fn config_path_and_interval_overrides() {
    let c = config(&[
        ("CEDAR_OBSLOG_PATH", "/tmp/obs.jsonl"),
        ("CEDAR_OBSLOG_INTERVAL_SECS", "0.5"),
    ]);
    assert_eq!(c.path, "/tmp/obs.jsonl");
    assert_eq!(c.throttle, Duration::from_secs_f64(0.5).as_nanos());
}

#[test]
fn config_ignores_what_it_cannot_use() {
    assert_eq!(config(&[("CEDAR_OBSLOG_PATH", "")]).path, DEFAULT_PATH);
    for bad in ["-1", "nan", "-inf", "fast", "-1e-300", "inf", "1e20", "18446744073709551616"] {
        assert_eq!(config(&[("CEDAR_OBSLOG_INTERVAL_SECS", bad)]).throttle, 1_000_000_000, "{bad}");
    }
    let long = "18446744073709549568";
    assert_eq!(config(&[("CEDAR_OBSLOG_INTERVAL_SECS", long)]).throttle, 18_446_744_073_709_549_568_000_000_000);
    assert_eq!(config(&[("CEDAR_OBSLOG_INTERVAL_SECS", "0")]).throttle, 0);
    assert_eq!(config(&[("CEDAR_OBSLOG_INTERVAL_SECS", "-0")]).throttle, 0);
    assert_eq!(config(&[("CEDAR_OBSLOG_INTERVAL_SECS", "0.1")]).throttle, 100_000_000);
    for on in ["", "False", "NO", "00", "off"] {
        assert!(config(&[("CEDAR_OBSLOG", on)]).enabled, "{on}");
    }
}

#[test]
fn throttle_logic() {
    let start = Instant::now();
    let at = |t: Instant| t.duration_since(start).as_nanos();
    let earlier = start + Duration::from_secs(1);
    let now = earlier + Duration::from_secs(2);
    let throttle = Duration::from_secs(1).as_nanos();
    // No previous write: always allowed.
    assert!(should_write(None, at(now), throttle));
    // Just wrote: not yet.
    assert!(!should_write(Some(at(now)), at(now), throttle));
    // Enough time elapsed.
    assert!(should_write(Some(at(earlier)), at(now), throttle));
    // A zero throttle always allows.
    assert!(should_write(Some(at(now)), at(now), Duration::ZERO.as_nanos()));
}

#[test]
fn throttle_on_its_edge_and_on_a_clock_that_went_back() {
    assert!(should_write(Some(5), 15, 10));
    assert!(!should_write(Some(6), 15, 10));
    assert!(!should_write(Some(15), 5, 10));
    assert!(should_write(Some(15), 5, 0));
}

#[test]
fn solve_record_serializes_solved() {
    let rec = SolveRecord {
        kind: "solve",
        time: "2026-07-13T21:04:11-0700".to_string(),
        solution_id: 842,
        frame_id: 842,
        solved: true,
        ra_deg: some(83.822),
        dec_deg: some(-5.391),
        roll_deg: some(112.4),
        fov_deg: some(10.2),
        rmse_arcsec: some(1.8),
        num_matches: Some(22),
        solve_ms: some(31.2),
        pipeline_ms: some(58.0),
    };
    let json = print(rec.to_line());
    assert!(json.starts_with(r#"{"type":"solve","time":"2026-07-13T21:04:11-0700""#));
    assert!(json.contains(r#""solved":true"#));
    assert!(json.contains(r#""ra_deg":83.822"#));
    assert!(json.contains(r#""num_matches":22"#));
    assert_eq!(
        json,
        r#"{"type":"solve","time":"2026-07-13T21:04:11-0700","solution_id":842,"frame_id":842,"solved":true,"ra_deg":83.822,"dec_deg":-5.391,"roll_deg":112.4,"fov_deg":10.2,"rmse_arcsec":1.8,"num_matches":22,"solve_ms":31.2,"pipeline_ms":58.0}"#
    );
}

#[test]
fn solve_record_omits_none_sky_fields_when_unsolved() {
    let rec = SolveRecord {
        kind: "solve",
        time: "2026-07-13T21:04:11-0700".to_string(),
        solution_id: 1,
        frame_id: 1,
        solved: false,
        ra_deg: None,
        dec_deg: None,
        roll_deg: None,
        fov_deg: None,
        rmse_arcsec: None,
        num_matches: None,
        solve_ms: None,
        pipeline_ms: None,
    };
    let json = print(rec.to_line());
    assert!(json.contains(r#""solved":false"#));
    assert!(!json.contains("ra_deg"));
    assert!(!json.contains("num_matches"));
    assert!(!json.contains("solve_ms"));
}

#[test]
fn goto_record_serializes() {
    let rec = GotoRecord {
        kind: "goto",
        time: "2026-07-13T21:05:02-0700".to_string(),
        action: "initiate_slew".to_string(),
        source: None,
        ra_deg: some(101.287),
        dec_deg: some(-16.716),
    };
    let json = print(rec.to_line());
    assert!(json.contains(r#""type":"goto""#));
    assert!(json.contains(r#""action":"initiate_slew""#));
    assert!(json.contains(r#""ra_deg":101.287"#));

    // stop_slew carries no coordinates.
    let stop = GotoRecord {
        kind: "goto",
        time: "2026-07-13T21:06:00-0700".to_string(),
        action: "stop_slew".to_string(),
        source: None,
        ra_deg: None,
        dec_deg: None,
    };
    let json = print(stop.to_line());
    assert!(json.contains(r#""action":"stop_slew""#));
    assert!(!json.contains("ra_deg"));
}

fn plate() -> PlateSolution {
    PlateSolution {
        image_sky_coord: Some(CelestialCoord { ra: double(10.5), dec: double(-20.25) }),
        roll: double(112.5),
        fov: double(12.75),
        distortion: None,
        rmse: double(1.5),
        p90_error: double(2.0),
        max_error: double(3.0),
        num_matches: 22,
        prob: double(1e-9),
        epoch_equinox: 2000,
        epoch_proper_motion: Single { bits: 2025.0f32.to_bits() },
        solve_time: Some(ProtoDuration { seconds: 0, nanos: 31_200_000 }),
        target_sky_coord: vec![],
        target_pixel: vec![],
        rotation_matrix: vec![],
        matched_stars: vec![],
        catalog_stars: vec![],
        pattern_centroids: vec![],
        solution_from_imu: false,
    }
}

/// 2026-07-13T20:00:00Z
/// Seven hours west of UTC.
const OFFSET: i32 = -7 * 3600;

const READOUT: i128 = 1_783_972_800_000_000_000;

fn frame(plate_solution: Option<PlateSolution>) -> SolvedFrame {
    SolvedFrame {
        solution_id: 842,
        frame_id: 7,
        readout_time: WallTime { nanos: READOUT },
        solve_finish_time: Some(WallTime { nanos: READOUT + 58_000_000 }),
        plate_solution,
    }
}

#[test]
fn a_solved_frame_is_recorded_whole() {
    let record = solve_record(&frame(Some(plate())), "now".to_string());
    assert_eq!(
        print(record.to_line()),
        r#"{"type":"solve","time":"now","solution_id":842,"frame_id":7,"solved":true,"ra_deg":10.5,"dec_deg":-20.25,"roll_deg":112.5,"fov_deg":12.75,"rmse_arcsec":1.5,"num_matches":22,"solve_ms":31.2,"pipeline_ms":58.0}"#
    );
}

#[test]
fn an_unsolved_frame_is_recorded_without_a_position() {
    let record = solve_record(&frame(None), "now".to_string());
    assert_eq!(
        print(record.to_line()),
        r#"{"type":"solve","time":"now","solution_id":842,"frame_id":7,"solved":false,"pipeline_ms":58.0}"#
    );
}

#[test]
fn times_that_make_no_sense_are_left_out() {
    let mut p = plate();
    p.image_sky_coord = None;
    p.solve_time = Some(ProtoDuration { seconds: -1, nanos: 5 });
    let mut f = frame(Some(p));
    f.solve_finish_time = Some(WallTime { nanos: READOUT - 1 });
    let record = solve_record(&f, String::new());
    assert!(record.ra_deg.is_none() && record.dec_deg.is_none());
    assert!(record.roll_deg.is_some());
    assert!(record.solve_ms.is_none());
    assert!(record.pipeline_ms.is_none());
    f.solve_finish_time = None;
    assert!(solve_record(&f, String::new()).pipeline_ms.is_none());
}

#[test]
fn a_log_keeps_solve_records_apart() {
    let second = 1_000_000_000;
    let mut log = ObservationLog::from_env(None, None, None);
    assert!(log.enabled());
    assert_eq!(log.path(), DEFAULT_PATH);
    assert_eq!(log.throttle(), second);
    assert!(log.log_solve(&frame(Some(plate())), 10, OFFSET).is_some());
    assert!(log.log_solve(&frame(Some(plate())), 10 + second - 1, OFFSET).is_none());
    assert!(log.log_solve(&frame(None), 10 + second, OFFSET).is_some());
    assert!(log.log_solve(&frame(None), 11 + second, OFFSET).is_none());
    assert!(log.log_solve(&frame(None), 10 + 2 * second, OFFSET).is_some());
}

#[test]
fn interpolations_are_neither_recorded_nor_counted() {
    let mut log = ObservationLog::from_env(None, Some("x".to_string()), some(2.0));
    let mut p = plate();
    p.solution_from_imu = true;
    let interpolated = frame(Some(p));
    assert!(log.log_solve(&interpolated, 0, OFFSET).is_none());
    let record = log.log_solve(&frame(Some(plate())), 1, OFFSET).unwrap();
    assert_eq!(record.time, "2026-07-13T13:00:00-0700");
    assert_eq!(record.solution_id, 842);
    assert_eq!(record.frame_id, 7);
    assert!(log.log_solve(&interpolated, 5_000_000_000, OFFSET).is_none());
    assert!(log.log_solve(&frame(Some(plate())), 5_000_000_000, OFFSET).is_some());
}

#[test]
fn a_disabled_log_records_nothing() {
    let mut log = ObservationLog::disabled();
    assert!(!log.enabled());
    assert_eq!(log.path(), DEFAULT_PATH);
    assert!(log.log_solve(&frame(Some(plate())), 0, OFFSET).is_none());
    assert!(log.log_goto("stop_slew", None, None, WallTime { nanos: READOUT }, OFFSET).is_none());
    let off = ObservationLog::from_env(Some("no".to_string()), None, None);
    assert!(!off.enabled());
}

#[test]
fn slews_are_recorded_every_time() {
    let log = ObservationLog::from_env(None, None, some(1000.0));
    let target = CelestialCoord { ra: double(101.287), dec: double(-16.716) };
    let now = WallTime { nanos: READOUT };
    for _ in 0..3 {
        let initiate = log.log_goto("initiate_slew", Some(target), Some("grpc".to_string()), now, OFFSET).unwrap();
        assert_eq!(initiate.time, "2026-07-13T13:00:00-0700");
        let value: serde_json::Value = serde_json::from_str(&print(initiate.to_line())).unwrap();
        assert_eq!(value["type"], "goto");
        assert_eq!(value["action"], "initiate_slew");
        assert_eq!(value["source"], "grpc");
        assert_eq!(value["ra_deg"].as_f64().unwrap(), 101.287);
        assert_eq!(value["dec_deg"].as_f64().unwrap(), -16.716);
        assert!(value["time"].is_string());
        let stop = log.log_goto("stop_slew", None, Some("grpc".to_string()), now, OFFSET).unwrap();
        let value: serde_json::Value = serde_json::from_str(&print(stop.to_line())).unwrap();
        assert_eq!(value["action"], "stop_slew");
        assert!(value.get("ra_deg").is_none(), "stop_slew should omit ra_deg");
        assert!(value.get("dec_deg").is_none(), "stop_slew should omit dec_deg");
    }
}

#[test]
fn times_are_written_as_iso_8601() {
    let t = WallTime { nanos: READOUT + 999_999_999 };
    assert_eq!(iso_at(t, 0), "2026-07-13T20:00:00+0000");
    assert_eq!(iso_at(t, -7 * 3600), "2026-07-13T13:00:00-0700");
    assert_eq!(iso_at(t, 5 * 3600 + 1800), "2026-07-14T01:30:00+0530");
    assert_eq!(iso_at(WallTime { nanos: -1 }, 0), "1970-01-01T00:00:00+0000");
    assert_eq!(iso_at(WallTime { nanos: -1 }, -3600), "1969-12-31T23:00:00-0100");
    let end = WallTime { nanos: 8_210_266_876_799_999_999_999 };
    assert!(end.in_calendar());
    assert_eq!(iso_at(end, 0), "+262142-12-31T23:59:59+0000");
    assert!(iso_at(end, 86_399).len() > 10);
    assert!(!WallTime { nanos: end.nanos + 1 }.in_calendar());
    let limit: i128 = (1i128 << 63) * 1_000_000_000;
    for (nanos, ok) in [(limit - 1, true), (limit, false), (-limit, true), (-limit - 1, false)] {
        assert_eq!(WallTime { nanos }.is_on_clock(), ok);
        let mut f = frame(None);
        f.readout_time = WallTime { nanos };
        f.solve_finish_time = None;
        assert_eq!(f.has_valid_times(), ok);
        let mut f = frame(None);
        f.solve_finish_time = Some(WallTime { nanos });
        assert_eq!(f.has_valid_times(), ok);
    }
    assert!(WallTime { nanos: i128::MIN }.in_calendar());
}

#[test]
fn offsets_are_less_than_a_day() {
    for (offset, ok) in [(0, true), (86_399, true), (86_400, false), (-86_399, true), (-86_400, false), (i32::MIN, false)] {
        assert_eq!(fits_offset(offset), ok, "{offset}");
    }
    assert_eq!(WallTime { nanos: READOUT + 999_999_999 }.seconds() as i128, READOUT / 1_000_000_000);
    assert_eq!(WallTime { nanos: -1 }.seconds(), 0);
}

#[test]
fn text_is_escaped() {
    let fields = vec![
        Field { name: "plain", value: Value::Text("a b/é😀\u{7f}".to_string()) },
        Field { name: "quoted\"", value: Value::Text("\"\\\n\r\t\u{8}\u{c}\u{0}\u{1f}".to_string()) },
        Field { name: "least", value: Value::Integer(i32::MIN) },
        Field { name: "most", value: Value::Integer(i32::MAX) },
        Field { name: "none", value: Value::Integer(0) },
        Field { name: "no", value: Value::Boolean(false) },
        Field { name: "nan", value: Value::Number(double(f64::NAN)) },
    ];
    let line = print(write_object(&fields));
    assert_eq!(
        line,
        "{\"plain\":\"a b/é😀\u{7f}\",\"quoted\\\"\":\"\\\"\\\\\\n\\r\\t\\b\\f\\u0000\\u001f\",\"least\":-2147483648,\"most\":2147483647,\"none\":0,\"no\":false,\"nan\":null}"
    );
    let value: serde_json::Value = serde_json::from_str(&line).unwrap();
    assert_eq!(value["quoted\""], "\"\\\n\r\t\u{8}\u{c}\u{0}\u{1f}");
    assert!(!line.contains('\n'));
    assert_eq!(print(write_object(&vec![])), "{}");
}

#[test]
fn a_goto_record_escapes_what_it_is_told() {
    let record = goto_record("slew\n\"now\"", None, Some("lx200\t".to_string()), "t".to_string());
    assert_eq!(
        print(record.to_line()),
        r#"{"type":"goto","time":"t","action":"slew\n\"now\"","source":"lx200\t"}"#
    );
}

#[test]
fn protocol_durations_are_added_up() {
    let nanos = |seconds: i64, nanos: i32| nanos_from_proto(ProtoDuration { seconds, nanos });
    assert_eq!(nanos(0, 0), Some(0));
    assert_eq!(nanos(1, 5), Some(1_000_000_005));
    assert_eq!(nanos(2, -5), Some(1_999_999_995));
    assert_eq!(nanos(1, 2_000_000_001), Some(3_000_000_001));
    assert_eq!(nanos(-1, 1_500_000_000), Some(500_000_000));
    assert_eq!(nanos(-1, 999_999_999), None);
    assert_eq!(nanos(0, -1), None);
    assert_eq!(nanos(i64::MIN, 0), None);
    assert_eq!(nanos(i64::MIN, i32::MIN), None);
    assert_eq!(nanos(i64::MIN, 1), None);
    assert_eq!(nanos(i64::MIN + 1, -2_000_000_000), None);
    assert_eq!(nanos(i64::MAX, 999_999_999), Some(9_223_372_036_854_775_807_999_999_999));
    assert_eq!(nanos(i64::MAX, i32::MAX), Some(9_223_372_036_854_775_807_999_999_999));
}

#[test]
fn durations_go_through_the_protocol_unchanged() {
    for n in [0, 1, 999_999_999, 1_000_000_000, 31_200_000, 9_223_372_036_854_775_807_999_999_999] {
        let d = proto_from_nanos(n).unwrap();
        assert_eq!(nanos_from_proto(d), Some(n));
    }
    assert_eq!(proto_from_nanos(5_000_000_007), Some(ProtoDuration { seconds: 5, nanos: 7 }));
    assert_eq!(proto_from_nanos(9_223_372_036_854_775_808_000_000_000), None);
    assert_eq!(proto_from_nanos(18_446_744_073_709_551_615_999_999_999), None);
}
