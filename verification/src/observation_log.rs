//! The observation log: what was observed during a session, one JSON object to a
//! line. Two kinds of record share it, told apart by their `type`:
//!
//! * `"solve"`: one record for each plate solve of a camera frame, kept apart by a
//!   minimum interval so that the file stays small. What was interpolated from the
//!   motion sensor is no fresh observation, and is left out.
//! * `"goto"`: one record for each request to slew the telescope. None is left out.

use vstd::arithmetic::power2::{lemma2_to64_rest, lemma_pow2_pos, pow2};
use vstd::prelude::*;

use crate::arithmetic::{apart, integer, lemma_integer};
use crate::clock::{formatted_time, is_offset, iso_at, iso_time, WallTime};
use crate::duration::{
    fits_duration, is_duration, lemma_nanos_are_nearest, millis, millis_of, nanos_from_proto, nanos_from_secs, nanos_in,
    nanos_of, DURATION_END, SECOND,
};
use crate::geometry::CelestialCoord;
use crate::json::{
    json_string, lemma_line, line_of, views_of, write_object, Field, JsonPiece, PieceView, Value, ValueView,
};
use crate::number::{one, Double};
use crate::plate::PlateSolution;
use crate::text::signed_decimal;

verus! {

/// The environment variable that switches the log off.
pub const ENABLED_VARIABLE: &'static str = "CEDAR_OBSLOG";

/// The environment variable that names the file.
pub const PATH_VARIABLE: &'static str = "CEDAR_OBSLOG_PATH";

/// The environment variable that gives the interval between solve records, in
/// seconds.
pub const INTERVAL_VARIABLE: &'static str = "CEDAR_OBSLOG_INTERVAL_SECS";

/// The file, where none is named: in the working directory.
pub const DEFAULT_PATH: &'static str = "./cedar_observation_log.jsonl";

/// The interval between solve records, where none is given, in seconds.
pub const DEFAULT_THROTTLE_SECS: u64 = 1;

/// How the log is kept.
#[derive(Debug)]
pub struct ObsLogConfig {
    /// The file. It and its parent directories are made at the first write.
    pub path: String,
    /// The least interval between solve records, in nanoseconds.
    pub throttle: u128,
    /// When false, nothing is logged.
    pub enabled: bool,
}

/// A switch leaves the log on unless it says otherwise in so many words.
pub open spec fn is_enabled(switch: Option<Seq<char>>) -> bool {
    !(switch == Some("0"@) || switch == Some("false"@) || switch == Some("no"@))
}

/// The file to write to: an empty name is no name.
pub open spec fn path_of(path: Option<Seq<char>>) -> Seq<char> {
    match path {
        Some(p) => if p.len() > 0 {
            p
        } else {
            DEFAULT_PATH@
        },
        None => DEFAULT_PATH@,
    }
}

/// The interval between solve records, in seconds: one that is negative, that is not
/// a number, or that no duration can hold, counts as not given.
pub open spec fn interval_of(secs: Option<Double>) -> Double {
    match secs {
        Some(v) => if is_duration(v) {
            v
        } else {
            integer(DEFAULT_THROTTLE_SECS as nat)
        },
        None => integer(DEFAULT_THROTTLE_SECS as nat),
    }
}

proof fn lemma_interval(secs: Option<Double>)
    ensures
        is_duration(interval_of(secs)),
{
    lemma_integer(1);
    lemma_pow2_pos(1074);
    lemma2_to64_rest();
    assert(1 * one() == one());
    assert(one() < pow2(64) * one()) by (nonlinear_arith)
        requires
            one() > 0,
            pow2(64) == 0x1_0000_0000_0000_0000,
    ;
}

pub open spec fn viewed(s: Option<String>) -> Option<Seq<char>> {
    match s {
        Some(s) => Some(s@),
        None => None,
    }
}

fn says(s: &String, word: &str) -> (b: bool)
    ensures
        b == (s@ == word@),
{
    let w: String = word.to_string();
    *s == w
}

/// The seconds between solve records.
pub fn throttle_secs(interval_secs: Option<Double>) -> (secs: Double)
    ensures
        secs == interval_of(interval_secs),
{
    match interval_secs {
        Some(v) => {
            if fits_duration(v) {
                return v;
            }
        },
        None => {},
    }
    Double::from_u64(DEFAULT_THROTTLE_SECS)
}

/// How the log is kept, by what the environment says: the switch, the path and the
/// interval in seconds. The interval is absent where it is not a number in decimal.
pub fn parse_config(obslog: Option<String>, path: Option<String>, interval_secs: Option<Double>) -> (c: ObsLogConfig)
    ensures
        c.enabled == is_enabled(viewed(obslog)),
        c.path@ == path_of(viewed(path)),
        c.throttle == nanos_of(interval_of(interval_secs)),
{
    let enabled: bool = match obslog {
        Some(s) => !(says(&s, "0") || says(&s, "false") || says(&s, "no")),
        None => true,
    };
    let path: String = match path {
        Some(p) => if p.as_str().is_empty() {
            DEFAULT_PATH.to_string()
        } else {
            p
        },
        None => DEFAULT_PATH.to_string(),
    };
    proof {
        lemma_interval(interval_secs);
    }
    ObsLogConfig { path, throttle: nanos_from_secs(throttle_secs(interval_secs)), enabled }
}

/// Enough time has passed since the last record, or there was none. A clock that
/// went back has made no time pass.
pub open spec fn is_due(last: Option<u128>, now: u128, throttle: u128) -> bool {
    match last {
        Some(last) => if last <= now {
            now - last >= throttle
        } else {
            throttle == 0
        },
        None => true,
    }
}

/// Whether a solve record is due. Times are nanoseconds on one monotonic clock.
pub fn should_write(last: Option<u128>, now: u128, throttle: u128) -> (b: bool)
    ensures
        b == is_due(last, now, throttle),
{
    match last {
        Some(last) => if last <= now {
            now - last >= throttle
        } else {
            throttle == 0
        },
        None => true,
    }
}

/// A frame that the solve engine is done with.
#[derive(Debug)]
pub struct SolvedFrame {
    pub solution_id: i32,
    pub frame_id: i32,
    /// When the frame was read out of the camera.
    pub readout_time: WallTime,
    pub solve_finish_time: Option<WallTime>,
    /// Absent, where the frame did not solve.
    pub plate_solution: Option<PlateSolution>,
}

impl SolvedFrame {
    pub open spec fn is_valid(&self) -> bool {
        &&& self.readout_time.is_valid()
        &&& self.solve_finish_time matches Some(t) ==> t.is_valid()
    }

    /// Whether the times of the frame are ones that a clock can give.
    pub fn has_valid_times(&self) -> (b: bool)
        ensures
            b == self.is_valid(),
    {
        self.readout_time.is_on_clock() && match self.solve_finish_time {
            Some(t) => t.is_on_clock(),
            None => true,
        }
    }

    /// The solution was interpolated from the motion sensor.
    pub open spec fn is_from_imu(&self) -> bool {
        self.plate_solution matches Some(p) && p.solution_from_imu
    }
}

/// A solve. What is absent is left out of the log.
#[derive(Debug)]
pub struct SolveRecord {
    pub kind: &'static str,
    /// When the frame was read out, in local time.
    pub time: String,
    pub solution_id: i32,
    pub frame_id: i32,
    pub solved: bool,
    pub ra_deg: Option<Double>,
    pub dec_deg: Option<Double>,
    pub roll_deg: Option<Double>,
    pub fov_deg: Option<Double>,
    pub rmse_arcsec: Option<Double>,
    pub num_matches: Option<i32>,
    /// The solver's own time, in milliseconds.
    pub solve_ms: Option<Double>,
    /// From the readout of the frame to the end of the solve, in milliseconds.
    pub pipeline_ms: Option<Double>,
}

/// A request to slew the telescope. What is absent is left out of the log.
#[derive(Debug)]
pub struct GotoRecord {
    pub kind: &'static str,
    pub time: String,
    /// `initiate_slew` or `stop_slew`.
    pub action: String,
    /// The protocol that the request came by, where it is known.
    pub source: Option<String>,
    pub ra_deg: Option<Double>,
    pub dec_deg: Option<Double>,
}

pub open spec fn with_number(fields: Seq<(Seq<char>, ValueView)>, name: Seq<char>, x: Option<Double>) -> Seq<
    (Seq<char>, ValueView),
> {
    match x {
        Some(x) => fields.push((name, ValueView::Number(x))),
        None => fields,
    }
}

fn push_number(fields: &mut Vec<Field>, name: &'static str, x: Option<Double>)
    ensures
        views_of(final(fields)@) == with_number(views_of(old(fields)@), name@, x),
{
    match x {
        Some(x) => {
            let field: Field = Field { name, value: Value::Number(x) };
            let ghost before = fields@;
            fields.push(field);
            assert(views_of(fields@) == views_of(before).push(field@));
        },
        None => {},
    }
}

fn push_field(fields: &mut Vec<Field>, name: &'static str, value: Value)
    ensures
        views_of(final(fields)@) == views_of(old(fields)@).push((name@, value@)),
{
    let field: Field = Field { name, value };
    let ghost before = fields@;
    fields.push(field);
    assert(views_of(fields@) == views_of(before).push(field@));
}

impl SolveRecord {
    /// The fields of the record, in order.
    pub open spec fn fields(&self) -> Seq<(Seq<char>, ValueView)> {
        let head = seq![
            ("type"@, ValueView::Text(self.kind@)),
            ("time"@, ValueView::Text(self.time@)),
            ("solution_id"@, ValueView::Integer(self.solution_id as int)),
            ("frame_id"@, ValueView::Integer(self.frame_id as int)),
            ("solved"@, ValueView::Boolean(self.solved)),
        ];
        let ra = with_number(head, "ra_deg"@, self.ra_deg);
        let dec = with_number(ra, "dec_deg"@, self.dec_deg);
        let roll = with_number(dec, "roll_deg"@, self.roll_deg);
        let fov = with_number(roll, "fov_deg"@, self.fov_deg);
        let rmse = with_number(fov, "rmse_arcsec"@, self.rmse_arcsec);
        let matches = match self.num_matches {
            Some(n) => rmse.push(("num_matches"@, ValueView::Integer(n as int))),
            None => rmse,
        };
        let solve = with_number(matches, "solve_ms"@, self.solve_ms);
        with_number(solve, "pipeline_ms"@, self.pipeline_ms)
    }

    /// The record as a line of the log, without the line's end.
    pub fn to_line(&self) -> (line: Vec<JsonPiece>)
        ensures
            views_of(line@) == line_of(self.fields()),
    {
        let mut fields: Vec<Field> = Vec::new();
        assert(views_of(fields@) == Seq::<(Seq<char>, ValueView)>::empty());
        push_field(&mut fields, "type", Value::Text(self.kind.to_string()));
        push_field(&mut fields, "time", Value::Text(self.time.clone()));
        push_field(&mut fields, "solution_id", Value::Integer(self.solution_id));
        push_field(&mut fields, "frame_id", Value::Integer(self.frame_id));
        push_field(&mut fields, "solved", Value::Boolean(self.solved));
        assert(views_of(fields@) == seq![
            ("type"@, ValueView::Text(self.kind@)),
            ("time"@, ValueView::Text(self.time@)),
            ("solution_id"@, ValueView::Integer(self.solution_id as int)),
            ("frame_id"@, ValueView::Integer(self.frame_id as int)),
            ("solved"@, ValueView::Boolean(self.solved)),
        ]);
        push_number(&mut fields, "ra_deg", self.ra_deg);
        push_number(&mut fields, "dec_deg", self.dec_deg);
        push_number(&mut fields, "roll_deg", self.roll_deg);
        push_number(&mut fields, "fov_deg", self.fov_deg);
        push_number(&mut fields, "rmse_arcsec", self.rmse_arcsec);
        match self.num_matches {
            Some(n) => {
                push_field(&mut fields, "num_matches", Value::Integer(n));
            },
            None => {},
        }
        push_number(&mut fields, "solve_ms", self.solve_ms);
        push_number(&mut fields, "pipeline_ms", self.pipeline_ms);
        write_object(&fields)
    }
}

impl GotoRecord {
    /// The fields of the record, in order.
    pub open spec fn fields(&self) -> Seq<(Seq<char>, ValueView)> {
        let head = seq![
            ("type"@, ValueView::Text(self.kind@)),
            ("time"@, ValueView::Text(self.time@)),
            ("action"@, ValueView::Text(self.action@)),
        ];
        let source = match self.source {
            Some(s) => head.push(("source"@, ValueView::Text(s@))),
            None => head,
        };
        with_number(with_number(source, "ra_deg"@, self.ra_deg), "dec_deg"@, self.dec_deg)
    }

    /// The record as a line of the log, without the line's end.
    pub fn to_line(&self) -> (line: Vec<JsonPiece>)
        ensures
            views_of(line@) == line_of(self.fields()),
    {
        let mut fields: Vec<Field> = Vec::new();
        assert(views_of(fields@) == Seq::<(Seq<char>, ValueView)>::empty());
        push_field(&mut fields, "type", Value::Text(self.kind.to_string()));
        push_field(&mut fields, "time", Value::Text(self.time.clone()));
        push_field(&mut fields, "action", Value::Text(self.action.clone()));
        assert(views_of(fields@) == seq![
            ("type"@, ValueView::Text(self.kind@)),
            ("time"@, ValueView::Text(self.time@)),
            ("action"@, ValueView::Text(self.action@)),
        ]);
        match &self.source {
            Some(s) => {
                push_field(&mut fields, "source", Value::Text(s.clone()));
            },
            None => {},
        }
        push_number(&mut fields, "ra_deg", self.ra_deg);
        push_number(&mut fields, "dec_deg", self.dec_deg);
        write_object(&fields)
    }
}

/// Milliseconds of a duration that may be absent.
pub open spec fn millis_in(nanos: Option<u128>) -> Option<Double> {
    match nanos {
        Some(n) => Some(millis_of(n as nat)),
        None => None,
    }
}

/// The record of a frame that was read out at a time written as `time`.
///
/// A frame that did not solve has no position, no residual and no solver's time. A
/// solver's time that is negative is left out, and so is the time of the whole
/// pipeline where the solve ended before the frame was read out.
pub open spec fn is_solve_record(record: SolveRecord, frame: SolvedFrame, time: Seq<char>) -> bool {
    &&& record.kind@ == "solve"@
    &&& record.time@ == time
    &&& record.solution_id == frame.solution_id
    &&& record.frame_id == frame.frame_id
    &&& record.solved == (frame.plate_solution is Some)
    &&& match frame.plate_solution {
        Some(p) => {
            &&& record.ra_deg == (match p.image_sky_coord {
                Some(c) => Some(c.ra),
                None => None,
            })
            &&& record.dec_deg == (match p.image_sky_coord {
                Some(c) => Some(c.dec),
                None => None,
            })
            &&& record.roll_deg == Some(p.roll)
            &&& record.fov_deg == Some(p.fov)
            &&& record.rmse_arcsec == Some(p.rmse)
            &&& record.num_matches == Some(p.num_matches)
            &&& record.solve_ms == millis_in(
                match p.solve_time {
                    Some(d) => nanos_in(d),
                    None => None,
                },
            )
        },
        None => {
            &&& record.ra_deg is None
            &&& record.dec_deg is None
            &&& record.roll_deg is None
            &&& record.fov_deg is None
            &&& record.rmse_arcsec is None
            &&& record.num_matches is None
            &&& record.solve_ms is None
        },
    }
    &&& record.pipeline_ms == millis_in(
        match frame.solve_finish_time {
            Some(finish) => finish.after(frame.readout_time),
            None => None,
        },
    )
}

fn millis_opt(nanos: Option<u128>) -> (r: Option<Double>)
    requires
        nanos matches Some(n) ==> n < DURATION_END,
    ensures
        r == millis_in(nanos),
{
    match nanos {
        Some(n) => Some(millis(n)),
        None => None,
    }
}

/// The record of a frame, given the text of the time when it was read out.
pub fn solve_record(frame: &SolvedFrame, time: String) -> (record: SolveRecord)
    requires
        frame.is_valid(),
    ensures
        is_solve_record(record, *frame, time@),
{
    let pipeline_ms: Option<Double> = match frame.solve_finish_time {
        Some(finish) => millis_opt(finish.duration_since(frame.readout_time)),
        None => None,
    };
    match &frame.plate_solution {
        Some(p) => {
            let (ra_deg, dec_deg): (Option<Double>, Option<Double>) = match p.image_sky_coord {
                Some(c) => (Some(c.ra), Some(c.dec)),
                None => (None, None),
            };
            let solve_ms: Option<Double> = match p.solve_time {
                Some(d) => millis_opt(nanos_from_proto(d)),
                None => None,
            };
            SolveRecord {
                kind: "solve",
                time,
                solution_id: frame.solution_id,
                frame_id: frame.frame_id,
                solved: true,
                ra_deg,
                dec_deg,
                roll_deg: Some(p.roll),
                fov_deg: Some(p.fov),
                rmse_arcsec: Some(p.rmse),
                num_matches: Some(p.num_matches),
                solve_ms,
                pipeline_ms,
            }
        },
        None => SolveRecord {
            kind: "solve",
            time,
            solution_id: frame.solution_id,
            frame_id: frame.frame_id,
            solved: false,
            ra_deg: None,
            dec_deg: None,
            roll_deg: None,
            fov_deg: None,
            rmse_arcsec: None,
            num_matches: None,
            solve_ms: None,
            pipeline_ms,
        },
    }
}

/// The record of a request to slew, given the text of its time.
pub open spec fn is_goto_record(
    record: GotoRecord,
    action: Seq<char>,
    coord: Option<CelestialCoord>,
    source: Option<Seq<char>>,
    time: Seq<char>,
) -> bool {
    &&& record.kind@ == "goto"@
    &&& record.time@ == time
    &&& record.action@ == action
    &&& viewed(record.source) == source
    &&& record.ra_deg == (match coord {
        Some(c) => Some(c.ra),
        None => None,
    })
    &&& record.dec_deg == (match coord {
        Some(c) => Some(c.dec),
        None => None,
    })
}

/// The record of a request to slew, given the text of its time.
pub fn goto_record(action: &str, coord: Option<CelestialCoord>, source: Option<String>, time: String) -> (record: GotoRecord)
    ensures
        is_goto_record(record, action@, coord, viewed(source), time@),
{
    let (ra_deg, dec_deg): (Option<Double>, Option<Double>) = match coord {
        Some(c) => (Some(c.ra), Some(c.dec)),
        None => (None, None),
    };
    GotoRecord { kind: "goto", time, action: action.to_string(), source, ra_deg, dec_deg }
}

/// The observation log. It says what is to be written; the caller writes it.
pub struct ObservationLog {
    config: ObsLogConfig,
    /// When the last solve record was given out, on the monotonic clock.
    last_solve_write: Option<u128>,
}

impl ObservationLog {
    pub closed spec fn is_on(&self) -> bool {
        self.config.enabled
    }

    pub closed spec fn file(&self) -> Seq<char> {
        self.config.path@
    }

    pub closed spec fn interval(&self) -> u128 {
        self.config.throttle
    }

    pub closed spec fn last(&self) -> Option<u128> {
        self.last_solve_write
    }

    /// A frame that is solved now is recorded.
    pub open spec fn records(&self, frame: &SolvedFrame, now: u128) -> bool {
        self.is_on() && !frame.is_from_imu() && is_due(self.last(), now, self.interval())
    }

    /// A log as the environment asks for it. When it is switched off, nothing is
    /// logged.
    pub fn from_env(obslog: Option<String>, path: Option<String>, interval_secs: Option<Double>) -> (log: ObservationLog)
        ensures
            log.is_on() == is_enabled(viewed(obslog)),
            log.file() == path_of(viewed(path)),
            log.interval() == nanos_of(interval_of(interval_secs)),
            log.last() is None,
    {
        ObservationLog { config: parse_config(obslog, path, interval_secs), last_solve_write: None }
    }

    /// A log that logs nothing.
    pub fn disabled() -> (log: ObservationLog)
        ensures
            !log.is_on(),
            log.file() == DEFAULT_PATH@,
            log.interval() == 1_000_000_000,
            log.last() is None,
    {
        ObservationLog {
            config: ObsLogConfig { path: DEFAULT_PATH.to_string(), throttle: 1_000_000_000, enabled: false },
            last_solve_write: None,
        }
    }

    pub fn enabled(&self) -> (b: bool)
        ensures
            b == self.is_on(),
    {
        self.config.enabled
    }

    pub fn path(&self) -> (p: &str)
        ensures
            p@ == self.file(),
    {
        self.config.path.as_str()
    }

    /// The least interval between solve records, in nanoseconds.
    pub fn throttle(&self) -> (nanos: u128)
        ensures
            nanos == self.interval(),
    {
        self.config.throttle
    }

    /// Whether a frame that is solved now is recorded.
    pub fn will_record(&self, frame: &SolvedFrame, now: u128) -> (b: bool)
        ensures
            b == self.records(frame, now),
    {
        let from_imu: bool = match &frame.plate_solution {
            Some(p) => p.solution_from_imu,
            None => false,
        };
        self.config.enabled && !from_imu && should_write(self.last_solve_write, now, self.config.throttle)
    }

    /// Takes note of a frame that the solve engine is done with, and gives the record
    /// to write, if there is one. Frames that solved and frames that did not are both
    /// recorded. `now` is on the monotonic clock, in nanoseconds; `offset` is how far
    /// the local time was off UTC when the frame was read out, in seconds.
    pub fn log_solve(&mut self, frame: &SolvedFrame, now: u128, offset: i32) -> (r: Option<SolveRecord>)
        requires
            frame.is_valid(),
            old(self).records(frame, now) ==> frame.readout_time.is_in_calendar() && is_offset(offset),
        ensures
            r is Some <==> old(self).records(frame, now),
            r matches Some(record) ==> is_solve_record(record, *frame, iso_time(frame.readout_time, offset as int)),
            final(self).last() == (if old(self).records(frame, now) {
                Some(now)
            } else {
                old(self).last()
            }),
            final(self).is_on() == old(self).is_on(),
            final(self).file() == old(self).file(),
            final(self).interval() == old(self).interval(),
    {
        if !self.will_record(frame, now) {
            return None;
        }
        self.last_solve_write = Some(now);
        Some(solve_record(frame, iso_at(frame.readout_time, offset)))
    }

    /// Gives the record of a request to slew the telescope, made at the time `now`,
    /// when the local time is off UTC by `offset` seconds; nothing, when the log is
    /// switched off. `coord` is the target, where there is one.
    pub fn log_goto(
        &self,
        action: &str,
        coord: Option<CelestialCoord>,
        source: Option<String>,
        now: WallTime,
        offset: i32,
    ) -> (r: Option<GotoRecord>)
        requires
            self.is_on() ==> now.is_in_calendar() && is_offset(offset),
        ensures
            r is Some <==> self.is_on(),
            r matches Some(record) ==> is_goto_record(
                record,
                action@,
                coord,
                viewed(source),
                iso_time(now, offset as int),
            ),
    {
        if !self.config.enabled {
            return None;
        }
        Some(goto_record(action, coord, source, iso_at(now, offset)))
    }
}

/// One frame that a log is told of: whether it was interpolated, and when.
pub struct Notice {
    pub from_imu: bool,
    pub now: u128,
}

/// The times of the solve records that a log gives out, one notice after the other,
/// when it is switched on and has given out none before.
pub open spec fn times_written(interval: u128, notices: Seq<Notice>) -> Seq<u128>
    decreases notices.len(),
{
    if notices.len() == 0 {
        Seq::empty()
    } else {
        let earlier = times_written(interval, notices.drop_last());
        if !notices.last().from_imu && is_due(last_of(earlier), notices.last().now, interval) {
            earlier.push(notices.last().now)
        } else {
            earlier
        }
    }
}

pub open spec fn last_of(times: Seq<u128>) -> Option<u128> {
    if times.len() == 0 {
        None
    } else {
        Some(times.last())
    }
}

/// The clock does not go back.
pub open spec fn is_forward(notices: Seq<Notice>) -> bool {
    forall|i: int, j: int| 0 <= i <= j < notices.len() ==> (#[trigger] notices[i]).now <= (#[trigger] notices[j]).now
}

/// One more notice changes a log as `log_solve` does: where the log's last record is
/// the last of those written, it is so afterwards.
pub proof fn law_log_follows_notices(log: ObservationLog, frame: &SolvedFrame, now: u128, notices: Seq<Notice>)
    requires
        log.is_on(),
        log.last() == last_of(times_written(log.interval(), notices)),
    ensures
        ({
            let more = notices.push(Notice { from_imu: frame.is_from_imu(), now });
            last_of(times_written(log.interval(), more)) == (if log.records(frame, now) {
                Some(now)
            } else {
                log.last()
            })
        }),
{
    let more = notices.push(Notice { from_imu: frame.is_from_imu(), now });
    assert(more.drop_last() == notices);
}

proof fn lemma_times_are_past(interval: u128, notices: Seq<Notice>)
    requires
        is_forward(notices),
    ensures
        forall|k: int|
            #![trigger times_written(interval, notices)[k]]
            0 <= k < times_written(interval, notices).len() ==> notices.len() > 0 && times_written(interval, notices)[k]
                <= notices.last().now,
    decreases notices.len(),
{
    if notices.len() > 0 {
        let rest = notices.drop_last();
        assert(forall|i: int| 0 <= i < rest.len() ==> #[trigger] rest[i] == notices[i]);
        lemma_times_are_past(interval, rest);
        let earlier = times_written(interval, rest);
        let all = times_written(interval, notices);
        assert forall|k: int| 0 <= k < all.len() implies #[trigger] all[k] <= notices.last().now by {
            if k < earlier.len() {
                assert(all[k] == earlier[k]);
                assert(rest.last() == notices[notices.len() - 2]);
            }
        }
    }
}

/// Solve records are kept apart: any two of them are as many intervals apart as there
/// are steps from one to the other. So a session of a given length has a bounded
/// number of them.
pub proof fn law_solve_records_are_spaced(interval: u128, notices: Seq<Notice>, i: int, j: int)
    requires
        is_forward(notices),
        0 <= i <= j < times_written(interval, notices).len(),
    ensures
        times_written(interval, notices)[j] - times_written(interval, notices)[i] >= (j - i) * interval,
    decreases notices.len(),
{
    let rest = notices.drop_last();
    assert(forall|i: int| 0 <= i < rest.len() ==> #[trigger] rest[i] == notices[i]);
    let earlier = times_written(interval, rest);
    let all = times_written(interval, notices);
    assert(0 * interval == 0);
    if j < earlier.len() {
        law_solve_records_are_spaced(interval, rest, i, j);
    } else if i < j {
        law_solve_records_are_spaced(interval, rest, i, j - 1);
        lemma_times_are_past(interval, rest);
        assert(earlier[j - 1] <= rest.last().now);
        assert(rest.last() == notices[notices.len() - 2]);
        assert((j - i) * interval == (j - 1 - i) * interval + interval) by (nonlinear_arith);
    }
}

/// No camera frame is passed over for long: whenever there is one, a record has been
/// given out less than an interval before it, or for it.
pub proof fn law_frames_are_covered(interval: u128, notices: Seq<Notice>, i: int)
    requires
        is_forward(notices),
        0 <= i < notices.len(),
        !notices[i].from_imu,
    ensures
        exists|k: int|
            0 <= k < times_written(interval, notices).len() && #[trigger] times_written(interval, notices)[k]
                <= notices[i].now && (times_written(interval, notices)[k] == notices[i].now || notices[i].now
                - times_written(interval, notices)[k] < interval),
    decreases notices.len(),
{
    let rest = notices.drop_last();
    assert(forall|i: int| 0 <= i < rest.len() ==> #[trigger] rest[i] == notices[i]);
    let earlier = times_written(interval, rest);
    let all = times_written(interval, notices);
    if i < rest.len() {
        law_frames_are_covered(interval, rest, i);
        let k = choose|k: int|
            0 <= k < earlier.len() && #[trigger] earlier[k] <= rest[i].now && (earlier[k] == rest[i].now || rest[i].now
                - earlier[k] < interval);
        assert(all[k] == earlier[k]);
    } else if is_due(last_of(earlier), notices[i].now, interval) {
        assert(all[all.len() - 1] == notices[i].now);
    } else {
        lemma_times_are_past(interval, rest);
        let k = earlier.len() - 1;
        assert(earlier[k] <= rest.last().now);
        assert(rest.last() == notices[notices.len() - 2]);
        assert(all[k] == earlier[k]);
    }
}

/// What was interpolated from the motion sensor is not recorded, and nothing is when
/// the log is switched off.
pub proof fn law_only_camera_frames_are_recorded(log: ObservationLog, frame: &SolvedFrame, now: u128)
    ensures
        frame.is_from_imu() ==> !log.records(frame, now),
        !log.is_on() ==> !log.records(frame, now),
{
}

/// The record of a frame that did not solve has no field for what was not found.
pub proof fn law_unsolved_has_no_sky_fields(record: SolveRecord, frame: SolvedFrame, time: Seq<char>)
    requires
        is_solve_record(record, frame, time),
        frame.plate_solution is None,
    ensures
        record.fields() == with_number(
            seq![
                ("type"@, ValueView::Text("solve"@)),
                ("time"@, ValueView::Text(time)),
                ("solution_id"@, ValueView::Integer(frame.solution_id as int)),
                ("frame_id"@, ValueView::Integer(frame.frame_id as int)),
                ("solved"@, ValueView::Boolean(false)),
            ],
            "pipeline_ms"@,
            record.pipeline_ms,
        ),
{
}

/// A frame whose solution carries the motion sensor's mark is never recorded, whatever
/// else it holds, and leaves the log as it was.
pub proof fn law_interpolated_frames_leave_no_trace(
    log: &mut ObservationLog,
    frame: SolvedFrame,
    solution: PlateSolution,
    now: u128,
    offset: i32,
    r: Option<SolveRecord>,
)
    requires
        frame.plate_solution == Some(solution),
        solution.solution_from_imu,
        call_ensures(ObservationLog::log_solve, (log, &frame, now, offset), r),
    ensures
        r is None,
        final(log).last() == old(log).last(),
        final(log).is_on() == old(log).is_on(),
        final(log).file() == old(log).file(),
        final(log).interval() == old(log).interval(),
{
}

/// A frame without that mark, solved or not, is a camera frame. A log that is switched
/// on records it unless a record was given out less than an interval before, and takes
/// note of the time; otherwise it leaves the log as it was.
pub proof fn law_camera_frames_are_recorded(
    log: &mut ObservationLog,
    frame: SolvedFrame,
    now: u128,
    offset: i32,
    r: Option<SolveRecord>,
)
    requires
        frame.plate_solution is None || !frame.plate_solution->0.solution_from_imu,
        old(log).is_on(),
        call_ensures(ObservationLog::log_solve, (log, &frame, now, offset), r),
    ensures
        old(log).last() is None ==> r is Some,
        old(log).last() matches Some(last) ==> {
            &&& now >= last + old(log).interval() ==> r is Some
            &&& last <= now < last + old(log).interval() ==> r is None
            &&& now < last ==> (r is Some <==> old(log).interval() == 0)
        },
        r is Some ==> final(log).last() == Some(now),
        r is None ==> final(log).last() == old(log).last(),
        final(log).is_on(),
        final(log).file() == old(log).file(),
        final(log).interval() == old(log).interval(),
{
}

/// A log that is switched off records nothing, and stays as it is.
pub proof fn law_switched_off_log_is_silent(
    log: &mut ObservationLog,
    frame: SolvedFrame,
    now: u128,
    offset: i32,
    r: Option<SolveRecord>,
)
    requires
        !old(log).is_on(),
        call_ensures(ObservationLog::log_solve, (log, &frame, now, offset), r),
    ensures
        r is None,
        final(log).last() == old(log).last(),
        !final(log).is_on(),
        final(log).file() == old(log).file(),
        final(log).interval() == old(log).interval(),
{
}

/// What a log says it will record is a camera frame that is due: the mark of the motion
/// sensor alone makes a frame another one.
pub proof fn law_log_foretells_records(log: ObservationLog, frame: SolvedFrame, now: u128, due: bool, b: bool)
    requires
        call_ensures(ObservationLog::will_record, (&log, &frame, now), b),
        call_ensures(should_write, (log.last(), now, log.interval()), due),
    ensures
        frame.plate_solution matches Some(p) ==> p.solution_from_imu ==> !b,
        frame.plate_solution matches Some(p) ==> !p.solution_from_imu ==> b == (log.is_on() && due),
        frame.plate_solution is None ==> b == (log.is_on() && due),
{
}

/// A record is due when there was none, or when the last one is an interval ago. No time
/// has passed on a clock that went back.
pub proof fn law_records_are_due(last: Option<u128>, now: u128, throttle: u128, b: bool)
    requires
        call_ensures(should_write, (last, now, throttle), b),
    ensures
        last is None ==> b,
        last matches Some(t) ==> t + throttle <= now ==> b,
        last matches Some(t) ==> t <= now < t + throttle ==> !b,
        last matches Some(t) ==> now < t ==> (b <==> throttle == 0),
{
}

/// What a frame's record says is what the frame says: its numbers, whether it solved,
/// and, of one that did, where it points, its roll and width, its residual and how many
/// stars matched. Of one that did not it says nothing more.
pub proof fn law_record_says_what_the_frame_says(frame: SolvedFrame, time: String, record: SolveRecord)
    requires
        call_ensures(solve_record, (&frame, time), record),
    ensures
        record.kind@ == "solve"@,
        record.time@ == time@,
        record.solution_id == frame.solution_id,
        record.frame_id == frame.frame_id,
        record.solved <==> frame.plate_solution is Some,
        frame.plate_solution matches Some(p) ==> {
            &&& record.roll_deg == Some(p.roll)
            &&& record.fov_deg == Some(p.fov)
            &&& record.rmse_arcsec == Some(p.rmse)
            &&& record.num_matches == Some(p.num_matches)
            &&& p.image_sky_coord matches Some(c) ==> record.ra_deg == Some(c.ra) && record.dec_deg == Some(c.dec)
            &&& p.image_sky_coord is None ==> record.ra_deg is None && record.dec_deg is None
        },
        frame.plate_solution is None ==> {
            &&& record.ra_deg is None && record.dec_deg is None && record.roll_deg is None
            &&& record.fov_deg is None && record.rmse_arcsec is None && record.num_matches is None
            &&& record.solve_ms is None
        },
{
}

/// The times of a record are the frame's: how long the solver took, as the solution has
/// it, and how long it was from the readout to the end of the solve. Either is left out
/// where it is not known, or negative.
pub proof fn law_record_tells_the_times(frame: SolvedFrame, time: String, record: SolveRecord, took: Double, passed: Double)
    requires
        call_ensures(solve_record, (&frame, time), record),
        frame.is_valid(),
    ensures
        ({
            match frame.solve_finish_time {
                Some(finish) => {
                    let nanos = finish.nanos - frame.readout_time.nanos;
                    &&& nanos < 0 ==> record.pipeline_ms is None
                    &&& nanos >= 0 ==> (call_ensures(millis, (nanos as u128,), passed) ==> record.pipeline_ms == Some(
                        passed,
                    ))
                },
                None => record.pipeline_ms is None,
            }
        }),
        frame.plate_solution matches Some(p) ==> match p.solve_time {
            Some(d) => {
                let nanos = d.seconds * 1_000_000_000 + d.nanos;
                &&& nanos < 0 ==> record.solve_ms is None
                &&& 0 <= nanos <= 9_223_372_036_854_775_807_999_999_999 ==> (call_ensures(millis, (nanos as u128,), took)
                    ==> record.solve_ms == Some(took))
                &&& nanos > 9_223_372_036_854_775_807_999_999_999 ==> (call_ensures(
                    millis,
                    (9_223_372_036_854_775_807_999_999_999u128,),
                    took,
                ) ==> record.solve_ms == Some(took))
            },
            None => record.solve_ms is None,
        },
{
}

/// The times of a record that is given out are those that the frame's own record has.
pub proof fn law_logged_times_are_the_frames(
    log: &mut ObservationLog,
    frame: SolvedFrame,
    now: u128,
    offset: i32,
    time: String,
    own: SolveRecord,
    r: Option<SolveRecord>,
)
    requires
        call_ensures(ObservationLog::log_solve, (log, &frame, now, offset), r),
        call_ensures(solve_record, (&frame, time), own),
    ensures
        r matches Some(record) ==> record.solve_ms == own.solve_ms && record.pipeline_ms == own.pipeline_ms,
{
}

/// What a slew's record says is what was asked for: the action, where to, and by whom,
/// as far as it is known.
pub proof fn law_slew_record_says_what_was_asked(
    action: &str,
    coord: Option<CelestialCoord>,
    source: Option<String>,
    time: String,
    record: GotoRecord,
)
    requires
        call_ensures(goto_record, (action, coord, source, time), record),
    ensures
        record.kind@ == "goto"@,
        record.time@ == time@,
        record.action@ == action@,
        source is None <==> record.source is None,
        source matches Some(s) ==> record.source->0@ == s@,
        coord matches Some(c) ==> record.ra_deg == Some(c.ra) && record.dec_deg == Some(c.dec),
        coord is None ==> record.ra_deg is None && record.dec_deg is None,
{
}

/// Every request to slew is recorded, as what was asked for at the time of asking, by a
/// log that is switched on; and none by one that is not.
pub proof fn law_every_slew_is_recorded(
    log: ObservationLog,
    action: &str,
    coord: Option<CelestialCoord>,
    source: Option<String>,
    now: WallTime,
    offset: i32,
    secs: i64,
    r: Option<GotoRecord>,
)
    requires
        call_ensures(ObservationLog::log_goto, (&log, action, coord, source, now, offset), r),
        call_ensures(WallTime::seconds, (&now,), secs),
        now.is_in_calendar(),
    ensures
        r is Some <==> log.is_on(),
        r matches Some(record) ==> {
            &&& record.kind@ == "goto"@
            &&& record.time@ == formatted_time(secs as int, offset as int, "%Y-%m-%dT%H:%M:%S%z"@)
            &&& record.action@ == action@
            &&& source is None <==> record.source is None
            &&& source matches Some(s) ==> record.source->0@ == s@
            &&& coord matches Some(c) ==> record.ra_deg == Some(c.ra) && record.dec_deg == Some(c.dec)
            &&& coord is None ==> record.ra_deg is None && record.dec_deg is None
        },
{
}

/// The record of a frame is that of the frame itself, at the time of its readout.
pub proof fn law_logged_record_is_the_frames(
    log: &mut ObservationLog,
    frame: SolvedFrame,
    now: u128,
    offset: i32,
    secs: i64,
    r: Option<SolveRecord>,
)
    requires
        call_ensures(ObservationLog::log_solve, (log, &frame, now, offset), r),
        call_ensures(WallTime::seconds, (&frame.readout_time,), secs),
        frame.readout_time.is_in_calendar(),
    ensures
        r matches Some(record) ==> {
            &&& record.kind@ == "solve"@
            &&& record.time@ == formatted_time(secs as int, offset as int, "%Y-%m-%dT%H:%M:%S%z"@)
            &&& record.solution_id == frame.solution_id
            &&& record.frame_id == frame.frame_id
            &&& record.solved <==> frame.plate_solution is Some
            &&& frame.plate_solution matches Some(p) ==> {
                &&& record.roll_deg == Some(p.roll)
                &&& record.fov_deg == Some(p.fov)
                &&& record.rmse_arcsec == Some(p.rmse)
                &&& record.num_matches == Some(p.num_matches)
                &&& p.image_sky_coord matches Some(c) ==> record.ra_deg == Some(c.ra) && record.dec_deg == Some(c.dec)
                &&& p.image_sky_coord is None ==> record.ra_deg is None && record.dec_deg is None
            }
        },
{
}

/// The environment switches the log off with one of three words, and with nothing else.
/// An empty path counts as none. An interval that is not a number, negative, or of 2^64
/// seconds or more counts as none, and is then a second; any other is taken to the
/// nearest nanosecond.
pub proof fn law_environment_is_followed(
    obslog: Option<String>,
    path: Option<String>,
    interval_secs: Option<Double>,
    c: ObsLogConfig,
)
    requires
        call_ensures(parse_config, (obslog, path, interval_secs), c),
    ensures
        obslog is None ==> c.enabled,
        obslog matches Some(word) ==> (!c.enabled <==> word@ == "0"@ || word@ == "false"@ || word@ == "no"@),
        path matches Some(name) ==> name@.len() > 0 ==> c.path@ == name@,
        path is None || path->0@.len() == 0 ==> c.path@ == "./cedar_observation_log.jsonl"@,
        interval_secs is None ==> c.throttle == 1_000_000_000,
        interval_secs matches Some(v) ==> {
            let given = !v.nan() && 0 <= v.units() && v.units() < 18_446_744_073_709_551_616 * one();
            &&& !given ==> c.throttle == 1_000_000_000
            &&& given ==> 2 * apart(c.throttle * one(), v.units() * 1_000_000_000) <= one()
        },
{
    lemma2_to64_rest();
    lemma_interval(interval_secs);
    lemma_a_second();
    if let Some(v) = interval_secs {
        if is_duration(v) {
            lemma_nanos_are_nearest(v);
        }
    }
}

proof fn lemma_a_second()
    ensures
        nanos_of(integer(1)) == 1_000_000_000,
{
    let (n, o) = (integer(1).units() * SECOND, one());
    lemma_integer(1);
    lemma_pow2_pos(1074);
    assert(1 * o == o);
    vstd::arithmetic::div_mod::lemma_fundamental_div_mod_converse(n, o, 1_000_000_000, 0);
}

/// A log that is made of the environment is kept as the environment asks, and has given
/// out no record. One that is made to log nothing logs nothing.
pub proof fn law_new_logs_are_empty(
    obslog: Option<String>,
    path: Option<String>,
    interval_secs: Option<Double>,
    c: ObsLogConfig,
    log: ObservationLog,
    off: ObservationLog,
)
    requires
        call_ensures(parse_config, (obslog, path, interval_secs), c),
        call_ensures(ObservationLog::from_env, (obslog, path, interval_secs), log),
        call_ensures(ObservationLog::disabled, (), off),
    ensures
        log.is_on() == c.enabled,
        log.file() == c.path@,
        log.interval() == c.throttle,
        log.last() is None,
        !off.is_on(),
        off.file() == "./cedar_observation_log.jsonl"@,
        off.interval() == 1_000_000_000,
        off.last() is None,
{
}

/// A log tells of itself what it goes by.
pub proof fn law_log_tells_of_itself(log: ObservationLog, enabled: bool, path: &str, nanos: u128)
    requires
        call_ensures(ObservationLog::enabled, (&log,), enabled),
        call_ensures(ObservationLog::path, (&log,), path),
        call_ensures(ObservationLog::throttle, (&log,), nanos),
    ensures
        enabled == log.is_on(),
        path@ == log.file(),
        nanos == log.interval(),
{
}

/// One field, or none.
pub open spec fn count(present: bool) -> int {
    if present {
        1
    } else {
        0
    }
}

/// Field `i` of a line carries a name and a value.
pub open spec fn carries(line: Seq<JsonPiece>, i: int, name: Seq<char>, value: ValueView) -> bool {
    &&& 0 <= 2 * i + 1 < line.len()
    &&& line[2 * i]@ == PieceView::Text(
        if i == 0 {
            "{"@ + json_string(name) + ":"@
        } else {
            ","@ + json_string(name) + ":"@
        },
    )
    &&& match value {
        ValueView::Text(s) => line[2 * i + 1]@ == PieceView::Text(json_string(s)),
        ValueView::Integer(n) => line[2 * i + 1]@ == PieceView::Text(signed_decimal(n)),
        ValueView::Boolean(b) => line[2 * i + 1]@ == PieceView::Text(
            if b {
                "true"@
            } else {
                "false"@
            },
        ),
        ValueView::Number(x) => line[2 * i + 1]@ == PieceView::Number(x),
    }
}

proof fn lemma_carries(line: Seq<JsonPiece>, fields: Seq<(Seq<char>, ValueView)>, i: int)
    requires
        views_of(line) == line_of(fields),
        0 <= i < fields.len(),
    ensures
        carries(line, i, fields[i].0, fields[i].1),
        line.len() == 2 * fields.len() + 1,
{
    lemma_line(fields, i);
    let views = views_of(line);
    assert(views.len() == line.len());
    assert(line[2 * i]@ == views[2 * i]);
    assert(line[2 * i + 1]@ == views[2 * i + 1]);
}

/// The line of a solve carries the fields of its record, each under its name and in
/// order, and no field for what is absent.
pub proof fn law_solve_line_carries_its_fields(record: SolveRecord, line: Vec<JsonPiece>)
    requires
        call_ensures(SolveRecord::to_line, (&record,), line),
    ensures
        ({
            let dec = 5 + count(record.ra_deg is Some);
            let roll = dec + count(record.dec_deg is Some);
            let fov = roll + count(record.roll_deg is Some);
            let rmse = fov + count(record.fov_deg is Some);
            let matches = rmse + count(record.rmse_arcsec is Some);
            let solve = matches + count(record.num_matches is Some);
            let pipeline = solve + count(record.solve_ms is Some);
            let end = pipeline + count(record.pipeline_ms is Some);
            &&& line.len() == 2 * end + 1
            &&& carries(line@, 0, "type"@, ValueView::Text(record.kind@))
            &&& carries(line@, 1, "time"@, ValueView::Text(record.time@))
            &&& carries(line@, 2, "solution_id"@, ValueView::Integer(record.solution_id as int))
            &&& carries(line@, 3, "frame_id"@, ValueView::Integer(record.frame_id as int))
            &&& carries(line@, 4, "solved"@, ValueView::Boolean(record.solved))
            &&& record.ra_deg matches Some(x) ==> carries(line@, 5, "ra_deg"@, ValueView::Number(x))
            &&& record.dec_deg matches Some(x) ==> carries(line@, dec, "dec_deg"@, ValueView::Number(x))
            &&& record.roll_deg matches Some(x) ==> carries(line@, roll, "roll_deg"@, ValueView::Number(x))
            &&& record.fov_deg matches Some(x) ==> carries(line@, fov, "fov_deg"@, ValueView::Number(x))
            &&& record.rmse_arcsec matches Some(x) ==> carries(line@, rmse, "rmse_arcsec"@, ValueView::Number(x))
            &&& record.num_matches matches Some(n) ==> carries(
                line@,
                matches,
                "num_matches"@,
                ValueView::Integer(n as int),
            )
            &&& record.solve_ms matches Some(x) ==> carries(line@, solve, "solve_ms"@, ValueView::Number(x))
            &&& record.pipeline_ms matches Some(x) ==> carries(line@, pipeline, "pipeline_ms"@, ValueView::Number(x))
        }),
{
    let fields = record.fields();
    assert forall|i: int| 0 <= i < fields.len() implies carries(line@, i, (#[trigger] fields[i]).0, fields[i].1)
        && line.len() == 2 * fields.len() + 1 by {
        lemma_carries(line@, fields, i);
    }
    let dec = 5 + count(record.ra_deg is Some);
    let roll = dec + count(record.dec_deg is Some);
    let fov = roll + count(record.roll_deg is Some);
    let rmse = fov + count(record.fov_deg is Some);
    let matches = rmse + count(record.rmse_arcsec is Some);
    let solve = matches + count(record.num_matches is Some);
    let pipeline = solve + count(record.solve_ms is Some);
    let end = pipeline + count(record.pipeline_ms is Some);
    assert(fields.len() == end);
    assert(fields[0].0 == "type"@ && fields[1].0 == "time"@ && fields[2].0 == "solution_id"@);
    assert(fields[3].0 == "frame_id"@ && fields[4].0 == "solved"@);
    assert(record.ra_deg matches Some(x) ==> fields[5] == ("ra_deg"@, ValueView::Number(x)));
    assert(record.dec_deg matches Some(x) ==> fields[dec] == ("dec_deg"@, ValueView::Number(x)));
    assert(record.roll_deg matches Some(x) ==> fields[roll] == ("roll_deg"@, ValueView::Number(x)));
    assert(record.fov_deg matches Some(x) ==> fields[fov] == ("fov_deg"@, ValueView::Number(x)));
    assert(record.rmse_arcsec matches Some(x) ==> fields[rmse] == ("rmse_arcsec"@, ValueView::Number(x)));
    assert(record.num_matches matches Some(n) ==> fields[matches] == ("num_matches"@, ValueView::Integer(n as int)));
    assert(record.solve_ms matches Some(x) ==> fields[solve] == ("solve_ms"@, ValueView::Number(x)));
    assert(record.pipeline_ms matches Some(x) ==> fields[pipeline] == ("pipeline_ms"@, ValueView::Number(x)));
}

/// The line of a slew carries the fields of its record, each under its name and in
/// order, and no field for what is absent.
pub proof fn law_slew_line_carries_its_fields(record: GotoRecord, line: Vec<JsonPiece>)
    requires
        call_ensures(GotoRecord::to_line, (&record,), line),
    ensures
        ({
            let ra = 3 + count(record.source is Some);
            let dec = ra + count(record.ra_deg is Some);
            let end = dec + count(record.dec_deg is Some);
            &&& line.len() == 2 * end + 1
            &&& carries(line@, 0, "type"@, ValueView::Text(record.kind@))
            &&& carries(line@, 1, "time"@, ValueView::Text(record.time@))
            &&& carries(line@, 2, "action"@, ValueView::Text(record.action@))
            &&& record.source matches Some(s) ==> carries(line@, 3, "source"@, ValueView::Text(s@))
            &&& record.ra_deg matches Some(x) ==> carries(line@, ra, "ra_deg"@, ValueView::Number(x))
            &&& record.dec_deg matches Some(x) ==> carries(line@, dec, "dec_deg"@, ValueView::Number(x))
        }),
{
    let fields = record.fields();
    assert forall|i: int| 0 <= i < fields.len() implies carries(line@, i, (#[trigger] fields[i]).0, fields[i].1)
        && line.len() == 2 * fields.len() + 1 by {
        lemma_carries(line@, fields, i);
    }
    let ra = 3 + count(record.source is Some);
    let dec = ra + count(record.ra_deg is Some);
    let end = dec + count(record.dec_deg is Some);
    assert(fields.len() == end);
    assert(fields[0].0 == "type"@ && fields[1].0 == "time"@ && fields[2].0 == "action"@);
    assert(record.source matches Some(s) ==> fields[3] == ("source"@, ValueView::Text(s@)));
    assert(record.ra_deg matches Some(x) ==> fields[ra] == ("ra_deg"@, ValueView::Number(x)));
    assert(record.dec_deg matches Some(x) ==> fields[dec] == ("dec_deg"@, ValueView::Number(x)));
}

/// A frame has valid times when each of them is on the clock: its whole seconds fit in 64
/// bits.
pub proof fn law_frame_times_are_on_the_clock(frame: SolvedFrame, b: bool)
    requires
        call_ensures(SolvedFrame::has_valid_times, (&frame,), b),
    ensures
        b <==> {
            let (start, end) = (-9_223_372_036_854_775_808_000_000_000int, 9_223_372_036_854_775_808_000_000_000int);
            &&& start <= frame.readout_time.nanos < end
            &&& frame.solve_finish_time matches Some(t) ==> start <= t.nanos < end
        },
{
}

/// The seconds between solve records are those that are given, where they make a duration;
/// otherwise there is one.
pub proof fn law_interval_is_the_given_one(interval_secs: Option<Double>, b: bool, secs: Double)
    requires
        call_ensures(throttle_secs, (interval_secs,), secs),
        interval_secs matches Some(v) ==> call_ensures(fits_duration, (v,), b),
    ensures
        interval_secs matches Some(v) ==> b ==> secs == v,
        interval_secs matches Some(v) ==> !b ==> secs.units() == one(),
        interval_secs is None ==> secs.units() == one(),
{
    lemma_integer(1);
    assert(1 * one() == one());
}

} // verus!
