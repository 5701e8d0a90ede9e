//! The wall clock, and how its times are written.

use vstd::prelude::*;

use crate::duration::SECOND;

verus! {

/// The format of a time: ISO 8601, in whole seconds, with the offset from UTC.
pub const TIME_FORMAT: &'static str = "%Y-%m-%dT%H:%M:%S%z";

/// The first second that the calendar does not reach: the end of the year 262142.
pub const CALENDAR_END: i64 = 8_210_266_876_800;

/// Seconds in a day.
pub const DAY: i32 = 86_400;

/// A point in time, in nanoseconds since the start of 1970, UTC.
#[derive(Clone, Copy, Debug, PartialEq, Eq, Structural)]
pub struct WallTime {
    pub nanos: i128,
}

impl WallTime {
    /// The seconds of a time fit in an `i64`.
    pub open spec fn is_valid(self) -> bool {
        i64::MIN * SECOND <= self.nanos < (i64::MAX + 1) * SECOND
    }

    /// The whole seconds since the start of 1970. An earlier time counts as its start.
    pub open spec fn epoch_seconds(self) -> int {
        if self.nanos < 0 {
            0
        } else {
            self.nanos as int / SECOND as int
        }
    }

    /// The calendar reaches this time.
    pub open spec fn is_in_calendar(self) -> bool {
        self.epoch_seconds() < CALENDAR_END
    }

    /// How long this is after an earlier time, in nanoseconds: nothing, where that
    /// time is the later one.
    pub open spec fn after(self, earlier: WallTime) -> Option<u128> {
        if earlier.nanos <= self.nanos {
            Some((self.nanos - earlier.nanos) as u128)
        } else {
            None
        }
    }

    pub fn duration_since(&self, earlier: WallTime) -> (r: Option<u128>)
        requires
            self.is_valid(),
            earlier.is_valid(),
        ensures
            r == self.after(earlier),
    {
        if earlier.nanos <= self.nanos {
            Some((self.nanos - earlier.nanos) as u128)
        } else {
            None
        }
    }

    /// Whether the seconds of this time fit in an `i64`.
    pub fn is_on_clock(&self) -> (b: bool)
        ensures
            b == self.is_valid(),
    {
        -9_223_372_036_854_775_808_000_000_000 <= self.nanos && self.nanos < 9_223_372_036_854_775_808_000_000_000
    }

    /// Whether the calendar reaches this time.
    pub fn in_calendar(&self) -> (b: bool)
        ensures
            b == self.is_in_calendar(),
    {
        self.nanos / 1_000_000_000 < 8_210_266_876_800 || self.nanos < 0
    }

    /// The whole seconds since the start of 1970. An earlier time counts as its start.
    pub fn seconds(&self) -> (secs: i64)
        requires
            self.is_in_calendar(),
        ensures
            secs == self.epoch_seconds(),
    {
        if self.nanos < 0 {
            0
        } else {
            (self.nanos / 1_000_000_000) as i64
        }
    }
}

/// An offset from UTC, in seconds, that a time can be written at: less than a day,
/// either way.
pub open spec fn is_offset(offset: i32) -> bool {
    -DAY < offset < DAY
}

/// Whether a time can be written at an offset from UTC, in seconds.
pub fn fits_offset(offset: i32) -> (b: bool)
    ensures
        b == is_offset(offset),
{
    -DAY < offset && offset < DAY
}

/// The text that `chrono` makes of a time, given by its seconds since the start of
/// 1970 and its offset from UTC in seconds, with a `strftime` format.
pub uninterp spec fn formatted_time(secs: int, offset: int, format: Seq<char>) -> Seq<char>;

/// Calls `chrono::DateTime::format` on the time that `chrono::DateTime::from_timestamp`
/// makes of its seconds, at an offset from UTC that `chrono::FixedOffset::east_opt`
/// makes of its seconds.
///
/// Trusted: the text depends on the seconds, the offset and the format alone. How
/// the calendar turns seconds into a date is not stated.
#[verifier::external_body]
fn format_time(secs: i64, offset: i32, format: &str) -> (r: String)
    requires
        0 <= secs < CALENDAR_END,
        is_offset(offset),
        format@ == TIME_FORMAT@,
    ensures
        r@ == formatted_time(secs as int, offset as int, format@),
{
    let zone = chrono::FixedOffset::east_opt(offset).unwrap();
    let utc = chrono::DateTime::from_timestamp(secs, 0).unwrap();
    utc.with_timezone(&zone).format(format).to_string()
}

/// A time as ISO 8601, at an offset from UTC in seconds.
pub open spec fn iso_time(t: WallTime, offset: int) -> Seq<char> {
    formatted_time(t.epoch_seconds(), offset, TIME_FORMAT@)
}

/// A time as ISO 8601, at an offset from UTC in seconds.
pub fn iso_at(t: WallTime, offset: i32) -> (r: String)
    requires
        t.is_in_calendar(),
        is_offset(offset),
    ensures
        r@ == iso_time(t, offset as int),
{
    format_time(t.seconds(), offset, TIME_FORMAT)
}

/// How long one time is after another is what lies between them; nothing, where the
/// other is the later one.
pub proof fn law_time_passes(t: WallTime, earlier: WallTime, r: Option<u128>)
    requires
        call_ensures(WallTime::duration_since, (&t, earlier), r),
        t.is_valid(),
        earlier.is_valid(),
    ensures
        r is Some <==> earlier.nanos <= t.nanos,
        r matches Some(d) ==> earlier.nanos + d == t.nanos,
{
}

/// A time is on the clock when its whole seconds, rounded down, fit in 64 bits.
pub proof fn law_clock_reaches(t: WallTime, b: bool)
    requires
        call_ensures(WallTime::is_on_clock, (&t,), b),
    ensures
        b <==> -0x8000_0000_0000_0000 <= t.nanos as int / 1_000_000_000 <= 0x7fff_ffff_ffff_ffff,
{
}

/// The seconds of a time are the whole ones that have passed since the start of 1970;
/// before it there are none. The calendar reaches a time when it reaches its seconds:
/// they are before the end of the year 262142.
pub proof fn law_seconds_are_whole(t: WallTime, reached: bool, secs: i64)
    requires
        call_ensures(WallTime::in_calendar, (&t,), reached),
        call_ensures(WallTime::seconds, (&t,), secs),
        t.nanos < 8_210_266_876_800_000_000_000,
    ensures
        reached,
        t.nanos < 0 ==> secs == 0,
        t.nanos >= 0 ==> 0 <= t.nanos - secs * 1_000_000_000 < 1_000_000_000,
{
}

/// The calendar does not reach a time after its end.
pub proof fn law_calendar_ends(t: WallTime, reached: bool)
    requires
        call_ensures(WallTime::in_calendar, (&t,), reached),
    ensures
        reached <==> t.nanos < 8_210_266_876_800_000_000_000,
{
}

/// A time is written at any offset of less than a day, either way.
pub proof fn law_offsets_are_below_a_day(offset: i32, b: bool)
    requires
        call_ensures(fits_offset, (offset,), b),
    ensures
        b <==> -86_400 < offset && offset < 86_400,
{
}

/// A time is written by its whole seconds and its offset, as a date, `T`, the time of
/// day and the offset. So all the times of one second are written alike.
pub proof fn law_times_are_written_by_the_second(t: WallTime, secs: i64, offset: i32, r: String)
    requires
        call_ensures(iso_at, (t, offset), r),
        call_ensures(WallTime::seconds, (&t,), secs),
    ensures
        r@ == formatted_time(secs as int, offset as int, "%Y-%m-%dT%H:%M:%S%z"@),
{
}

} // verus!
