//! The calendar and the local clock, read through `chrono`.
//!
//! Dates are counted in days from the common era (day 1 is 0001-01-01),
//! as `chrono::Datelike::num_days_from_ce` counts them.

use vstd::prelude::*;
use chrono::{Datelike, Offset, TimeZone, Timelike};

verus! {

/// A moment in local time: its calendar fields, its day number, and the
/// instant it names (seconds since the Unix epoch and nanoseconds).
#[derive(Debug, Clone, Copy, PartialEq, Eq)]
pub struct LocalStamp {
    pub year: i32,
    pub month: u32,
    pub day: u32,
    pub hour: u32,
    pub minute: u32,
    pub day_number: i32,
    pub timestamp: i64,
    pub nanos: u32,
}

/// A calendar day: its date and its weekday (Sunday is 0).
#[derive(Debug, Clone, Copy, PartialEq, Eq)]
pub struct DayInfo {
    pub year: i32,
    pub month: u32,
    pub day: u32,
    pub weekday: u32,
}

/// The seconds since the Unix epoch of the wall-clock minute a moment
/// shows, read as if it were UTC.
pub open spec fn wall_seconds(s: LocalStamp) -> int {
    (s.day_number - 719163) * 86400 + s.hour * 3600 + s.minute * 60
}

/// The ranges of the fields of a local moment, and the link between its
/// wall-clock fields and its instant: they differ by the zone's offset,
/// less than a day either way, and the seconds of the minute.
pub open spec fn stamp_valid(s: LocalStamp) -> bool {
    &&& 1 <= s.month <= 12
    &&& 1 <= s.day <= 31
    &&& s.hour < 24
    &&& s.minute < 60
    &&& s.nanos < 2_000_000_000
    &&& wall_seconds(s) - 86400 < s.timestamp < wall_seconds(s) + 86460
}

/// The calendar day with a given day number, if the calendar reaches it
/// (what `NaiveDate::from_num_days_from_ce_opt` gives).
pub uninterp spec fn calendar_day(day_number: i32) -> Option<DayInfo>;

/// Whether `s` falls on the calendar day with its day number.
pub open spec fn stamp_on_its_day(s: LocalStamp) -> bool {
    calendar_day(s.day_number) matches Some(c) && c.year == s.year && c.month == s.month && c.day
        == s.day
}

/// The current local time, from `chrono::Local::now`, which reads
/// `Utc::now` (`DateTime::from_timestamp` of the system time since the
/// epoch, unwrapped) and moves it to the local zone.  Claims the ranges of
/// the fields, that the date is the day its number names, and that the
/// instant is on the calendar, not before the epoch, with a fraction of a
/// second below one second; the moment itself depends on the clock.
#[verifier::external_body]
pub fn local_now() -> (r: LocalStamp)
    ensures
        stamp_valid(r),
        stamp_on_its_day(r),
        timestamp_on_calendar(r.timestamp as int, r.nanos),
        r.timestamp >= 0,
        r.nanos < 1_000_000_000,
{
    let t = chrono::Local::now();
    LocalStamp {
        year: t.year(),
        month: t.month(),
        day: t.day(),
        hour: t.hour(),
        minute: t.minute(),
        day_number: t.date_naive().num_days_from_ce(),
        timestamp: t.timestamp(),
        nanos: t.nanosecond(),
    }
}

/// The day, counted from the common era, of the UTC date of an instant.
pub open spec fn utc_day(secs: int) -> int {
    secs / 86400 + 719163
}

/// Whether the calendar has the days before and after day `d`.
pub open spec fn calendar_has_neighbours(d: int) -> bool {
    &&& i32::MIN < d < i32::MAX
    &&& calendar_day((d - 1) as i32) is Some
    &&& calendar_day((d + 1) as i32) is Some
}

/// Whether `DateTime::from_timestamp(secs, nanos)` names a moment: the UTC
/// day of `secs` (counted from the common era) fits an `i32` and is on the
/// calendar, and `nanos` is a fraction of a second, or of a leap second at
/// the end of a minute.
pub open spec fn timestamp_on_calendar(secs: int, nanos: u32) -> bool {
    let days = utc_day(secs);
    &&& i32::MIN <= days <= i32::MAX
    &&& calendar_day(days as i32) is Some
    &&& nanos < 2_000_000_000
    &&& (nanos >= 1_000_000_000 ==> (secs % 86400) % 60 == 59)
}

/// The local time at an instant, from `chrono::Local.timestamp_opt(..).single()`,
/// with the local date and time read by `NaiveDateTime::checked_add_offset`
/// of the zone's offset (where `DateTime::naive_local` would panic, it gives
/// `None`).  Claims that a result names the instant asked for, with fields
/// in range; that there is none unless `DateTime::from_timestamp` accepts
/// the instant; and that there is one when it does and the calendar has the
/// days on both sides of its UTC day, which an offset of less than a day
/// cannot leave.  Which local fields it has depends on the machine's time
/// zone.
#[verifier::external_body]
pub fn local_at_timestamp(secs: i64, nanos: u32) -> (r: Option<LocalStamp>)
    ensures
        r is Some ==> timestamp_on_calendar(secs as int, nanos),
        timestamp_on_calendar(secs as int, nanos) && calendar_has_neighbours(utc_day(secs as int))
            ==> r is Some,
        r matches Some(s) ==> stamp_valid(s) && stamp_on_its_day(s) && s.timestamp == secs
            && s.nanos == nanos,
{
    let t = chrono::Local.timestamp_opt(secs, nanos).single()?;
    let local = t.naive_utc().checked_add_offset(t.offset().fix())?;
    Some(
        LocalStamp {
            year: local.year(),
            month: local.month(),
            day: local.day(),
            hour: local.hour(),
            minute: local.minute(),
            day_number: local.date().num_days_from_ce(),
            timestamp: t.timestamp(),
            nanos: local.nanosecond(),
        },
    )
}

/// The calendar day with a given day number, from
/// `chrono::NaiveDate::from_num_days_from_ce_opt`, with its weekday from
/// `Weekday::num_days_from_sunday`.  Claims the ranges of the fields.
#[verifier::external_body]
pub fn day_info(day_number: i32) -> (r: Option<DayInfo>)
    ensures
        r == calendar_day(day_number),
        r matches Some(d) ==> 1 <= d.month <= 12 && 1 <= d.day <= 31 && d.weekday < 7,
{
    let d = chrono::NaiveDate::from_num_days_from_ce_opt(day_number)?;
    Some(
        DayInfo {
            year: d.year(),
            month: d.month(),
            day: d.day(),
            weekday: d.weekday().num_days_from_sunday(),
        },
    )
}

/// The local moment at `hour:minute:00` on a day, from
/// `NaiveDate::and_hms_opt(..).and_local_timezone(chrono::Local).single()`.
/// Claims that a result is that wall-clock time on that day, with no
/// fraction of a second; whether the time exists once (and which instant it
/// is) depends on the machine's time zone.
#[verifier::external_body]
pub fn resolve_local(day_number: i32, hour: u32, minute: u32) -> (r: Option<LocalStamp>)
    requires
        hour < 24,
        minute < 60,
    ensures
        r matches Some(s) ==> stamp_valid(s) && stamp_on_its_day(s) && s.day_number
            == day_number && s.hour == hour && s.minute == minute && s.nanos == 0,
{
    let d = chrono::NaiveDate::from_num_days_from_ce_opt(day_number)?;
    let t = d.and_hms_opt(hour, minute, 0)?.and_local_timezone(chrono::Local).single()?;
    Some(
        LocalStamp {
            year: t.year(),
            month: t.month(),
            day: t.day(),
            hour: t.hour(),
            minute: t.minute(),
            day_number: t.date_naive().num_days_from_ce(),
            timestamp: t.timestamp(),
            nanos: t.nanosecond(),
        },
    )
}

} // verus!
