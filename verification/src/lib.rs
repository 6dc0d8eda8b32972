//! A timezone engine: it parses the standard binary timezone rule-file
//! format into an immutable transition table, converts between absolute
//! instants and civil (broken-down) times under a zone's UTC-offset and
//! daylight-saving rules, and maps between POSIX time and leap-second-aware
//! time.
//!
//! The rule bytes are supplied by the caller; this crate performs no
//! filesystem or environment access.

use vstd::prelude::*;

pub mod calendar;
pub mod laws;
pub mod parse;
pub mod table;
pub mod timezone;

pub use timezone::Timezone;

verus! {

use crate::calendar::break_down;
use crate::calendar::civil_days_x;
use crate::calendar::civil_secs;
use crate::calendar::day_of_epoch;
use crate::calendar::days_before_month;
use crate::calendar::days_in_month;
use crate::calendar::fdiv;
use crate::calendar::fmod;
use crate::calendar::representable_secs;
use crate::calendar::weekday_of_day;
use crate::calendar::ABS_DAY_MAX;
use crate::calendar::ABS_DAY_MIN;
use crate::calendar::EPOCH_DAY;
use crate::calendar::YEAR_MAX;
use crate::calendar::YEAR_MIN;
use vstd::string::StringExecFns;

/// Absolute time: seconds since 1970-01-01 00:00:00 UTC, zone-independent.
pub type TimeT = i64;

/// Why an operation could not produce a value.
#[derive(Clone, Copy, Debug, PartialEq, Eq, Structural)]
pub enum Error {
    /// Rule bytes end before a declared count is satisfied.
    TruncatedInput,
    /// The rule bytes do not begin with the magic identifier.
    BadMagic,
    /// The rule-file version byte is unrecognized.
    UnsupportedVersion,
    /// An abbreviation index is out of range or the pool is not valid text.
    MalformedAbbreviation,
    /// A count, offset or record in the rule bytes is out of its valid range.
    MalformedData,
    /// A zone name or label is not valid text.
    EncodingError,
    /// The requested civil time denotes no instant (or none representable).
    InvalidCivilTime,
    /// The instant's civil date lies outside the representable year range.
    Overflow,
}

/// A broken-down time, logically equivalent to the C `struct tm`.
#[derive(Clone, Debug)]
pub struct Tm {
    /// Seconds `[0, 60]` (60 allowed for a leap second on input).
    pub tm_sec: i32,
    /// Minutes `[0, 59]`.
    pub tm_min: i32,
    /// Hour `[0, 23]`.
    pub tm_hour: i32,
    /// Day of the month `[1, 31]`.
    pub tm_mday: i32,
    /// Month `[0, 11]` (January = 0).
    pub tm_mon: i32,
    /// Year minus 1900.
    pub tm_year: i32,
    /// Day of the week `[0, 6]` (Sunday = 0); derived, ignored on input.
    pub tm_wday: i32,
    /// Day of the year `[0, 365]` (January 1 = 0); derived, ignored on input.
    pub tm_yday: i32,
    /// Daylight-saving flag: positive = DST, zero = standard, negative = unknown.
    pub tm_isdst: i32,
    /// Seconds east of UTC.
    pub tm_gmtoff: i64,
    /// Timezone abbreviation.
    pub tm_zone: String,
}

impl PartialEq for Tm {
    fn eq(&self, o: &Tm) -> (r: bool) {
        self.tm_sec == o.tm_sec && self.tm_min == o.tm_min && self.tm_hour == o.tm_hour
            && self.tm_mday == o.tm_mday && self.tm_mon == o.tm_mon && self.tm_year == o.tm_year
            && self.tm_wday == o.tm_wday && self.tm_yday == o.tm_yday && self.tm_isdst
            == o.tm_isdst && self.tm_gmtoff == o.tm_gmtoff && self.tm_zone == o.tm_zone
    }
}

impl vstd::std_specs::cmp::PartialEqSpecImpl for Tm {
    open spec fn obeys_eq_spec() -> bool {
        true
    }

    open spec fn eq_spec(&self, o: &Tm) -> bool {
        &&& self.tm_sec == o.tm_sec
        &&& self.tm_min == o.tm_min
        &&& self.tm_hour == o.tm_hour
        &&& self.tm_mday == o.tm_mday
        &&& self.tm_mon == o.tm_mon
        &&& self.tm_year == o.tm_year
        &&& self.tm_wday == o.tm_wday
        &&& self.tm_yday == o.tm_yday
        &&& self.tm_isdst == o.tm_isdst
        &&& self.tm_gmtoff == o.tm_gmtoff
        &&& self.tm_zone@ == o.tm_zone@
    }
}

/// The date and time-of-day fields within their calendar ranges, with the
/// derived weekday and year-day consistent with them.
pub open spec fn tm_fields_wf(tm: Tm) -> bool {
    &&& YEAR_MIN <= 1900 + tm.tm_year < YEAR_MAX
    &&& 0 <= tm.tm_mon < 12
    &&& 1 <= tm.tm_mday <= days_in_month(1900 + tm.tm_year, tm.tm_mon as int)
    &&& 0 <= tm.tm_hour < 24
    &&& 0 <= tm.tm_min < 60
    &&& 0 <= tm.tm_sec < 60
    &&& tm.tm_wday == weekday_of_day(
        day_of_epoch(1900 + tm.tm_year, tm.tm_mon as int, tm.tm_mday as int),
    )
    &&& tm.tm_yday == days_before_month(1900 + tm.tm_year, tm.tm_mon as int) + tm.tm_mday - 1
}

/// The instant the date and time-of-day fields denote, read as UTC.
pub open spec fn tm_utc_secs(tm: Tm) -> int {
    civil_secs(
        1900 + tm.tm_year,
        tm.tm_mon as int,
        tm.tm_mday as int,
        tm.tm_hour as int,
        tm.tm_min as int,
        tm.tm_sec as int,
    )
}

/// The normalized epoch day of possibly out-of-range fields: seconds, minutes
/// and hours are summed and carried into days, excess months into years, and
/// the day-of-month offsets the month's first day.
pub open spec fn tm_norm_days(tm: Tm) -> int {
    let tot = tm.tm_sec + 60 * tm.tm_min + 3600 * tm.tm_hour;
    let y = 1900 + tm.tm_year + tm.tm_mon as int / 12;
    day_of_epoch(y, tm.tm_mon as int % 12, tm.tm_mday as int) + tot / 86400
}

/// The normalized time of day, in seconds.
pub open spec fn tm_norm_sod(tm: Tm) -> int {
    (tm.tm_sec + 60 * tm.tm_min + 3600 * tm.tm_hour) % 86400
}

/// The instant denoted by possibly out-of-range fields after normalization.
pub open spec fn tm_norm_secs(tm: Tm) -> int {
    86400 * tm_norm_days(tm) + tm_norm_sod(tm)
}

/// Whether the normalized fields denote a date in the representable range.
pub open spec fn tm_norm_ok(tm: Tm) -> bool {
    ABS_DAY_MIN <= tm_norm_days(tm) + EPOCH_DAY < ABS_DAY_MAX
}

/// Normalizes the fields of `tm` to an epoch day and a time of day.
pub(crate) fn tm_normalize(tm: &Tm) -> (r: (i64, i64))
    ensures
        r.0 as int == tm_norm_days(*tm),
        r.1 as int == tm_norm_sod(*tm),
        0 <= r.1 < 86400,
{
    let tot: i64 = tm.tm_sec as i64 + 60 * (tm.tm_min as i64) + 3600 * (tm.tm_hour as i64);
    let ed = fdiv(tot, 86400);
    let sod = fmod(tot, 86400);
    let yc = fdiv(tm.tm_mon as i64, 12);
    let mn = fmod(tm.tm_mon as i64, 12);
    let y = 1900 + tm.tm_year as i64 + yc;
    let days = civil_days_x(y, mn, tm.tm_mday as i64) + ed;
    (days, sod)
}

/// Builds a `Tm` from decomposed fields, an offset and a zone label.
pub(crate) fn assemble_tm(f: crate::calendar::Fields, isdst: i32, gmtoff: i64, zone: String) -> (r:
    Tm)
    requires
        crate::calendar::fields_wf(f),
    ensures
        tm_fields_wf(r),
        tm_utc_secs(r) == crate::calendar::fields_secs(f),
        r.tm_isdst == isdst,
        r.tm_gmtoff == gmtoff,
        r.tm_zone == zone,
{
    Tm {
        tm_sec: f.sec as i32,
        tm_min: f.min as i32,
        tm_hour: f.hour as i32,
        tm_mday: f.mday as i32,
        tm_mon: f.mon as i32,
        tm_year: (f.year - 1900) as i32,
        tm_wday: f.wday as i32,
        tm_yday: f.yday as i32,
        tm_isdst: isdst,
        tm_gmtoff: gmtoff,
        tm_zone: zone,
    }
}

/// Converts an instant to civil time in UTC: offset 0, no daylight saving,
/// abbreviation `"UTC"`; every instant maps to exactly one civil time.
pub fn gmtime(time: TimeT) -> (r: Result<Tm, Error>)
    ensures
        r is Ok <==> representable_secs(time as int),
        r is Err ==> r == Err::<Tm, Error>(Error::Overflow),
        r is Ok ==> tm_fields_wf(r->Ok_0) && tm_utc_secs(r->Ok_0) == time as int,
        r is Ok ==> r->Ok_0.tm_isdst == 0 && r->Ok_0.tm_gmtoff == 0 && r->Ok_0.tm_zone@ == "UTC"@,
{
    match break_down(time) {
        None => Err(Error::Overflow),
        Some(f) => Ok(assemble_tm(f, 0, 0, <String as StringExecFns>::from_str("UTC"))),
    }
}

/// Converts civil time, read as UTC, to an instant. Out-of-range fields are
/// normalized by carrying; the daylight-saving hint and zone fields are
/// ignored. Fails only when the date leaves the representable year range.
pub fn timegm(tm: &Tm) -> (r: Result<TimeT, Error>)
    ensures
        r is Ok <==> tm_norm_ok(*tm),
        r is Err ==> r == Err::<TimeT, Error>(Error::InvalidCivilTime),
        r is Ok ==> r->Ok_0 as int == tm_norm_secs(*tm),
{
    let (days, sod) = tm_normalize(tm);
    if days < ABS_DAY_MIN - EPOCH_DAY || days >= ABS_DAY_MAX - EPOCH_DAY {
        return Err(Error::InvalidCivilTime);
    }
    Ok(86400 * days + sod)
}

} // verus!
