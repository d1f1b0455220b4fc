//! Instants and calendar days as plain integers, and their text forms.
//!
//! An instant is a count of seconds since 1970-01-01T00:00:00Z with a
//! nanosecond part; a day is a count of days in the proleptic Gregorian
//! calendar with 0001-01-01 as day 1. The text forms are produced and read by
//! `chrono`.

use vstd::prelude::*;

verus! {

/// An instant in UTC.
#[derive(Clone, Copy, Debug, PartialEq, Eq, PartialOrd, Ord, Hash, Structural)]
pub struct Timestamp {
    /// Whole seconds since the Unix epoch, leap seconds not counted.
    pub secs: i64,
    /// Nanoseconds since the last whole second.
    pub nanos: u32,
}

/// A calendar day.
#[derive(Clone, Copy, Debug, PartialEq, Eq, PartialOrd, Ord, Hash, Structural)]
pub struct Date {
    /// Days since 0000-12-31 in the proleptic Gregorian calendar.
    pub days: i32,
}

impl Timestamp {
    /// `self` is strictly earlier than `other`.
    pub open spec fn precedes(self, other: Timestamp) -> bool {
        self.secs < other.secs || (self.secs == other.secs && self.nanos < other.nanos)
    }

    /// `self` is not later than `other`.
    pub open spec fn not_after(self, other: Timestamp) -> bool {
        self == other || self.precedes(other)
    }

    pub fn new(secs: i64, nanos: u32) -> (t: Timestamp)
        ensures
            t.secs == secs,
            t.nanos == nanos,
    {
        Timestamp { secs, nanos }
    }

    /// Whether `self` is strictly earlier than `other`.
    pub fn before(&self, other: &Timestamp) -> (r: bool)
        ensures
            r == self.precedes(*other),
    {
        self.secs < other.secs || (self.secs == other.secs && self.nanos < other.nanos)
    }

    /// Whole seconds from `earlier` to `self`, clamped to the range of `i64`.
    pub fn seconds_since(&self, earlier: &Timestamp) -> (r: i64)
        ensures
            r as int == clamp_i64(self.secs as int - earlier.secs as int),
    {
        match self.secs.checked_sub(earlier.secs) {
            Some(d) => d,
            None => if self.secs < earlier.secs {
                i64::MIN
            } else {
                i64::MAX
            },
        }
    }
}

/// `v` brought into the range of `i64`.
pub open spec fn clamp_i64(v: int) -> int {
    if v < i64::MIN as int {
        i64::MIN as int
    } else if v > i64::MAX as int {
        i64::MAX as int
    } else {
        v
    }
}

impl Date {
    /// `self` is strictly earlier than `other`.
    pub open spec fn precedes(self, other: Date) -> bool {
        self.days < other.days
    }

    pub fn new(days: i32) -> (d: Date)
        ensures
            d.days == days,
    {
        Date { days }
    }

    /// Whether `self` is strictly earlier than `other`.
    pub fn before(&self, other: &Date) -> (r: bool)
        ensures
            r == self.precedes(*other),
    {
        self.days < other.days
    }
}

/// The text `chrono` writes for the instant `secs`, `nanos`: RFC 3339 with a
/// `Z` suffix and as many fractional digits as the nanoseconds need. `None`
/// where `chrono` cannot represent the instant.
pub uninterp spec fn instant_text(secs: i64, nanos: u32) -> Option<Seq<char>>;

/// The instant that `chrono` reads from `text`, as seconds and nanoseconds,
/// or `None` where it rejects the text.
pub uninterp spec fn text_instant(text: Seq<char>) -> Option<(i64, u32)>;

/// The text `chrono` writes for day number `days` (`YYYY-MM-DD` for the years
/// 0 to 9999). `None` where `chrono` cannot represent the day.
pub uninterp spec fn day_text(days: i32) -> Option<Seq<char>>;

/// The day number that `chrono` reads from `text`, or `None` where it rejects
/// the text.
pub uninterp spec fn text_day(text: Seq<char>) -> Option<i32>;

/// The text `chrono` writes for the UTC calendar day on which the instant
/// `secs`, `nanos` falls. `None` where `chrono` cannot represent the instant.
pub uninterp spec fn instant_day_text(secs: i64, nanos: u32) -> Option<Seq<char>>;

/// Calls `chrono::DateTime::from_timestamp` and, on the instant it gives,
/// `DateTime::to_rfc3339_opts` with `SecondsFormat::AutoSi` and `Z` for UTC.
/// The contract only names the result: it is the text `instant_text` stands
/// for, and `None` exactly where `from_timestamp` refuses the value.
#[verifier::external_body]
pub(crate) fn format_instant(t: &Timestamp) -> (r: Option<String>)
    ensures
        match r {
            Some(s) => instant_text(t.secs, t.nanos) == Some(s@),
            None => instant_text(t.secs, t.nanos) is None,
        },
{
    chrono::DateTime::from_timestamp(t.secs, t.nanos)
        .map(|dt| dt.to_rfc3339_opts(chrono::SecondsFormat::AutoSi, true))
}

/// Calls `str::parse::<chrono::DateTime<chrono::Utc>>`, which reads a relaxed
/// RFC 3339 text and converts it to UTC. The contract only names the result:
/// the seconds and nanoseconds of the instant read are `text_instant`, and
/// `None` exactly where the parse fails.
#[verifier::external_body]
pub(crate) fn parse_instant(text: &str) -> (r: Option<Timestamp>)
    ensures
        match r {
            Some(t) => text_instant(text@) == Some((t.secs, t.nanos)),
            None => text_instant(text@) is None,
        },
{
    match text.parse::<chrono::DateTime<chrono::Utc>>() {
        Ok(dt) => Some(Timestamp { secs: dt.timestamp(), nanos: dt.timestamp_subsec_nanos() }),
        Err(_) => None,
    }
}

/// Calls `chrono::NaiveDate::from_num_days_from_ce_opt` and, on the day it
/// gives, `to_string`. The contract only names the result: it is the text
/// `day_text` stands for, and `None` exactly where the day is out of range.
#[verifier::external_body]
pub(crate) fn format_day(d: &Date) -> (r: Option<String>)
    ensures
        match r {
            Some(s) => day_text(d.days) == Some(s@),
            None => day_text(d.days) is None,
        },
{
    chrono::NaiveDate::from_num_days_from_ce_opt(d.days).map(|day| day.to_string())
}

/// Calls `str::parse::<chrono::NaiveDate>`. The contract only names the
/// result: the day number of the date read is `text_day`, and `None` exactly
/// where the parse fails.
#[verifier::external_body]
pub(crate) fn parse_day(text: &str) -> (r: Option<Date>)
    ensures
        match r {
            Some(d) => text_day(text@) == Some(d.days),
            None => text_day(text@) is None,
        },
{
    match text.parse::<chrono::NaiveDate>() {
        Ok(day) => Some(Date { days: chrono::Datelike::num_days_from_ce(&day) }),
        Err(_) => None,
    }
}

/// Calls `chrono::DateTime::from_timestamp` and, on the instant it gives,
/// `date_naive` and `to_string`. The contract only names the result: it is
/// the text `instant_day_text` stands for, and `None` exactly where
/// `from_timestamp` refuses the value.
#[verifier::external_body]
pub(crate) fn format_day_of(t: &Timestamp) -> (r: Option<String>)
    ensures
        match r {
            Some(s) => instant_day_text(t.secs, t.nanos) == Some(s@),
            None => instant_day_text(t.secs, t.nanos) is None,
        },
{
    chrono::DateTime::from_timestamp(t.secs, t.nanos).map(|dt| dt.date_naive().to_string())
}

} // verus!
