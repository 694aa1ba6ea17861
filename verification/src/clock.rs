//! Instants and lengths of time, as whole nanoseconds.

use vstd::prelude::*;
use crate::error::CeridwenError;

verus! {

/// An instant: the nanoseconds since the Unix epoch, in UTC.
#[derive(Debug, Clone, Copy, PartialEq, Eq, Structural)]
pub struct Timestamp {
    pub unix_nanos: i128,
}

/// A length of time in nanoseconds, which may be negative.
#[derive(Debug, Clone, Copy, PartialEq, Eq, Structural)]
pub struct Interval {
    pub nanos: i128,
}

/// The nanoseconds of a day.
pub open spec fn nanos_per_day() -> int {
    86_400_000_000_000
}

impl Interval {
    /// The length of `days` days.
    pub open spec fn spec_days(days: i64) -> Interval {
        Interval { nanos: (days * nanos_per_day()) as i128 }
    }

    /// The length of `days` days.
    pub fn days(days: i64) -> (interval: Interval)
        ensures
            interval == Interval::spec_days(days),
    {
        let days: i128 = days as i128;
        Interval { nanos: days * 86_400_000_000_000i128 }
    }
}

/// Calls `time::OffsetDateTime::now_utc` and takes the nanoseconds that the
/// instant lies after the Unix epoch. Nothing is said of the instant: it is
/// whatever the clock of the machine shows.
#[verifier::external_body]
fn now_utc() -> Timestamp {
    Timestamp { unix_nanos: time::OffsetDateTime::now_utc().unix_timestamp_nanos() }
}

/// The instant that `time::OffsetDateTime::parse` reads from a text as a
/// date of RFC 2822, in nanoseconds since the Unix epoch; nothing where the
/// text is no such date.
pub uninterp spec fn rfc2822_instant(text: Seq<char>) -> Option<i128>;

/// Calls `time::OffsetDateTime::parse` with the well-known format of RFC
/// 2822 and takes the nanoseconds that the instant lies after the Unix
/// epoch. What it reads from a text is named `rfc2822_instant`.
#[verifier::external_body]
fn parse_rfc2822(text: &str) -> (r: Result<Timestamp, time::error::Parse>)
    ensures
        match r {
            Ok(at) => rfc2822_instant(text@) == Some(at.unix_nanos),
            Err(_) => rfc2822_instant(text@) is None,
        },
{
    time::OffsetDateTime::parse(text, &time::format_description::well_known::Rfc2822).map(
        |at| Timestamp { unix_nanos: at.unix_timestamp_nanos() },
    )
}

/// What `time::OffsetDateTime::format` writes for an instant, in UTC, with a
/// format description that `time::format_description::parse` has read from
/// `pattern`; nothing where the instant is one that the `time` crate cannot
/// hold, where the pattern is no format description, or where the instant
/// cannot be written with it.
pub uninterp spec fn formatted_instant(unix_nanos: i128, pattern: Seq<char>) -> Option<Seq<char>>;

/// Makes a `time::OffsetDateTime` of the instant and a format description of
/// the pattern, and calls `time::OffsetDateTime::format`. What it writes is
/// named `formatted_instant`.
#[verifier::external_body]
fn format_instant(at: Timestamp, pattern: &str) -> (r: Option<String>)
    ensures
        match r {
            Some(text) => formatted_instant(at.unix_nanos, pattern@) == Some(text@),
            None => formatted_instant(at.unix_nanos, pattern@) is None,
        },
{
    let at = time::OffsetDateTime::from_unix_timestamp_nanos(at.unix_nanos).ok()?;
    let items = time::format_description::parse(pattern).ok()?;
    at.format(&items).ok()
}

impl Timestamp {
    /// The instant that a date of RFC 2822 names.
    pub fn parse_rfc2822(text: &str) -> (r: Result<Timestamp, CeridwenError>)
        ensures
            match r {
                Ok(at) => rfc2822_instant(text@) == Some(at.unix_nanos),
                Err(e) => rfc2822_instant(text@) is None && e is TimeParsing,
            },
    {
        match parse_rfc2822(text) {
            Ok(at) => Ok(at),
            Err(e) => Err(CeridwenError::TimeParsing(e)),
        }
    }

    /// The instant written in UTC after a pattern such as
    /// `[year]-[month]-[day]`.
    pub fn format(&self, pattern: &str) -> (r: Result<String, CeridwenError>)
        ensures
            match r {
                Ok(text) => formatted_instant(self.unix_nanos, pattern@) == Some(text@),
                Err(e) => formatted_instant(self.unix_nanos, pattern@) is None
                    && e is TimeFormatting,
            },
    {
        match format_instant(*self, pattern) {
            Some(text) => Ok(text),
            None => Err(CeridwenError::TimeFormatting),
        }
    }

    /// Whether the instant lies after `other`.
    pub fn is_after(&self, other: Timestamp) -> (later: bool)
        ensures
            later == (self.unix_nanos > other.unix_nanos),
    {
        self.unix_nanos > other.unix_nanos
    }

    /// The present instant.
    pub fn now() -> Timestamp {
        now_utc()
    }

    /// Whether the instant `interval` after `self` lies after `other`.
    pub fn plus_is_after(&self, interval: Interval, other: Timestamp) -> (later: bool)
        ensures
            later == (self.unix_nanos + interval.nanos > other.unix_nanos),
    {
        match self.unix_nanos.checked_add(interval.nanos) {
            Some(sum) => sum > other.unix_nanos,
            None => interval.nanos > 0,
        }
    }

    /// The instant `interval` before `self`, or the earliest or latest
    /// instant that can be written where that one cannot.
    pub open spec fn spec_minus(self, interval: Interval) -> Timestamp {
        Timestamp {
            unix_nanos: if self.unix_nanos - interval.nanos > i128::MAX {
                i128::MAX
            } else if self.unix_nanos - interval.nanos < i128::MIN {
                i128::MIN
            } else {
                (self.unix_nanos - interval.nanos) as i128
            },
        }
    }

    /// The instant `interval` before `self`, or the earliest or latest
    /// instant that can be written where that one cannot.
    pub fn minus(&self, interval: Interval) -> (earlier: Timestamp)
        ensures
            earlier == self.spec_minus(interval),
    {
        match self.unix_nanos.checked_sub(interval.nanos) {
            Some(difference) => Timestamp { unix_nanos: difference },
            None => if interval.nanos < 0 {
                Timestamp { unix_nanos: i128::MAX }
            } else {
                Timestamp { unix_nanos: i128::MIN }
            },
        }
    }
}

} // verus!
