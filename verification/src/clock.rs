//! The local clock: the current instant, and the span of a day between two
//! local midnights.

use crate::calendar::{Date, Day};
use chrono::{Datelike, Local, TimeZone};
use vstd::prelude::*;

verus! {

/// The first second of the year 0, counted from the start of 1970 in UTC.
pub const FIRST_INSTANT: i64 = -62_167_219_200;

/// The last second of the year 9999, counted from the start of 1970 in UTC.
pub const LAST_INSTANT: i64 = 253_402_300_799;

/// `Local::now` and `DateTime::timestamp` of chrono: the current instant in
/// seconds since the start of 1970 in UTC. Nothing is claimed of it.
#[verifier::external_body]
pub(crate) fn current_timestamp() -> i64 {
    Local::now().timestamp()
}

/// `TimeZone::timestamp_opt` and `DateTime::date_naive` of chrono, on the
/// local time zone: the date that the local calendar shows at `instant`, or
/// `None` where chrono names none. Nothing is claimed of it; instants
/// outside the years 0 to 9999, near which chrono may give up, are left out.
#[verifier::external_body]
fn local_date(instant: i64) -> Option<Date>
    requires
        FIRST_INSTANT <= instant <= LAST_INSTANT,
{
    let date = Local.timestamp_opt(instant, 0).single()?.date_naive();
    Some(Date { year: date.year(), month: date.month(), day: date.day() })
}

/// `TimeZone::with_ymd_and_hms` of chrono, on the local time zone: the
/// instant at which `date` begins on the local clock, the earlier one where
/// the clock shows that midnight twice, or `None` where the clock skips it.
/// Nothing is claimed of it.
#[verifier::external_body]
fn local_midnight(date: &Date) -> Option<i64>
    requires
        date.valid(),
{
    let midnight = Local.with_ymd_and_hms(date.year, date.month, date.day, 0, 0, 0).earliest()?;
    Some(midnight.timestamp())
}

impl Day {
    /// The day around `instant`, given the local midnight `first` at which
    /// it begins and the local midnight `after` at which the next day
    /// begins: the seconds from `first` up to the one before `after`. Where
    /// a midnight is not known, or `instant` does not lie between the two,
    /// the day is `instant` alone.
    pub open spec fn spanning(instant: i64, first: Option<i64>, after: Option<i64>) -> Day {
        if first is Some && after is Some && first->0 <= instant < after->0 {
            Day { first: first->0, last: (after->0 - 1) as i64 }
        } else {
            Day { first: instant, last: instant }
        }
    }

    /// Returns the day around `instant` between the two local midnights
    /// `first` and `after`.
    pub fn between(instant: i64, first: Option<i64>, after: Option<i64>) -> (day: Day)
        ensures
            day == Day::spanning(instant, first, after),
            day.covers(instant as int),
    {
        match (first, after) {
            (Some(begin), Some(end)) => {
                if begin <= instant && instant < end {
                    Day { first: begin, last: end - 1 }
                } else {
                    Day { first: instant, last: instant }
                }
            },
            _ => Day { first: instant, last: instant },
        }
    }

    /// Returns the day that the local calendar shows at `instant`, from its
    /// midnight to the second before the next: the span around `instant`
    /// between the two midnights that the local clock gives. Whatever the
    /// clock answers, the day covers `instant`; for an instant outside the
    /// years 0 to 9999 the clock is not asked and the day is `instant` alone.
    pub fn of_instant(instant: i64) -> (day: Day)
        ensures
            exists|first: Option<i64>, after: Option<i64>|
                day == #[trigger] Day::spanning(instant, first, after),
            day.covers(instant as int),
            instant < FIRST_INSTANT || instant > LAST_INSTANT ==> day == (Day {
                first: instant,
                last: instant,
            }),
    {
        if instant < FIRST_INSTANT || instant > LAST_INSTANT {
            return Day::between(instant, None, None);
        }
        match local_date(instant) {
            Some(date) => {
                if !date.is_valid() {
                    return Day::between(instant, None, None);
                }
                let first = local_midnight(&date);
                let after = match date.next() {
                    Some(next) => local_midnight(&next),
                    None => None,
                };
                Day::between(instant, first, after)
            },
            None => Day::between(instant, None, None),
        }
    }

    /// Returns the current day of the local calendar: the span around the
    /// current instant between the two midnights that the local clock gives.
    /// Whatever the clock answers, the day is that span for some instant,
    /// and so holds at least one second.
    pub fn today() -> (day: Day)
        ensures
            exists|now: i64, first: Option<i64>, after: Option<i64>|
                day == #[trigger] Day::spanning(now, first, after) && day.covers(now as int),
            day.first <= day.last,
    {
        Day::of_instant(current_timestamp())
    }
}

/// Returns the instant at which the local clock begins the day `date`, or
/// `None` where the date does not exist or the clock skips its midnight.
pub(crate) fn start_of(date: &Date) -> (instant: Option<i64>)
    ensures
        !date.valid() ==> instant is None,
{
    if date.is_valid() {
        local_midnight(date)
    } else {
        None
    }
}

} // verus!
