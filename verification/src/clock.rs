//! The calendar types of `chrono` that the schedule is addressed by, and the
//! four readings that the index is made of. The place of a weekday is proved
//! from the variants of `Weekday`. The three readings of a `NaiveTime` are
//! not: their contracts restate what `chrono` documents.

use chrono::{NaiveTime, Timelike, Weekday};
use vstd::prelude::*;

verus! {

/// `chrono::Weekday`, with its seven variants.
#[verifier::external_type_specification]
pub struct ExWeekday(Weekday);

/// `chrono::NaiveTime`, carried through as an opaque value.
#[verifier::external_type_specification]
#[verifier::external_body]
pub struct ExNaiveTime(NaiveTime);

/// The place of a weekday in the week, from Monday = 0 to Sunday = 6.
pub open spec fn weekday_number(wd: Weekday) -> nat {
    match wd {
        Weekday::Mon => 0,
        Weekday::Tue => 1,
        Weekday::Wed => 2,
        Weekday::Thu => 3,
        Weekday::Fri => 4,
        Weekday::Sat => 5,
        Weekday::Sun => 6,
    }
}

/// The number that `Timelike::hour` gives for `time`.
pub uninterp spec fn hour_of(time: NaiveTime) -> nat;

/// The number that `Timelike::minute` gives for `time`.
pub uninterp spec fn minute_of(time: NaiveTime) -> nat;

/// The number that `Timelike::second` gives for `time`.
pub uninterp spec fn second_of(time: NaiveTime) -> nat;

/// The place of a weekday in the week, from Monday = 0 to Sunday = 6.
pub fn days_from_monday(wd: Weekday) -> (n: u32)
    ensures
        n == weekday_number(wd),
        n <= 6,
{
    match wd {
        Weekday::Mon => 0,
        Weekday::Tue => 1,
        Weekday::Wed => 2,
        Weekday::Thu => 3,
        Weekday::Fri => 4,
        Weekday::Sat => 5,
        Weekday::Sun => 6,
    }
}

/// Calls `chrono::Timelike::hour` on a `NaiveTime`. Assumed: the result is
/// the hour of the day, from 0 to 23, and depends on the time alone.
#[verifier::external_body]
pub(crate) fn hour(time: NaiveTime) -> (h: u32)
    ensures
        h == hour_of(time),
        h <= 23,
{
    time.hour()
}

/// Calls `chrono::Timelike::minute` on a `NaiveTime`. Assumed: the result is
/// the minute of the hour, from 0 to 59, and depends on the time alone.
#[verifier::external_body]
pub(crate) fn minute(time: NaiveTime) -> (m: u32)
    ensures
        m == minute_of(time),
        m <= 59,
{
    time.minute()
}

/// Calls `chrono::Timelike::second` on a `NaiveTime`. Assumed: the result is
/// the whole second of the minute, from 0 to 59 (never 60, also within a leap
/// second; the fraction of a second plays no part), and depends on the time
/// alone.
#[verifier::external_body]
pub(crate) fn second(time: NaiveTime) -> (s: u32)
    ensures
        s == second_of(time),
        s <= 59,
{
    time.second()
}

} // verus!
