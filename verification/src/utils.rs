//! The index of the week: one number for a weekday and a time of day, ordered
//! as the week runs.

use crate::clock::{days_from_monday, hour, hour_of, minute, minute_of, second, second_of, weekday_number};
use chrono::{NaiveTime, Weekday};
use vstd::prelude::*;

verus! {

/// The greatest index of the week: Sunday, 23:59:59.
pub const MAX_TIME_INDEX: u32 = 6_235_959;

/// Whether the four numbers name a second of the week: a day counted from
/// Monday = 0 to Sunday = 6, and a time of day.
pub open spec fn is_week_time(day: nat, hour: nat, minute: nat, second: nat) -> bool {
    day <= 6 && hour <= 23 && minute <= 59 && second <= 59
}

/// The index of a second of the week: the day in the millions, then two
/// decimal digits each for hour, minute and second.
pub open spec fn time_index(day: nat, hour: nat, minute: nat, second: nat) -> nat {
    day * 1_000_000 + hour * 10_000 + minute * 100 + second
}

/// The index of a weekday and a time as `chrono` reads them.
pub open spec fn week_schedule_time_index(wd: Weekday, time: NaiveTime) -> nat {
    time_index(weekday_number(wd), hour_of(time), minute_of(time), second_of(time))
}

/// Packs a day of the week and a time of day into their index.
pub fn pack_time_index(day: u32, hour: u32, minute: u32, second: u32) -> (key: u32)
    requires
        is_week_time(day as nat, hour as nat, minute as nat, second as nat),
    ensures
        key == time_index(day as nat, hour as nat, minute as nat, second as nat),
        key <= MAX_TIME_INDEX,
{
    day * 1_000_000 + hour * 10_000 + minute * 100 + second
}

/// The index of a weekday and a time of day. Fractions of a second are not
/// part of it.
pub fn get_week_schedule_time_index(wd: Weekday, time: NaiveTime) -> (key: u32)
    ensures
        key == week_schedule_time_index(wd, time),
        key <= MAX_TIME_INDEX,
{
    let day: u32 = days_from_monday(wd);
    let h: u32 = hour(time);
    let m: u32 = minute(time);
    let s: u32 = second(time);
    pack_time_index(day, h, m, s)
}

/// Every index of the week lies between 0 and `MAX_TIME_INDEX`.
pub proof fn lemma_time_index_in_range(day: nat, hour: nat, minute: nat, second: nat)
    requires
        is_week_time(day, hour, minute, second),
    ensures
        0 <= time_index(day, hour, minute, second) <= MAX_TIME_INDEX,
{
}

/// At one time of day, an earlier weekday has the smaller index.
pub proof fn lemma_earlier_weekday_smaller_index(
    day1: nat,
    day2: nat,
    hour: nat,
    minute: nat,
    second: nat,
)
    requires
        day1 < day2,
    ensures
        time_index(day1, hour, minute, second) < time_index(day2, hour, minute, second),
{
}

/// Any time on an earlier weekday has a smaller index than any time on a later
/// one.
pub proof fn lemma_earlier_weekday_below_later_weekday(
    day1: nat,
    hour1: nat,
    minute1: nat,
    second1: nat,
    day2: nat,
    hour2: nat,
    minute2: nat,
    second2: nat,
)
    requires
        is_week_time(day1, hour1, minute1, second1),
        is_week_time(day2, hour2, minute2, second2),
        day1 < day2,
    ensures
        time_index(day1, hour1, minute1, second1) < time_index(day2, hour2, minute2, second2),
{
}

/// Whether the first time of day comes before the second.
pub open spec fn time_before(
    hour1: nat,
    minute1: nat,
    second1: nat,
    hour2: nat,
    minute2: nat,
    second2: nat,
) -> bool {
    hour1 < hour2 || (hour1 == hour2 && (minute1 < minute2 || (minute1 == minute2 && second1
        < second2)))
}

/// On one weekday, an earlier time of day has the smaller index.
pub proof fn lemma_earlier_time_smaller_index(
    day: nat,
    hour1: nat,
    minute1: nat,
    second1: nat,
    hour2: nat,
    minute2: nat,
    second2: nat,
)
    requires
        is_week_time(day, hour1, minute1, second1),
        is_week_time(day, hour2, minute2, second2),
        time_before(hour1, minute1, second1, hour2, minute2, second2),
    ensures
        time_index(day, hour1, minute1, second1) < time_index(day, hour2, minute2, second2),
{
}

/// Two seconds of the week with one index are the same second.
pub proof fn lemma_time_index_is_one_to_one(
    day1: nat,
    hour1: nat,
    minute1: nat,
    second1: nat,
    day2: nat,
    hour2: nat,
    minute2: nat,
    second2: nat,
)
    requires
        is_week_time(day1, hour1, minute1, second1),
        is_week_time(day2, hour2, minute2, second2),
        time_index(day1, hour1, minute1, second1) == time_index(day2, hour2, minute2, second2),
    ensures
        day1 == day2,
        hour1 == hour2,
        minute1 == minute2,
        second1 == second2,
{
}

/// At one time of day, the index of an earlier weekday is below that of a
/// later one, whatever the time.
pub proof fn lemma_earlier_weekday_sorts_first(w1: Weekday, w2: Weekday, time: NaiveTime)
    requires
        weekday_number(w1) < weekday_number(w2),
    ensures
        week_schedule_time_index(w1, time) < week_schedule_time_index(w2, time),
{
}

/// Whether `time` reads as a time of day: an hour up to 23, a minute and a
/// second up to 59. `chrono` gives no other.
pub open spec fn is_time_of_day(time: NaiveTime) -> bool {
    hour_of(time) <= 23 && minute_of(time) <= 59 && second_of(time) <= 59
}

/// On one weekday, the index of an earlier time of day is below that of a
/// later one.
pub proof fn lemma_earlier_time_sorts_first(wd: Weekday, t1: NaiveTime, t2: NaiveTime)
    requires
        is_time_of_day(t1),
        is_time_of_day(t2),
        time_before(
            hour_of(t1),
            minute_of(t1),
            second_of(t1),
            hour_of(t2),
            minute_of(t2),
            second_of(t2),
        ),
    ensures
        week_schedule_time_index(wd, t1) < week_schedule_time_index(wd, t2),
{
}

} // verus!
