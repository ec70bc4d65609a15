use chrono::{NaiveTime, Weekday};
use week_schedule::get_week_schedule_time_index;
use week_schedule::clock::days_from_monday;
use week_schedule::utils::{pack_time_index, MAX_TIME_INDEX};

fn hms(hour: u32, minute: u32, second: u32) -> NaiveTime {
    NaiveTime::from_hms_opt(hour, minute, second).unwrap()
}

fn all_days() -> Vec<Weekday> {
    vec![
        Weekday::Mon,
        Weekday::Tue,
        Weekday::Wed,
        Weekday::Thu,
        Weekday::Fri,
        Weekday::Sat,
        Weekday::Sun,
    ]
}

#[test]
fn test_get_week_schedule_time_index() {
    let wd = Weekday::Mon;
    let time = hms(12, 0, 0);
    assert_eq!(get_week_schedule_time_index(wd, time), 120000);
}

#[test]
fn test_day_value() {
    let mon = get_week_schedule_time_index(Weekday::Mon, hms(0, 0, 0));
    let tue = get_week_schedule_time_index(Weekday::Tue, hms(0, 0, 0));

    println!("mon: {}, tue: {}", mon, tue);

    assert_eq!(mon < tue, true);
}

#[test]
fn test_h_value() {
    let mon1 = get_week_schedule_time_index(Weekday::Mon, hms(0, 0, 59));
    let mon2 = get_week_schedule_time_index(Weekday::Mon, hms(1, 0, 0));
    let mon3 = get_week_schedule_time_index(Weekday::Mon, hms(9, 0, 0));
    let mon4 = get_week_schedule_time_index(Weekday::Mon, hms(23, 0, 0));

    let result = mon1 < mon2 && mon2 < mon3 && mon3 < mon4;

    assert_eq!(result, true);
}

#[test]
fn test_get_week_schedule_time_index_sun() {
    let wd = Weekday::Sun;
    let time = hms(23, 59, 59);
    assert_eq!(get_week_schedule_time_index(wd, time), 6235959);
}

#[test]
fn test_get_week_schedule_time_index_sun2() {
    let wd = Weekday::Sun;
    let time = hms(1, 59, 59);
    assert_eq!(get_week_schedule_time_index(wd, time), 6015959);
}

#[test]
fn index_of_monday_midnight_is_zero() {
    assert_eq!(get_week_schedule_time_index(Weekday::Mon, hms(0, 0, 0)), 0);
}

#[test]
fn index_reads_every_part_of_its_input() {
    assert_eq!(get_week_schedule_time_index(Weekday::Wed, hms(13, 47, 21)), 2_134_721);
    assert_eq!(get_week_schedule_time_index(Weekday::Thu, hms(13, 47, 21)), 3_134_721);
    assert_eq!(get_week_schedule_time_index(Weekday::Wed, hms(14, 47, 21)), 2_144_721);
    assert_eq!(get_week_schedule_time_index(Weekday::Wed, hms(13, 48, 21)), 2_134_821);
    assert_eq!(get_week_schedule_time_index(Weekday::Wed, hms(13, 47, 22)), 2_134_722);
}

#[test]
fn index_of_each_weekday_at_nine() {
    let expected: Vec<u32> = vec![90_000, 1_090_000, 2_090_000, 3_090_000, 4_090_000, 5_090_000, 6_090_000];
    let days = all_days();
    for i in 0..7 {
        assert_eq!(get_week_schedule_time_index(days[i], hms(9, 0, 0)), expected[i]);
    }
}

#[test]
fn index_drops_fractions_of_a_second() {
    let whole = hms(7, 30, 15);
    let with_millis = NaiveTime::from_hms_milli_opt(7, 30, 15, 999).unwrap();
    let with_nanos = NaiveTime::from_hms_nano_opt(7, 30, 15, 1).unwrap();
    let expected = 4_073_015;
    assert_eq!(get_week_schedule_time_index(Weekday::Fri, whole), expected);
    assert_eq!(get_week_schedule_time_index(Weekday::Fri, with_millis), expected);
    assert_eq!(get_week_schedule_time_index(Weekday::Fri, with_nanos), expected);
}

#[test]
fn index_of_a_leap_second_stays_in_the_minute() {
    let leap = NaiveTime::from_hms_milli_opt(23, 59, 59, 1_500).unwrap();
    assert_eq!(get_week_schedule_time_index(Weekday::Sun, leap), 6_235_959);
}

#[test]
fn earlier_weekday_has_smaller_index_at_any_time() {
    let days = all_days();
    let times = vec![hms(0, 0, 0), hms(9, 0, 0), hms(12, 34, 56), hms(23, 59, 59)];
    for t in times.iter() {
        for i in 0..7 {
            for j in (i + 1)..7 {
                assert!(
                    get_week_schedule_time_index(days[i], *t)
                        < get_week_schedule_time_index(days[j], *t)
                );
            }
        }
    }
}

#[test]
fn last_second_of_a_day_is_below_first_of_the_next() {
    let days = all_days();
    for i in 0..6 {
        assert!(
            get_week_schedule_time_index(days[i], hms(23, 59, 59))
                < get_week_schedule_time_index(days[i + 1], hms(0, 0, 0))
        );
    }
}

#[test]
fn earlier_time_has_smaller_index_on_each_day() {
    let times = vec![
        hms(0, 0, 0),
        hms(0, 0, 1),
        hms(0, 0, 59),
        hms(0, 1, 0),
        hms(0, 59, 59),
        hms(1, 0, 0),
        hms(9, 0, 0),
        hms(12, 30, 30),
        hms(23, 0, 0),
        hms(23, 59, 58),
        hms(23, 59, 59),
    ];
    for day in all_days() {
        for i in 0..times.len() {
            for j in (i + 1)..times.len() {
                assert!(
                    get_week_schedule_time_index(day, times[i])
                        < get_week_schedule_time_index(day, times[j])
                );
            }
        }
    }
}

#[test]
fn index_stays_within_the_week() {
    assert_eq!(MAX_TIME_INDEX, 6_235_959);
    for day in all_days() {
        for hour in 0..24 {
            for minute in [0u32, 1, 30, 59] {
                for second in [0u32, 1, 30, 59] {
                    let key = get_week_schedule_time_index(day, hms(hour, minute, second));
                    assert!(key <= 6_235_959);
                }
            }
        }
    }
}

#[test]
fn different_seconds_have_different_indices() {
    let a = get_week_schedule_time_index(Weekday::Tue, hms(10, 0, 0));
    let b = get_week_schedule_time_index(Weekday::Tue, hms(9, 59, 59));
    let c = get_week_schedule_time_index(Weekday::Mon, hms(23, 59, 59));
    assert_eq!(a, 1_100_000);
    assert_eq!(b, 1_095_959);
    assert_eq!(c, 235_959);
    assert_ne!(a, b);
    assert_ne!(b, c);
}

#[test]
fn pack_time_index_gives_the_decimal_layout() {
    assert_eq!(pack_time_index(0, 0, 0, 0), 0);
    assert_eq!(pack_time_index(0, 12, 0, 0), 120_000);
    assert_eq!(pack_time_index(6, 23, 59, 59), 6_235_959);
    assert_eq!(pack_time_index(6, 1, 59, 59), 6_015_959);
    assert_eq!(pack_time_index(3, 4, 5, 6), 3_040_506);
}

#[test]
fn pack_time_index_agrees_with_the_calendar_types() {
    let days = all_days();
    for d in 0..7u32 {
        let key = get_week_schedule_time_index(days[d as usize], hms(21, 43, 7));
        assert_eq!(key, pack_time_index(d, 21, 43, 7));
    }
}

#[test]
fn days_from_monday_counts_as_chrono_does() {
    let expected: Vec<u32> = vec![0, 1, 2, 3, 4, 5, 6];
    let days = all_days();
    for i in 0..7 {
        assert_eq!(days_from_monday(days[i]), expected[i]);
        assert_eq!(days_from_monday(days[i]), days[i].num_days_from_monday());
        assert_eq!(days_from_monday(days[i]), days[i] as u32);
    }
}
