use chrono::{Datelike, NaiveDate};
use time_coord::datetime::RangedDateTime;
use time_coord::instant::{Date, DateTime, TimeValue};

const SECOND: u64 = 1_000_000_000;
const MINUTE: u64 = 60 * SECOND;
const HOUR: u64 = 60 * MINUTE;

fn day(year: i32, month: u32, day: u32) -> Date {
    Date { days: NaiveDate::from_ymd_opt(year, month, day).unwrap().num_days_from_ce() }
}

fn at(date: Date, nanos: u64) -> DateTime {
    DateTime::new(date, nanos).unwrap()
}

#[test]
fn ticks_are_aligned_within_the_day() {
    let d = day(2021, 1, 1);
    let coord = RangedDateTime(at(d, 10 * HOUR + 7 * MINUTE), at(d, 11 * HOUR + 7 * MINUTE));
    // one hour over six points: every ten minutes, on the ten minutes
    let points = coord.key_points(6);
    let expected: Vec<DateTime> =
        (1..=6).map(|k| at(d, 10 * HOUR + k * 10 * MINUTE)).collect();
    assert_eq!(points, expected);
}

#[test]
fn first_tick_moves_to_the_next_day_when_none_is_left() {
    let d = day(2021, 1, 1);
    let next = day(2021, 1, 2);
    let coord = RangedDateTime(at(d, 23 * HOUR + 50 * MINUTE), at(next, HOUR));
    // seventy minutes over five points: every fifteen minutes
    let points = coord.key_points(5);
    let expected: Vec<DateTime> = (0..4).map(|k| at(next, k * 15 * MINUTE)).collect();
    assert_eq!(points, expected);
}

#[test]
fn begin_on_a_tick_is_a_tick() {
    let d = day(2021, 1, 1);
    let coord = RangedDateTime(at(d, 0), at(d, 10 * SECOND));
    let points = coord.key_points(10);
    let expected: Vec<DateTime> = (0..10).map(|k| at(d, k * SECOND)).collect();
    assert_eq!(points, expected);
}

#[test]
fn ten_days_with_twenty_points_gives_every_twelve_hours() {
    let coord = RangedDateTime(at(day(2021, 1, 1), 12 * HOUR), at(day(2021, 1, 11), 12 * HOUR));
    let points = coord.key_points(20);
    assert_eq!(points.len(), 20);
    assert_eq!(points[0], at(day(2021, 1, 1), 12 * HOUR));
    assert_eq!(points[1], at(day(2021, 1, 2), 0));
    assert_eq!(points[19], at(day(2021, 1, 11), 0));
}

#[test]
fn long_spans_fall_back_to_days() {
    let coord = RangedDateTime(at(day(2021, 1, 1), 12 * HOUR), at(day(2021, 1, 11), 12 * HOUR));
    // more than a day per point: weekly from the first whole day
    let points = coord.key_points(5);
    assert_eq!(points, vec![at(day(2021, 1, 2), 0), at(day(2021, 1, 9), 0)]);
}

#[test]
fn spans_beyond_nanoseconds_fall_back_to_days() {
    // 400 years are more nanoseconds than 64 bits hold
    let coord = RangedDateTime(at(day(1800, 1, 1), HOUR), at(day(2200, 1, 1), HOUR));
    let points = coord.key_points(4);
    assert!(!points.is_empty());
    assert!(points.len() <= 5);
    assert_eq!(points[0], at(day(1800, 1, 2), 0));
    for p in &points {
        assert_eq!(p.nanos, 0);
    }
    for pair in points.windows(2) {
        assert!(pair[0] < pair[1]);
    }
}

#[test]
fn fallback_may_end_on_the_end() {
    let coord = RangedDateTime(at(day(2021, 1, 1), 0), at(day(2021, 1, 15), 0));
    // two weeks over two points: more than a day per point, so weekly ticks on whole days
    let points = coord.key_points(2);
    assert_eq!(
        points,
        vec![at(day(2021, 1, 1), 0), at(day(2021, 1, 8), 0), at(day(2021, 1, 15), 0)]
    );
}

#[test]
fn fallback_with_less_than_a_week_gives_the_first_day() {
    let coord = RangedDateTime(at(day(2021, 1, 1), 0), at(day(2021, 1, 4), 0));
    assert_eq!(coord.key_points(2), vec![at(day(2021, 1, 1), 0)]);
}

#[test]
fn whole_days_are_reached_by_the_hour_ladder() {
    let coord = RangedDateTime(at(day(2021, 1, 1), 0), at(day(2021, 1, 4), 0));
    // three days over three points: twelve hours do not fit, the next rung is a day
    assert_eq!(
        coord.key_points(3),
        vec![at(day(2021, 1, 1), 0), at(day(2021, 1, 2), 0), at(day(2021, 1, 3), 0)]
    );
}

#[test]
fn datetime_ticks_with_empty_budget_are_empty() {
    let coord = RangedDateTime(at(day(2021, 1, 1), 0), at(day(2021, 1, 2), 0));
    assert!(coord.key_points(0).is_empty());
}

#[test]
fn datetime_ticks_of_empty_or_inverted_interval_are_empty() {
    let a = at(day(2021, 1, 1), 5);
    let b = at(day(2021, 1, 2), 0);
    assert!(RangedDateTime(a, a).key_points(10).is_empty());
    assert!(RangedDateTime(b, a).key_points(10).is_empty());
}

#[test]
fn datetime_ticks_rise_and_stay_inside() {
    let begin = at(day(2021, 5, 17), 13 * HOUR + 7 * MINUTE + 3);
    for &length in &[1u64, 999, SECOND, 90 * SECOND, 5 * HOUR + 1, 20 * HOUR] {
        let total = begin.nanos + length;
        let end_day = Date { days: begin.date.days + (total / (24 * HOUR)) as i32 };
        let end = at(end_day, total % (24 * HOUR));
        for budget in 1..12usize {
            let points = RangedDateTime(begin, end).key_points(budget);
            assert!(points.len() <= budget + 1);
            for pair in points.windows(2) {
                assert!(pair[0] < pair[1]);
            }
            for p in &points {
                assert!(begin <= *p && *p <= end);
            }
        }
    }
}

#[test]
fn date_floor_and_ceil_of_date_times() {
    let d = day(2021, 6, 15);
    assert_eq!(at(d, 0).date_floor(), d);
    assert_eq!(at(d, 0).date_ceil(), d);
    assert_eq!(at(d, 1).date_floor(), d);
    assert_eq!(at(d, 1).date_ceil(), Date { days: d.days + 1 });
    assert_eq!(at(d, 24 * HOUR - 1).date_ceil(), Date { days: d.days + 1 });
    assert_eq!(d.date_floor(), d);
    assert_eq!(d.date_ceil(), d);
    assert_eq!(DateTime::earliest_after_date(d), at(d, 0));
    assert_eq!(Date::earliest_after_date(d), d);
}

#[test]
fn subtraction_gives_the_span_between() {
    let d = day(2021, 6, 15);
    let later = at(Date { days: d.days + 2 }, 5);
    assert_eq!(later.subtract(&at(d, 7)).nanos, 2 * 86_400_000_000_000 - 2);
    assert_eq!(at(d, 7).subtract(&later).nanos, -(2 * 86_400_000_000_000 - 2));
    assert_eq!(Date { days: 10 }.subtract(&Date { days: 13 }).nanos, -3 * 86_400_000_000_000);
}

#[test]
fn date_time_constructor_checks_the_time_of_day() {
    let d = day(2021, 6, 15);
    assert!(DateTime::new(d, 24 * HOUR).is_none());
    assert!(DateTime::new(d, 24 * HOUR - 1).is_some());
    assert!(DateTime::new(Date { days: i32::MAX }, 1).is_none());
    assert!(DateTime::new(Date { days: i32::MAX }, 0).is_some());
}

#[test]
fn ranged_date_time_from_range_keeps_the_ends() {
    let a = at(day(2021, 1, 1), 5);
    let b = at(day(2021, 1, 2), 0);
    let coord = RangedDateTime::from(a..b);
    assert_eq!(coord.0, a);
    assert_eq!(coord.1, b);
    let ends = coord.range();
    assert_eq!(ends.start, a);
    assert_eq!(ends.end, b);
}
