use time_coord::period::compute_period_per_point;

const SECOND: u64 = 1_000_000_000;
const MINUTE: u64 = 60 * SECOND;
const HOUR: u64 = 60 * MINUTE;
const DAY: u64 = 24 * HOUR;

#[test]
fn one_second_over_ten_points_is_a_tenth() {
    assert_eq!(compute_period_per_point(SECOND, 10, false), Some(100_000_000));
}

#[test]
fn one_second_over_four_points_is_half_a_second() {
    assert_eq!(compute_period_per_point(SECOND, 4, false), Some(500_000_000));
}

#[test]
fn one_hour_over_six_points_is_ten_minutes() {
    assert_eq!(compute_period_per_point(HOUR, 6, true), Some(10 * MINUTE));
}

#[test]
fn one_day_over_twenty_four_points_is_an_hour() {
    assert_eq!(compute_period_per_point(DAY, 24, true), Some(HOUR));
}

#[test]
fn one_day_over_two_points_is_twelve_hours() {
    assert_eq!(compute_period_per_point(DAY, 2, true), Some(12 * HOUR));
}

#[test]
fn ten_days_over_five_points_has_no_sub_daily_period() {
    assert_eq!(compute_period_per_point(10 * DAY, 5, true), None);
}

#[test]
fn ten_days_over_five_points_is_two_days() {
    assert_eq!(compute_period_per_point(10 * DAY, 5, false), Some(2 * DAY));
}

#[test]
fn a_thousand_days_over_five_points_is_two_hundred_days() {
    assert_eq!(compute_period_per_point(1000 * DAY, 5, false), Some(200 * DAY));
}

#[test]
fn seventy_days_over_ten_points_is_seven_days() {
    // seed 10^14 lies in the day regime: 70 whole days fit 10 points at 7 days
    assert_eq!(compute_period_per_point(70 * DAY, 10, false), Some(7 * DAY));
}

#[test]
fn sub_second_ladder_carries_past_a_second() {
    // seed 10^8: 1, 2, 5 times 10^8 leave 49, 49, 49 > 5, 10, 25 units; 10^9 leaves 4
    assert_eq!(compute_period_per_point(4_900_000_000, 5, false), Some(1_000_000_000));
}

#[test]
fn empty_budget_has_no_period() {
    assert_eq!(compute_period_per_point(SECOND, 0, false), None);
    assert_eq!(compute_period_per_point(0, 0, true), None);
}

#[test]
fn empty_span_has_a_period_of_one_nanosecond() {
    assert_eq!(compute_period_per_point(0, 5, true), Some(1));
}

#[test]
fn span_below_budget_has_a_period_of_one_nanosecond() {
    assert_eq!(compute_period_per_point(3, 1000, false), Some(1));
}

#[test]
fn the_longest_span_has_a_period() {
    let total = i64::MAX as u64;
    let period = compute_period_per_point(total, 1, false).unwrap();
    assert_eq!(period, 10_000 * 10 * DAY);
    assert!(total / period <= 1);
}

#[test]
fn period_keeps_the_count_within_budget() {
    for &total in &[1u64, 7, 999, 86_399 * SECOND, 3 * DAY + 17, 123_456_789_012_345] {
        for &points in &[1usize, 2, 3, 7, 10, 100] {
            let period = compute_period_per_point(total, points, false).unwrap();
            assert!(period >= 1);
            assert!(total / period <= points as u64);
        }
    }
}
