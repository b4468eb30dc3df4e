use chrono::{Datelike, NaiveDate};
use time_coord::date::RangedDate;
use time_coord::instant::Date;

fn day(year: i32, month: u32, day: u32) -> Date {
    Date { days: NaiveDate::from_ymd_opt(year, month, day).unwrap().num_days_from_ce() }
}

fn day_numbers(points: &[Date]) -> Vec<i32> {
    points.iter().map(|d| d.days).collect()
}

#[test]
fn nine_days_with_twenty_points_gives_every_day() {
    let coord = RangedDate(day(2021, 1, 1), day(2021, 1, 10));
    let points = coord.key_points(20);
    assert_eq!(points.len(), 10);
    for (k, point) in points.iter().enumerate() {
        assert_eq!(*point, day(2021, 1, 1 + k as u32));
    }
}

#[test]
fn three_weeks_with_three_points_gives_every_week() {
    let begin = day(2021, 3, 1);
    let coord = RangedDate(begin, Date { days: begin.days + 21 });
    let points = coord.key_points(3);
    assert_eq!(
        day_numbers(&points),
        vec![begin.days, begin.days + 7, begin.days + 14, begin.days + 21]
    );
}

#[test]
fn three_weeks_with_two_points_gives_every_second_week() {
    let begin = day(2021, 3, 1);
    let coord = RangedDate(begin, Date { days: begin.days + 21 });
    let points = coord.key_points(2);
    assert_eq!(day_numbers(&points), vec![begin.days, begin.days + 14]);
}

#[test]
fn hundred_days_with_five_points_gives_every_third_week() {
    let coord = RangedDate(Date { days: 0 }, Date { days: 100 });
    assert_eq!(day_numbers(&coord.key_points(5)), vec![0, 21, 42, 63, 84]);
}

#[test]
fn days_equal_to_the_budget_give_one_point_more() {
    let coord = RangedDate(Date { days: 10 }, Date { days: 15 });
    assert_eq!(day_numbers(&coord.key_points(5)), vec![10, 11, 12, 13, 14, 15]);
}

#[test]
fn less_than_a_week_over_budget_gives_the_first_day() {
    let coord = RangedDate(Date { days: 10 }, Date { days: 15 });
    assert_eq!(day_numbers(&coord.key_points(3)), vec![10]);
}

#[test]
fn single_day_gives_that_day() {
    let coord = RangedDate(Date { days: 42 }, Date { days: 42 });
    assert_eq!(day_numbers(&coord.key_points(3)), vec![42]);
}

#[test]
fn date_ticks_with_empty_budget_are_empty() {
    let coord = RangedDate(Date { days: 0 }, Date { days: 100 });
    assert!(coord.key_points(0).is_empty());
}

#[test]
fn date_ticks_of_inverted_interval_are_empty() {
    let coord = RangedDate(Date { days: 100 }, Date { days: 0 });
    assert!(coord.key_points(10).is_empty());
}

#[test]
fn date_ticks_over_the_whole_range_of_days() {
    let coord = RangedDate(Date { days: i32::MIN }, Date { days: i32::MAX });
    let points = coord.key_points(4);
    assert!(points.len() <= 5);
    assert_eq!(points[0].days, i32::MIN);
    for pair in points.windows(2) {
        assert!(pair[0].days < pair[1].days);
    }
}

#[test]
fn date_ticks_rise_and_stay_inside() {
    for span in 0..200 {
        for budget in 1..12usize {
            let coord = RangedDate(Date { days: -50 }, Date { days: -50 + span });
            let points = coord.key_points(budget);
            assert!(points.len() <= budget + 1);
            assert_eq!(points[0].days, -50);
            for pair in points.windows(2) {
                assert!(pair[0].days < pair[1].days);
            }
            assert!(points.last().unwrap().days <= -50 + span);
        }
    }
}

#[test]
fn next_and_previous_day() {
    let d = day(2020, 2, 28);
    assert_eq!(RangedDate::next_value(&d), day(2020, 2, 29));
    assert_eq!(RangedDate::previous_value(&day(2020, 3, 1)), day(2020, 2, 29));
    assert_eq!(RangedDate::next_value(&RangedDate::previous_value(&d)), d);
    assert_eq!(RangedDate::previous_value(&RangedDate::next_value(&d)), d);
}

#[test]
fn ranged_date_from_range_keeps_the_ends() {
    let coord = RangedDate::from(Date { days: 3 }..Date { days: 9 });
    assert_eq!(coord.0, Date { days: 3 });
    assert_eq!(coord.1, Date { days: 9 });
    let ends = coord.range();
    assert_eq!(ends.start, Date { days: 3 });
    assert_eq!(ends.end, Date { days: 9 });
}
