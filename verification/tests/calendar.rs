use chrono::{Datelike, NaiveDate};
use time_coord::calendar::{
    generate_yearly_keypoints, month_ticks, nice_step_for, year_ticks, CivilDate, YearMonth,
};
use time_coord::instant::{Date, DateTime};
use time_coord::monthly::{resolve_months, IntoMonthly, Monthly};
use time_coord::yearly::{IntoYearly, Yearly};

fn day(year: i32, month: u32, day: u32) -> Date {
    Date { days: NaiveDate::from_ymd_opt(year, month, day).unwrap().num_days_from_ce() }
}

fn civil(year: i32, month: u32, day: u32) -> CivilDate {
    CivilDate { year, month, day }
}

fn ym(year: i32, month: u32) -> YearMonth {
    YearMonth { year, month }
}

#[test]
fn two_years_with_twelve_points_give_quarters() {
    let coord = Monthly(day(2020, 1, 1)..day(2021, 12, 31));
    let points = coord.key_points(12);
    let expected = vec![
        day(2020, 1, 1),
        day(2020, 4, 1),
        day(2020, 7, 1),
        day(2020, 10, 1),
        day(2021, 1, 1),
        day(2021, 4, 1),
        day(2021, 7, 1),
        day(2021, 10, 1),
    ];
    assert_eq!(points, expected);
}

#[test]
fn a_century_with_ten_points_gives_decades() {
    let coord = Yearly(day(2000, 1, 1)..day(2100, 1, 1));
    let points = coord.key_points(10);
    let expected: Vec<Date> = (0..=10).map(|k| day(2000 + 10 * k, 1, 1)).collect();
    assert_eq!(points, expected);
}

#[test]
fn monthly_ticks_start_with_the_next_month() {
    let coord = Monthly(day(2021, 1, 15)..day(2021, 6, 20));
    let expected: Vec<Date> = (2..=6).map(|m| day(2021, m, 1)).collect();
    assert_eq!(coord.key_points(12), expected);
}

#[test]
fn monthly_ticks_carry_from_december() {
    let coord = Monthly(day(2020, 12, 15)..day(2021, 3, 1));
    assert_eq!(coord.key_points(12), vec![day(2021, 1, 1), day(2021, 2, 1), day(2021, 3, 1)]);
}

#[test]
fn months_equal_to_the_budget_are_monthly() {
    // three months between January and April, budget three: the bound is included
    let coord = Monthly(day(2021, 1, 1)..day(2021, 4, 1));
    let expected: Vec<Date> = (1..=4).map(|m| day(2021, m, 1)).collect();
    assert_eq!(coord.key_points(3), expected);
}

#[test]
fn months_equal_to_three_times_the_budget_are_quarterly() {
    let coord = Monthly(day(2021, 1, 1)..day(2021, 10, 1));
    assert_eq!(
        coord.key_points(3),
        vec![day(2021, 1, 1), day(2021, 4, 1), day(2021, 7, 1), day(2021, 10, 1)]
    );
}

#[test]
fn five_years_with_twelve_points_give_half_years() {
    let coord = Monthly(day(2015, 1, 1)..day(2020, 1, 1));
    let points = coord.key_points(12);
    assert_eq!(points.len(), 11);
    assert_eq!(points[0], day(2015, 1, 1));
    assert_eq!(points[1], day(2015, 7, 1));
    assert_eq!(points[2], day(2016, 1, 1));
    assert_eq!(points[10], day(2020, 1, 1));
}

#[test]
fn too_many_months_give_yearly_ticks() {
    let coord = Monthly(day(2000, 1, 1)..day(2020, 6, 1));
    assert_eq!(coord.key_points(3), vec![day(2000, 1, 1), day(2010, 1, 1), day(2020, 1, 1)]);
}

#[test]
fn monthly_ticks_of_date_times_are_at_midnight() {
    let begin = DateTime::new(day(2021, 1, 1), 1).unwrap();
    let end = DateTime::new(day(2021, 3, 1), 0).unwrap();
    let points = Monthly(begin..end).key_points(12);
    let expected = vec![
        DateTime::new(day(2021, 2, 1), 0).unwrap(),
        DateTime::new(day(2021, 3, 1), 0).unwrap(),
    ];
    assert_eq!(points, expected);
}

#[test]
fn calendar_ticks_with_empty_budget_are_empty() {
    assert!(Monthly(day(2020, 1, 1)..day(2021, 1, 1)).key_points(0).is_empty());
    assert!(Yearly(day(2020, 1, 1)..day(2021, 1, 1)).key_points(0).is_empty());
}

#[test]
fn calendar_ticks_of_inverted_interval_are_empty() {
    assert!(Monthly(day(2021, 1, 1)..day(2020, 1, 1)).key_points(5).is_empty());
    assert!(Yearly(day(2021, 1, 1)..day(2020, 1, 1)).key_points(5).is_empty());
}

#[test]
fn calendar_ticks_outside_the_calendar_are_empty() {
    let coord = Monthly(Date { days: i32::MIN }..Date { days: i32::MAX });
    assert!(coord.key_points(5).is_empty());
    let coord = Yearly(Date { days: 0 }..Date { days: i32::MAX });
    assert!(coord.key_points(5).is_empty());
}

#[test]
fn single_first_of_month_is_a_tick() {
    let coord = Monthly(day(2021, 5, 1)..day(2021, 5, 1));
    assert_eq!(coord.key_points(5), vec![day(2021, 5, 1)]);
}

#[test]
fn yearly_ticks_keep_the_starting_month() {
    let coord = Yearly(day(2000, 5, 20)..day(2005, 3, 1));
    // from June 2000; March 2005 comes before June, so 2004 is the last year
    let expected: Vec<Date> = (2000..=2004).map(|y| day(y, 6, 1)).collect();
    assert_eq!(coord.key_points(10), expected);
}

#[test]
fn yearly_ticks_step_by_nice_numbers() {
    let coord = Yearly(day(1900, 1, 1)..day(2000, 12, 31));
    assert_eq!(
        coord.key_points(4),
        vec![day(1900, 1, 1), day(1950, 1, 1), day(2000, 1, 1)]
    );
    let expected: Vec<Date> = (0..=5).map(|k| day(1900 + 20 * k, 1, 1)).collect();
    assert_eq!(coord.key_points(5), expected);
}

#[test]
fn month_ticks_exact_values() {
    assert_eq!(
        month_ticks(civil(2020, 11, 2), civil(2021, 2, 28), 12),
        vec![ym(2020, 12), ym(2021, 1), ym(2021, 2)]
    );
    assert_eq!(
        month_ticks(civil(-1, 11, 1), civil(0, 2, 1), 12),
        vec![ym(-1, 11), ym(-1, 12), ym(0, 1), ym(0, 2)]
    );
    assert_eq!(
        month_ticks(civil(2020, 1, 1), civil(2021, 12, 31), 12).len(),
        8
    );
    assert!(month_ticks(civil(2020, 5, 1), civil(2020, 3, 1), 12).is_empty());
    assert!(month_ticks(civil(2020, 5, 1), civil(2021, 3, 1), 0).is_empty());
}

#[test]
fn month_ticks_at_the_ends_of_the_years() {
    let points = month_ticks(civil(i32::MAX, 11, 2), civil(i32::MAX, 12, 31), 5);
    assert_eq!(points, vec![ym(i32::MAX, 12)]);
    assert!(month_ticks(civil(i32::MAX, 12, 2), civil(i32::MAX, 12, 31), 5).is_empty());
    let points = month_ticks(civil(i32::MIN, 1, 1), civil(i32::MAX, 12, 31), 3);
    assert!(points.len() <= 4);
    assert_eq!(points[0], ym(i32::MIN, 1));
}

#[test]
fn year_ticks_exact_values() {
    assert_eq!(
        year_ticks(civil(2000, 12, 2), civil(2003, 1, 1), 10),
        vec![ym(2001, 1), ym(2002, 1), ym(2003, 1)]
    );
    assert_eq!(
        generate_yearly_keypoints(2, 2000, 3, 2010, 3),
        vec![ym(2000, 3), ym(2005, 3), ym(2010, 3)]
    );
    assert_eq!(
        generate_yearly_keypoints(1, 2000, 3, 2010, 3),
        vec![ym(2000, 3), ym(2010, 3)]
    );
    assert_eq!(
        generate_yearly_keypoints(2, 2000, 3, 2010, 2),
        vec![ym(2000, 3), ym(2005, 3)]
    );
    assert!(generate_yearly_keypoints(0, 2000, 3, 2010, 3).is_empty());
    assert!(generate_yearly_keypoints(5, 2011, 3, 2010, 3).is_empty());
}

#[test]
fn nice_steps() {
    assert_eq!(nice_step_for(0, 1), 1);
    assert_eq!(nice_step_for(10, 10), 1);
    assert_eq!(nice_step_for(11, 10), 2);
    assert_eq!(nice_step_for(21, 10), 2);
    assert_eq!(nice_step_for(22, 10), 5);
    assert_eq!(nice_step_for(101, 10), 10);
    assert_eq!(nice_step_for(110, 10), 20);
    assert_eq!(nice_step_for(146_100, 10), 20_000);
    assert_eq!(nice_step_for(1_000_000, 1), 1_000_000);
    assert_eq!(nice_step_for(1_999_999, 1), 1_000_000);
    assert_eq!(nice_step_for(2_000_000, 1), 2_000_000);
}

#[test]
fn resolve_months_asks_the_calendar() {
    let months = vec![ym(1, 1), ym(2020, 2), ym(2020, 3), ym(400_000, 1)];
    let all = (Date { days: i32::MIN }, Date { days: i32::MAX });
    let points: Vec<Date> = resolve_months(&months, all.0, all.1);
    assert_eq!(points, vec![Date { days: 1 }, day(2020, 2, 1), day(2020, 3, 1)]);
    assert_eq!(points[2].days - points[1].days, 29);
}

#[test]
fn resolve_months_keeps_rising_days_inside_the_bounds() {
    let months = vec![ym(2020, 2), ym(2020, 1), ym(2020, 3), ym(2020, 3), ym(2020, 4)];
    let points: Vec<Date> = resolve_months(&months, day(2020, 1, 15), day(2020, 3, 31));
    assert_eq!(points, vec![day(2020, 2, 1), day(2020, 3, 1)]);
    let points: Vec<Date> = resolve_months(&months, day(2020, 2, 2), day(2020, 2, 20));
    assert!(points.is_empty());
}

#[test]
fn next_month_keeps_the_day_of_month() {
    assert_eq!(Monthly::<Date>::next_value(&day(2021, 1, 15)), Some(day(2021, 2, 15)));
    assert_eq!(Monthly::<Date>::next_value(&day(2021, 12, 31)), Some(day(2022, 1, 31)));
    assert_eq!(Monthly::<Date>::next_value(&day(2020, 1, 29)), Some(day(2020, 2, 29)));
}

#[test]
fn next_month_without_that_day_is_none() {
    assert_eq!(Monthly::<Date>::next_value(&day(2021, 1, 31)), None);
    assert_eq!(Monthly::<Date>::next_value(&day(2021, 1, 29)), None);
    assert_eq!(Monthly::<Date>::next_value(&day(2021, 3, 31)), None);
    assert_eq!(Monthly::<Date>::next_value(&Date { days: i32::MAX }), None);
}

#[test]
fn previous_month_keeps_the_day_of_month() {
    assert_eq!(Monthly::<Date>::previous_value(&day(2021, 1, 15)), Some(day(2020, 12, 15)));
    assert_eq!(Monthly::<Date>::previous_value(&day(2021, 3, 28)), Some(day(2021, 2, 28)));
    assert_eq!(Monthly::<Date>::previous_value(&day(2021, 3, 31)), None);
}

#[test]
fn month_steps_of_date_times_go_to_midnight() {
    let noon = DateTime::new(day(2021, 1, 15), 43_200_000_000_000).unwrap();
    assert_eq!(
        Monthly::<DateTime>::next_value(&noon),
        Some(DateTime::new(day(2021, 2, 16), 0).unwrap())
    );
    assert_eq!(
        Monthly::<DateTime>::previous_value(&noon),
        Some(DateTime::new(day(2020, 12, 15), 0).unwrap())
    );
}

#[test]
fn month_steps_lead_back() {
    for &(y, m, d) in &[(2021, 1, 15), (2021, 12, 1), (2020, 3, 29), (1999, 7, 28), (-44, 3, 15)] {
        let start = day(y, m, d);
        let next = Monthly::<Date>::next_value(&start).unwrap();
        assert_eq!(Monthly::<Date>::previous_value(&next), Some(start));
        let previous = Monthly::<Date>::previous_value(&start).unwrap();
        assert_eq!(Monthly::<Date>::next_value(&previous), Some(start));
    }
}

#[test]
fn year_steps_go_to_the_first_of_january() {
    assert_eq!(Yearly::<Date>::next_value(&day(2021, 6, 15)), Some(day(2022, 1, 1)));
    assert_eq!(Yearly::<Date>::previous_value(&day(2021, 6, 15)), Some(day(2020, 1, 1)));
    let late = DateTime::new(day(2021, 12, 31), 1).unwrap();
    assert_eq!(
        Yearly::<DateTime>::previous_value(&late),
        Some(DateTime::new(day(2021, 1, 1), 0).unwrap())
    );
    assert_eq!(
        Yearly::<DateTime>::next_value(&late),
        Some(DateTime::new(day(2022, 1, 1), 0).unwrap())
    );
}

#[test]
fn year_steps_lead_back_from_the_first_of_january() {
    let start = day(2021, 1, 1);
    let next = Yearly::<Date>::next_value(&start).unwrap();
    assert_eq!(Yearly::<Date>::previous_value(&next), Some(start));
    let previous = Yearly::<Date>::previous_value(&start).unwrap();
    assert_eq!(Yearly::<Date>::next_value(&previous), Some(start));
}

#[test]
fn year_steps_outside_the_calendar_are_none() {
    assert_eq!(Yearly::<Date>::next_value(&Date { days: i32::MAX }), None);
    let last = NaiveDate::MAX;
    let last_day = Date { days: last.num_days_from_ce() };
    assert_eq!(Yearly::<Date>::next_value(&last_day), None);
    assert_eq!(Monthly::<Date>::next_value(&last_day), None);
}

#[test]
fn ranges_turn_into_calendar_coordinates() {
    let coord = (day(2020, 1, 1)..day(2020, 3, 1)).monthly();
    assert_eq!(coord.range(), day(2020, 1, 1)..day(2020, 3, 1));
    assert_eq!(coord.key_points(10), vec![day(2020, 1, 1), day(2020, 2, 1), day(2020, 3, 1)]);
    let coord = (day(2020, 1, 1)..day(2022, 3, 1)).yearly();
    assert_eq!(coord.range(), day(2020, 1, 1)..day(2022, 3, 1));
    assert_eq!(coord.key_points(10), vec![day(2020, 1, 1), day(2021, 1, 1), day(2022, 1, 1)]);
}

#[test]
fn calendar_coordinates_map_like_their_interval() {
    let coord = Monthly(day(2020, 1, 1)..day(2020, 1, 11));
    assert_eq!(coord.map(&day(2020, 1, 6), (0, 100)), 50);
    let coord = Yearly(day(2020, 1, 1)..day(2020, 1, 11));
    assert_eq!(coord.map(&day(2020, 1, 6), (100, 0)), 50);
}
