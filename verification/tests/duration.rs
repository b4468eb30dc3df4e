use time_coord::duration::{Duration, RangedDuration, MAX_SPAN_NS};

const MS: i128 = 1_000_000;
const DAY: i128 = 86_400_000_000_000;

fn span(nanos: i128) -> Duration {
    Duration { nanos }
}

fn values(points: &[Duration]) -> Vec<i128> {
    points.iter().map(|d| d.nanos).collect()
}

#[test]
fn one_second_with_ten_points_gives_ten_ticks() {
    let coord = RangedDuration(span(0), span(1_000_000_000));
    let points = coord.key_points(10);
    let expected: Vec<i128> = (0..10).map(|k| k * 100 * MS).collect();
    assert_eq!(values(&points), expected);
}

#[test]
fn ticks_across_zero_are_multiples_of_the_period() {
    let coord = RangedDuration(span(-500 * MS), span(500 * MS));
    assert_eq!(values(&coord.key_points(4)), vec![-500 * MS, 0]);
}

#[test]
fn first_tick_is_rounded_up_for_positive_begin() {
    let coord = RangedDuration(span(30 * MS), span(1030 * MS));
    let expected: Vec<i128> = (1..=10).map(|k| k * 100 * MS).collect();
    assert_eq!(values(&coord.key_points(10)), expected);
}

#[test]
fn first_tick_is_rounded_toward_zero_for_negative_begin() {
    let coord = RangedDuration(span(-1030 * MS), span(-30 * MS));
    let expected: Vec<i128> = (-10..=-1).map(|k| k * 100 * MS).collect();
    assert_eq!(values(&coord.key_points(10)), expected);
}

#[test]
fn duration_ticks_with_empty_budget_are_empty() {
    let coord = RangedDuration(span(0), span(1_000_000_000));
    assert!(coord.key_points(0).is_empty());
}

#[test]
fn duration_ticks_of_empty_or_inverted_interval_are_empty() {
    assert!(RangedDuration(span(5), span(5)).key_points(10).is_empty());
    assert!(RangedDuration(span(5), span(-5)).key_points(10).is_empty());
}

#[test]
fn long_spans_step_by_nice_numbers_of_days() {
    // 146 100 days: more nanoseconds than 64 bits hold
    let coord = RangedDuration(span(0), span(146_100 * DAY));
    let expected: Vec<i128> = (0..8).map(|k| k * 20_000 * DAY).collect();
    assert_eq!(values(&coord.key_points(10)), expected);
}

#[test]
fn long_spans_start_on_the_day_after_a_broken_day() {
    let coord = RangedDuration(span(DAY + DAY / 2), span(146_100 * DAY));
    let points = coord.key_points(10);
    assert_eq!(points[0].nanos, 2 * DAY);
    assert_eq!(points[1].nanos, 20_002 * DAY);
    let coord = RangedDuration(span(-DAY - DAY / 2), span(146_100 * DAY));
    assert_eq!(coord.key_points(10)[0].nanos, 0);
}

#[test]
fn longest_interval_has_ticks() {
    let coord = RangedDuration(span(-MAX_SPAN_NS), span(MAX_SPAN_NS));
    let points = coord.key_points(7);
    assert!(!points.is_empty());
    assert!(points.len() <= 8);
    for pair in points.windows(2) {
        assert!(pair[0].nanos < pair[1].nanos);
    }
    assert!(points[0].nanos >= -MAX_SPAN_NS);
    assert!(points.last().unwrap().nanos < MAX_SPAN_NS);
}

#[test]
fn duration_ticks_rise_and_stay_inside() {
    let intervals: [(i128, i128); 5] =
        [(0, 1), (-7, 1000), (123, 456_789), (-999_999_999_999, 5), (1, 30 * DAY)];
    for &(begin, end) in &intervals {
        for budget in 1..15usize {
            let points = RangedDuration(span(begin), span(end)).key_points(budget);
            assert!(points.len() <= budget + 1);
            for pair in points.windows(2) {
                assert!(pair[0].nanos < pair[1].nanos);
            }
            for p in &points {
                assert!(begin <= p.nanos && p.nanos < end);
            }
        }
    }
}

#[test]
fn duration_builders_and_readers() {
    let d = Duration::nanoseconds(-5);
    assert_eq!(d.nanos, -5);
    assert_eq!(d.num_nanoseconds(), Some(-5));
    assert_eq!(span(i64::MAX as i128 + 1).num_nanoseconds(), None);
    assert_eq!(span(i64::MIN as i128).num_nanoseconds(), Some(i64::MIN));
    assert_eq!(span(3 * DAY + 1).num_days(), 3);
    assert_eq!(span(-3 * DAY - 1).num_days(), -3);
    assert_eq!(span(-DAY + 1).num_days(), 0);
}

#[test]
fn ranged_duration_from_range_keeps_the_ends() {
    let coord = RangedDuration::from(span(1)..span(9));
    assert_eq!(coord.0, span(1));
    assert_eq!(coord.1, span(9));
    let ends = coord.range();
    assert_eq!(ends.start, span(1));
    assert_eq!(ends.end, span(9));
}
