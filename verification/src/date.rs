//! The coordinate over calendar days.

use crate::arith::{
    ceil_div, lemma_div_of_negation, lemma_nested_div, lemma_quotient_bound, lemma_tick_count,
    lemma_ticks_shape, ticks,
};
use crate::instant::{map_position, Date, TimeValue};
use std::ops::Range;
use vstd::prelude::*;
use vstd::std_specs::convert::FromSpecImpl;

verus! {

/// The day numbers of a sequence of days.
pub open spec fn day_numbers(days: Seq<Date>) -> Seq<int> {
    days.map_values(|d: Date| d@)
}

/// The number of days between ticks for a span of `total_days` days and a
/// budget of `max_points` points: every day where the days fit the budget,
/// else every week where the weeks fit, else as many weeks as spread the
/// weeks over the budget, and never less than one week.
pub open spec fn date_step(total_days: int, max_points: int) -> int {
    let weeks = total_days / 7;
    if 0 < total_days <= max_points {
        1
    } else if 0 < weeks <= max_points {
        7
    } else if ceil_div(weeks, max_points) >= 1 {
        7 * ceil_div(weeks, max_points)
    } else {
        7
    }
}

/// The day numbers of the ticks between day `begin` and day `end`, both
/// included, for a budget of `max_points` points. There is none where the
/// budget is empty or the interval is inverted.
pub open spec fn date_ticks(begin: int, end: int, max_points: int) -> Seq<int> {
    if max_points <= 0 || end < begin {
        Seq::empty()
    } else {
        ticks(begin, date_step(end - begin, max_points), end + 1)
    }
}

/// The step is positive and leaves at most `max_points` whole steps in the span.
pub proof fn lemma_date_step(total_days: int, max_points: int)
    requires
        0 <= total_days,
        0 < max_points,
    ensures
        1 <= date_step(total_days, max_points) <= total_days + 7,
        total_days / date_step(total_days, max_points) <= max_points,
{
    let weeks = total_days / 7;
    let step = date_step(total_days, max_points);
    lemma_quotient_bound(total_days, 7, 0);
    if 0 < total_days <= max_points {
    } else if 0 < weeks <= max_points {
    } else {
        let per_point = ceil_div(weeks, max_points);
        lemma_div_of_negation(weeks, max_points);
        vstd::arithmetic::div_mod::lemma_fundamental_div_mod(weeks, max_points);
        vstd::arithmetic::div_mod::lemma_mod_bound(weeks, max_points);
        lemma_quotient_bound(weeks, max_points, 0);
        let c = step / 7;
        assert(c >= 1 && step == 7 * c);
        assert(c * max_points >= weeks) by (nonlinear_arith)
            requires
                weeks == max_points * (weeks / max_points) + weeks % max_points,
                0 <= weeks % max_points < max_points,
                c >= 1,
                c >= weeks / max_points,
                weeks % max_points != 0 ==> c >= weeks / max_points + 1,
                weeks >= 0,
                max_points >= 1,
        ;
        assert(c <= weeks + 1) by (nonlinear_arith)
            requires
                weeks == max_points * (weeks / max_points) + weeks % max_points,
                0 <= weeks % max_points < max_points,
                c == 1 || c == weeks / max_points || (weeks % max_points != 0 && c == weeks
                    / max_points + 1),
                weeks / max_points >= 0,
                weeks >= 0,
                max_points >= 1,
        ;
        lemma_nested_div(total_days, 7, c);
        lemma_quotient_bound(weeks, c, max_points + 1);
        assert((max_points + 1) * c > weeks) by (nonlinear_arith)
            requires
                c * max_points >= weeks,
                c >= 1,
        ;
        lemma_quotient_bound(total_days, 7, weeks + 1);
    }
}

/// Ticks rise strictly, lie between the two ends, and are at most one more
/// than the budget.
pub proof fn lemma_date_ticks(begin: int, end: int, max_points: int)
    ensures
        max_points >= 0 ==> date_ticks(begin, end, max_points).len() <= max_points + 1,
        forall|k: int|
            0 <= k < date_ticks(begin, end, max_points).len() ==> begin <= #[trigger] date_ticks(
                begin,
                end,
                max_points,
            )[k] <= end,
        forall|j: int, k: int|
            0 <= j < k < date_ticks(begin, end, max_points).len() ==> #[trigger] date_ticks(
                begin,
                end,
                max_points,
            )[j] < #[trigger] date_ticks(begin, end, max_points)[k],
{
    if max_points > 0 && begin <= end {
        let step = date_step(end - begin, max_points);
        lemma_date_step(end - begin, max_points);
        lemma_ticks_shape(begin, step, end + 1);
    }
}

/// The day after `day`.
pub open spec fn day_after(day: Date) -> Date {
    Date { days: (day.days + 1) as i32 }
}

/// The day before `day`.
pub open spec fn day_before(day: Date) -> Date {
    Date { days: (day.days - 1) as i32 }
}

/// The day after the day before a day is that day, and so is the day
/// before the day after it.
pub proof fn lemma_day_round_trip(day: Date)
    ensures
        day.days > i32::MIN ==> day_after(day_before(day)) == day,
        day.days < i32::MAX ==> day_before(day_after(day)) == day,
{
}

/// The coordinate over the calendar days from a first day to a last day.
pub struct RangedDate(pub Date, pub Date);

impl From<Range<Date>> for RangedDate {
    fn from(range: Range<Date>) -> (coord: Self) {
        RangedDate(range.start, range.end)
    }
}

impl FromSpecImpl<Range<Date>> for RangedDate {
    open spec fn obeys_from_spec() -> bool {
        true
    }

    open spec fn from_spec(range: Range<Date>) -> Self {
        RangedDate(range.start, range.end)
    }
}

fn step_for(total_days: i64, max_points: usize) -> (step: i64)
    requires
        0 <= total_days <= u32::MAX,
        max_points > 0,
    ensures
        step == date_step(total_days as int, max_points as int),
{
    let budget: u64 = max_points as u64;
    let days: u64 = total_days as u64;
    let weeks: u64 = days / 7;
    if 0 < days && days <= budget {
        1
    } else if 0 < weeks && weeks <= budget {
        7
    } else {
        proof {
            lemma_div_of_negation(weeks as int, budget as int);
            vstd::arithmetic::div_mod::lemma_fundamental_div_mod(weeks as int, budget as int);
            vstd::arithmetic::div_mod::lemma_mod_bound(weeks as int, budget as int);
            lemma_quotient_bound(weeks as int, budget as int, 0);
            vstd::arithmetic::div_mod::lemma_div_nonincreasing(weeks as int, budget as int);
        }
        let per_point: u64 = if weeks % budget == 0 {
            weeks / budget
        } else {
            weeks / budget + 1
        };
        if per_point >= 1 {
            (7 * per_point) as i64
        } else {
            7
        }
    }
}

impl RangedDate {
    /// The two ends of the coordinate.
    pub fn range(&self) -> (ends: Range<Date>)
        ensures
            ends.start == self.0,
            ends.end == self.1,
    {
        Range { start: self.0, end: self.1 }
    }

    /// The pixel of `value` on the pixel range `limit`.
    pub fn map(&self, value: &Date, limit: (i32, i32)) -> (pixel: i32)
        ensures
            pixel == map_position(
                value.instant() - self.0.instant(),
                self.1.instant() - self.0.instant(),
                limit.0 as int,
                limit.1 as int,
            ),
    {
        Date::map_coord(value, &self.0, &self.1, limit)
    }

    /// The ticks of the coordinate for a budget of `max_points` points.
    pub fn key_points(&self, max_points: usize) -> (points: Vec<Date>)
        ensures
            day_numbers(points@) == date_ticks(self.0@, self.1@, max_points as int),
            points@.len() <= max_points + 1,
            forall|k: int| 0 <= k < points@.len() ==> self.0@ <= #[trigger] points@[k]@ <= self.1@,
            forall|j: int, k: int|
                0 <= j < k < points@.len() ==> #[trigger] points@[j]@ < #[trigger] points@[k]@,
    {
        let begin: i64 = self.0.days as i64;
        let end: i64 = self.1.days as i64;
        let mut points: Vec<Date> = Vec::new();
        if max_points == 0 || end < begin {
            assert(day_numbers(points@) =~= date_ticks(self.0@, self.1@, max_points as int));
            return points;
        }
        let step: i64 = step_for(end - begin, max_points);
        proof {
            lemma_date_step(end - begin, max_points as int);
        }
        let mut current: i64 = begin;
        let ghost mut k: int = 0;
        while current <= end
            invariant
                begin == self.0@,
                end == self.1@,
                1 <= step <= end - begin + 7,
                k >= 0,
                current == begin + k * step,
                k > 0 ==> begin + (k - 1) * step <= end,
                points@.len() == k,
                forall|j: int| 0 <= j < k ==> #[trigger] points@[j]@ == begin + j * step,
            decreases end + step - current,
        {
            proof {
                assert((k + 1) * step == k * step + step) by (nonlinear_arith);
                assert(k * step >= 0) by (nonlinear_arith)
                    requires
                        k >= 0,
                        step >= 1,
                ;
            }
            points.push(Date { days: current as i32 });
            current = current + step;
            proof {
                k = k + 1;
            }
        }
        proof {
            lemma_tick_count(begin as int, step as int, end + 1, k);
            let expected = date_ticks(self.0@, self.1@, max_points as int);
            assert(day_numbers(points@) =~= expected);
            lemma_date_ticks(self.0@, self.1@, max_points as int);
            assert forall|j: int| 0 <= j < points@.len() implies self.0@ <= #[trigger] points@[j]@
                <= self.1@ by {
                assert(points@[j]@ == expected[j]);
            }
            assert forall|i: int, j: int| 0 <= i < j < points@.len() implies #[trigger] points@[i]@
                < #[trigger] points@[j]@ by {
                assert(points@[i]@ == expected[i]);
                assert(points@[j]@ == expected[j]);
            }
        }
        points
    }

    /// The day after `this`.
    pub fn next_value(this: &Date) -> (next: Date)
        requires
            this.days < i32::MAX,
        ensures
            next == day_after(*this),
            next@ == this@ + 1,
    {
        Date { days: this.days + 1 }
    }

    /// The day before `this`.
    pub fn previous_value(this: &Date) -> (previous: Date)
        requires
            this.days > i32::MIN,
        ensures
            previous == day_before(*this),
            previous@ == this@ - 1,
    {
        Date { days: this.days - 1 }
    }
}

} // verus!
