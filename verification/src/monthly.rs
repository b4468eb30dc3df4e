//! A coordinate whose ticks fall on the first days of months.

use crate::arith::ceil_div;
use crate::arith::lemma_round_up;
use crate::calendar::{
    civil, civil_day, civil_fields, civil_from_days, day_of, lemma_month_starts, month_indices,
    month_starts, month_tick_indices, month_ticks, YearMonth,
};
use crate::instant::{instants, map_position, Date, TimeValue};
use crate::period::NS_PER_DAY;
use std::ops::Range;
use vstd::arithmetic::div_mod::{
    lemma_fundamental_div_mod, lemma_fundamental_div_mod_converse, lemma_mod_bound,
};
use vstd::prelude::*;

verus! {

/// The positions on the time line at which the given days start.
pub open spec fn day_instants(days: Seq<int>) -> Seq<int> {
    days.map_values(|d: int| d * NS_PER_DAY)
}

/// The days on which the monthly ticks between two days fall; none where
/// the calendar does not have one of the two days.
pub open spec fn monthly_days(start_day: int, end_day: int, max_points: int) -> Seq<int> {
    match (civil_from_days(start_day), civil_from_days(end_day)) {
        (Some(start), Some(end)) => month_starts(
            month_tick_indices(civil(start), civil(end), max_points),
            start_day,
            end_day,
        ),
        _ => Seq::empty(),
    }
}

/// A day that does not start before an instant, and one that does not
/// start after it, enclose the instant.
pub proof fn lemma_day_bounds(instant: int)
    ensures
        instant <= ceil_div(instant, NS_PER_DAY as int) * NS_PER_DAY,
        (instant / (NS_PER_DAY as int)) * NS_PER_DAY <= instant,
{
    lemma_round_up(instant, NS_PER_DAY as int);
    lemma_fundamental_div_mod(instant, NS_PER_DAY as int);
    lemma_mod_bound(instant, NS_PER_DAY as int);
}

/// The day with the same day of month one month after `day`, where the
/// calendar has both.
pub open spec fn month_after(day: int) -> Option<int> {
    match civil_from_days(day) {
        Some((year, month, day_of_month)) => if month == 12 {
            civil_day(year + 1, 1, day_of_month)
        } else {
            civil_day(year, month + 1, day_of_month)
        },
        None => None,
    }
}

/// The day with the same day of month one month before `day`, where the
/// calendar has both.
pub open spec fn month_before(day: int) -> Option<int> {
    match civil_from_days(day) {
        Some((year, month, day_of_month)) => if month == 1 {
            civil_day(year - 1, 12, day_of_month)
        } else {
            civil_day(year, month - 1, day_of_month)
        },
        None => None,
    }
}

/// The earliest values on the first days of the given months, in order. A
/// month is left out where the calendar does not have its first day, has
/// it outside the days from `low` to `high`, or does not have it after the
/// first day kept before it.
pub fn resolve_months<T: TimeValue>(months: &Vec<YearMonth>, low: Date, high: Date) -> (points:
    Vec<T>)
    requires
        forall|k: int| 0 <= k < months@.len() ==> (#[trigger] months@[k]).valid(),
    ensures
        instants(points@) == day_instants(month_starts(month_indices(months@), low@, high@)),
        forall|k: int| 0 <= k < points@.len() ==> (#[trigger] points@[k]).valid(),
        points@.len() <= months@.len(),
        forall|k: int|
            0 <= k < points@.len() ==> low@ * NS_PER_DAY <= (#[trigger] points@[k]).instant()
                <= high@ * NS_PER_DAY,
        forall|j: int, k: int|
            0 <= j < k < points@.len() ==> (#[trigger] points@[j]).instant() < (
            #[trigger] points@[k]).instant(),
{
    let mut points: Vec<T> = Vec::new();
    let mut last_kept: Option<Date> = None;
    let ghost indices = month_indices(months@);
    let mut i: usize = 0;
    proof {
        assert(indices.take(0) =~= Seq::<int>::empty());
        assert(instants(points@) =~= day_instants(month_starts(indices.take(0), low@, high@)));
    }
    while i < months.len()
        invariant
            0 <= i <= months@.len(),
            indices == month_indices(months@),
            forall|k: int| 0 <= k < months@.len() ==> (#[trigger] months@[k]).valid(),
            instants(points@) == day_instants(month_starts(indices.take(i as int), low@, high@)),
            forall|k: int| 0 <= k < points@.len() ==> (#[trigger] points@[k]).valid(),
            match last_kept {
                Some(day) => month_starts(indices.take(i as int), low@, high@).len() > 0
                    && month_starts(indices.take(i as int), low@, high@).last() == day@,
                None => month_starts(indices.take(i as int), low@, high@).len() == 0,
            },
        decreases months@.len() - i,
    {
        let month: YearMonth = months[i];
        let ghost before = instants(points@);
        let ghost kept = month_starts(indices.take(i as int), low@, high@);
        proof {
            assert(indices.take(i + 1).drop_last() =~= indices.take(i as int));
            assert(indices.take(i + 1).last() == month.index());
            lemma_fundamental_div_mod_converse(
                month.index(),
                12,
                month.year as int,
                month.month - 1,
            );
        }
        match day_of(month.year, month.month, 1) {
            Some(date) => {
                let rises: bool = match last_kept {
                    Some(day) => day.days < date.days,
                    None => true,
                };
                if low.days <= date.days && date.days <= high.days && rises {
                    let point: T = T::earliest_after_date(date);
                    points.push(point);
                    last_kept = Some(date);
                    proof {
                        assert(month_starts(indices.take(i + 1), low@, high@) == kept.push(date@));
                        assert(instants(points@) =~= before.push(date@ * NS_PER_DAY));
                        assert(day_instants(kept.push(date@)) =~= day_instants(kept).push(
                            date@ * NS_PER_DAY,
                        ));
                    }
                }
            },
            None => {},
        }
        i = i + 1;
    }
    proof {
        assert(indices.take(months@.len() as int) =~= indices);
        let kept = month_starts(indices, low@, high@);
        lemma_month_starts(indices, low@, high@);
        assert(instants(points@).len() == points@.len());
        assert forall|k: int| 0 <= k < points@.len() implies low@ * NS_PER_DAY <= (
        #[trigger] points@[k]).instant() <= high@ * NS_PER_DAY by {
            assert(instants(points@)[k] == kept[k] * NS_PER_DAY);
        }
        assert forall|j: int, k: int| 0 <= j < k < points@.len() implies (
        #[trigger] points@[j]).instant() < (#[trigger] points@[k]).instant() by {
            assert(instants(points@)[j] == kept[j] * NS_PER_DAY);
            assert(instants(points@)[k] == kept[k] * NS_PER_DAY);
        }
    }
    points
}

/// A coordinate over an interval of time whose ticks fall on the first days of months.
pub struct Monthly<T: TimeValue>(pub Range<T>);

impl<T: TimeValue> Monthly<T> {
    /// Both ends are values that the operations accept.
    pub open spec fn valid(&self) -> bool {
        self.0.start.valid() && self.0.end.valid()
    }

    /// The two ends of the coordinate.
    pub fn range(&self) -> (ends: Range<T>)
        ensures
            ends == self.0,
    {
        Range { start: self.0.start, end: self.0.end }
    }

    /// The pixel of `value` on the pixel range `limit`.
    pub fn map(&self, value: &T, limit: (i32, i32)) -> (pixel: i32)
        requires
            self.valid(),
            value.valid(),
        ensures
            pixel == map_position(
                value.instant() - self.0.start.instant(),
                self.0.end.instant() - self.0.start.instant(),
                limit.0 as int,
                limit.1 as int,
            ),
    {
        T::map_coord(value, &self.0.start, &self.0.end, limit)
    }

    /// The ticks of the coordinate for a budget of `max_points` points: the
    /// earliest values on the days that `monthly_days` gives for the first
    /// day that does not start before the interval and the last that does
    /// not start after it. They rise strictly, lie between the two ends,
    /// and are at most one more than the budget.
    pub fn key_points(&self, max_points: usize) -> (points: Vec<T>)
        requires
            self.valid(),
        ensures
            instants(points@) == day_instants(
                monthly_days(
                    ceil_div(self.0.start.instant(), NS_PER_DAY as int),
                    self.0.end.instant() / (NS_PER_DAY as int),
                    max_points as int,
                ),
            ),
            forall|k: int| 0 <= k < points@.len() ==> (#[trigger] points@[k]).valid(),
            points@.len() <= max_points + 1,
            forall|k: int|
                0 <= k < points@.len() ==> self.0.start.instant() <= (
                #[trigger] points@[k]).instant() <= self.0.end.instant(),
            forall|j: int, k: int|
                0 <= j < k < points@.len() ==> (#[trigger] points@[j]).instant() < (
                #[trigger] points@[k]).instant(),
    {
        let start_date: Date = self.0.start.date_ceil();
        let end_date: Date = self.0.end.date_floor();
        proof {
            lemma_day_bounds(self.0.start.instant());
            lemma_day_bounds(self.0.end.instant());
        }
        match (civil_fields(start_date), civil_fields(end_date)) {
            (Some(start), Some(end)) => {
                assert(civil(start.fields()) == start);
                assert(civil(end.fields()) == end);
                let months: Vec<YearMonth> = month_ticks(start, end, max_points);
                resolve_months(&months, start_date, end_date)
            },
            _ => {
                let points: Vec<T> = Vec::new();
                assert(instants(points@) =~= day_instants(Seq::<int>::empty()));
                points
            },
        }
    }

    /// The earliest value on the day one month after the first day that
    /// does not start before `this`, where the calendar has that day. The
    /// month before that day then leads back to the day started from.
    pub fn next_value(this: &T) -> (next: Option<T>)
        requires
            this.valid(),
        ensures
            match month_after(ceil_div(this.instant(), NS_PER_DAY as int)) {
                Some(day) => next matches Some(v) && v.valid() && v.instant() == day * NS_PER_DAY
                    && month_before(day) == Some(ceil_div(this.instant(), NS_PER_DAY as int)),
                None => next is None,
            },
    {
        let date: Date = this.date_ceil();
        match civil_fields(date) {
            Some(fields) => {
                let (year, month): (i64, u32) = if fields.month == 12 {
                    (fields.year as i64 + 1, 1)
                } else {
                    (fields.year as i64, fields.month + 1)
                };
                if year > i32::MAX as i64 {
                    return None;
                }
                match day_of(year as i32, month, fields.day) {
                    Some(day) => Some(T::earliest_after_date(day)),
                    None => None,
                }
            },
            None => None,
        }
    }

    /// The earliest value on the day one month before the last day that
    /// does not start after `this`, where the calendar has that day. The
    /// month after that day then leads back to the day started from.
    pub fn previous_value(this: &T) -> (previous: Option<T>)
        requires
            this.valid(),
        ensures
            match month_before(this.instant() / (NS_PER_DAY as int)) {
                Some(day) => previous matches Some(v) && v.valid() && v.instant() == day
                    * NS_PER_DAY && month_after(day) == Some(
                    this.instant() / (NS_PER_DAY as int),
                ),
                None => previous is None,
            },
    {
        let date: Date = this.date_floor();
        match civil_fields(date) {
            Some(fields) => {
                let (year, month): (i64, u32) = if fields.month == 1 {
                    (fields.year as i64 - 1, 12)
                } else {
                    (fields.year as i64, fields.month - 1)
                };
                if year < i32::MIN as i64 {
                    return None;
                }
                match day_of(year as i32, month, fields.day) {
                    Some(day) => Some(T::earliest_after_date(day)),
                    None => None,
                }
            },
            None => None,
        }
    }
}

/// Turns an interval into a coordinate with monthly ticks.
pub trait IntoMonthly<T: TimeValue> {
    fn monthly(self) -> Monthly<T>;
}

impl<T: TimeValue> IntoMonthly<T> for Range<T> {
    fn monthly(self) -> (coord: Monthly<T>)
        ensures
            coord.0 == self,
    {
        Monthly(self)
    }
}

} // verus!
