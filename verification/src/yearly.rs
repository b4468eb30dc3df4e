//! A coordinate whose ticks fall on the first days of months a whole number of years apart.

use crate::arith::ceil_div;
use crate::calendar::{
    civil, civil_day, civil_fields, civil_from_days, day_of, month_starts, year_ticks,
    yearly_tick_indices, YearMonth,
};
use crate::instant::{instants, map_position, Date, TimeValue};
use crate::monthly::{day_instants, lemma_day_bounds, resolve_months};
use crate::period::NS_PER_DAY;
use std::ops::Range;
use vstd::prelude::*;

verus! {

/// The days on which the yearly ticks between two days fall; none where
/// the calendar does not have one of the two days.
pub open spec fn yearly_days(start_day: int, end_day: int, max_points: int) -> Seq<int> {
    match (civil_from_days(start_day), civil_from_days(end_day)) {
        (Some(start), Some(end)) => month_starts(
            yearly_tick_indices(civil(start), civil(end), max_points),
            start_day,
            end_day,
        ),
        _ => Seq::empty(),
    }
}

/// The first day of the year after the year of `day`, where the calendar has both.
pub open spec fn year_after(day: int) -> Option<int> {
    match civil_from_days(day) {
        Some((year, _, _)) => civil_day(year + 1, 1, 1),
        None => None,
    }
}

/// The first day of the year before the year of `day`, where the calendar has both.
pub open spec fn year_before(day: int) -> Option<int> {
    match civil_from_days(day) {
        Some((year, _, _)) => civil_day(year - 1, 1, 1),
        None => None,
    }
}

/// Whether `day` is the first day of a year.
pub open spec fn starts_year(day: int) -> bool {
    match civil_from_days(day) {
        Some((_, month, day_of_month)) => month == 1 && day_of_month == 1,
        None => false,
    }
}

/// A coordinate over an interval of time whose ticks are whole years apart.
pub struct Yearly<T: TimeValue>(pub Range<T>);

impl<T: TimeValue> Yearly<T> {
    /// Both ends are values that the operations accept.
    pub open spec fn valid(&self) -> bool {
        self.0.start.valid() && self.0.end.valid()
    }

    /// The two ends of the coordinate.
    pub fn range(&self) -> (ends: Range<T>)
        ensures
            ends == self.0,
    {
        Range { start: self.0.start, end: self.0.end }
    }

    /// The pixel of `value` on the pixel range `limit`.
    pub fn map(&self, value: &T, limit: (i32, i32)) -> (pixel: i32)
        requires
            self.valid(),
            value.valid(),
        ensures
            pixel == map_position(
                value.instant() - self.0.start.instant(),
                self.0.end.instant() - self.0.start.instant(),
                limit.0 as int,
                limit.1 as int,
            ),
    {
        T::map_coord(value, &self.0.start, &self.0.end, limit)
    }

    /// The ticks of the coordinate for a budget of `max_points` points: the
    /// earliest values on the days that `yearly_days` gives for the first
    /// day that does not start before the interval and the last that does
    /// not start after it. They rise strictly, lie between the two ends,
    /// and are at most one more than the budget.
    pub fn key_points(&self, max_points: usize) -> (points: Vec<T>)
        requires
            self.valid(),
        ensures
            instants(points@) == day_instants(
                yearly_days(
                    ceil_div(self.0.start.instant(), NS_PER_DAY as int),
                    self.0.end.instant() / (NS_PER_DAY as int),
                    max_points as int,
                ),
            ),
            forall|k: int| 0 <= k < points@.len() ==> (#[trigger] points@[k]).valid(),
            points@.len() <= max_points + 1,
            forall|k: int|
                0 <= k < points@.len() ==> self.0.start.instant() <= (
                #[trigger] points@[k]).instant() <= self.0.end.instant(),
            forall|j: int, k: int|
                0 <= j < k < points@.len() ==> (#[trigger] points@[j]).instant() < (
                #[trigger] points@[k]).instant(),
    {
        let start_date: Date = self.0.start.date_ceil();
        let end_date: Date = self.0.end.date_floor();
        proof {
            lemma_day_bounds(self.0.start.instant());
            lemma_day_bounds(self.0.end.instant());
        }
        match (civil_fields(start_date), civil_fields(end_date)) {
            (Some(start), Some(end)) => {
                assert(civil(start.fields()) == start);
                assert(civil(end.fields()) == end);
                let months: Vec<YearMonth> = year_ticks(start, end, max_points);
                resolve_months(&months, start_date, end_date)
            },
            _ => {
                let points: Vec<T> = Vec::new();
                assert(instants(points@) =~= day_instants(Seq::<int>::empty()));
                points
            },
        }
    }

    /// The earliest value on the first day of the year after the year of
    /// the last day that does not start after `this`, where the calendar
    /// has that day. From there the year before leads back to the day
    /// started from, where that day is the first of its year.
    pub fn next_value(this: &T) -> (next: Option<T>)
        requires
            this.valid(),
        ensures
            match year_after(this.instant() / (NS_PER_DAY as int)) {
                Some(day) => next matches Some(v) && v.valid() && v.instant() == day * NS_PER_DAY
                    && (starts_year(this.instant() / (NS_PER_DAY as int)) ==> year_before(day)
                    == Some(this.instant() / (NS_PER_DAY as int))),
                None => next is None,
            },
    {
        let date: Date = this.date_floor();
        match civil_fields(date) {
            Some(fields) => {
                if fields.year == i32::MAX {
                    return None;
                }
                match day_of(fields.year + 1, 1, 1) {
                    Some(day) => Some(T::earliest_after_date(day)),
                    None => None,
                }
            },
            None => None,
        }
    }

    /// The earliest value on the first day of the year before the year of
    /// the first day that does not start before `this`, where the calendar
    /// has that day. From there the year after leads back to the day
    /// started from, where that day is the first of its year.
    pub fn previous_value(this: &T) -> (previous: Option<T>)
        requires
            this.valid(),
        ensures
            match year_before(ceil_div(this.instant(), NS_PER_DAY as int)) {
                Some(day) => previous matches Some(v) && v.valid() && v.instant() == day
                    * NS_PER_DAY && (starts_year(ceil_div(this.instant(), NS_PER_DAY as int))
                    ==> year_after(day) == Some(ceil_div(this.instant(), NS_PER_DAY as int))),
                None => previous is None,
            },
    {
        let date: Date = this.date_ceil();
        match civil_fields(date) {
            Some(fields) => {
                if fields.year == i32::MIN {
                    return None;
                }
                match day_of(fields.year - 1, 1, 1) {
                    Some(day) => Some(T::earliest_after_date(day)),
                    None => None,
                }
            },
            None => None,
        }
    }
}

/// Turns an interval into a coordinate with yearly ticks.
pub trait IntoYearly<T: TimeValue> {
    fn yearly(self) -> Yearly<T>;
}

impl<T: TimeValue> IntoYearly<T> for Range<T> {
    fn yearly(self) -> (coord: Yearly<T>)
        ensures
            coord.0 == self,
    {
        Yearly(self)
    }
}

} // verus!
