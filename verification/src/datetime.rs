//! The coordinate over times of day on calendar days.

use crate::arith::{
    ceil_div, fits_i64, floor_div, floor_mod, lemma_quotient_bound, lemma_round_up,
    lemma_tick_count, lemma_ticks_shape, round_up, round_up_to, ticks,
};
use crate::date::{date_ticks, day_numbers, RangedDate};
use crate::instant::{instants, map_position, Date, DateTime, TimeValue};
use crate::monthly::day_instants;
use crate::period::{compute_period_per_point, tick_period, NS_PER_DAY};
use std::ops::Range;
use vstd::arithmetic::div_mod::{
    lemma_div_is_ordered, lemma_fundamental_div_mod, lemma_fundamental_div_mod_converse,
    lemma_mod_bound,
};
use vstd::prelude::*;
use vstd::std_specs::convert::FromSpecImpl;

verus! {

/// The tick period for a span, where the span fits in 64 bits and allows
/// a period of less than a day.
pub open spec fn sub_daily_period(total_ns: int, max_points: int) -> Option<int> {
    if fits_i64(total_ns) {
        tick_period(total_ns, max_points, true)
    } else {
        None
    }
}

/// The first instant at or after `begin` whose time of day is a multiple
/// of `period`; it lies on the next day where none is left on the day of `begin`.
pub open spec fn aligned_start(begin: int, period: int) -> int {
    begin - begin % (NS_PER_DAY as int) + round_up(begin % (NS_PER_DAY as int), period)
}

/// The positions of the ticks between the instants `begin` and `end` for a
/// budget of `max_points` points. With a period of less than a day they
/// are `period` apart from the aligned start and end before `end`; else
/// they are the starts of the days that `date_ticks` gives between the
/// first day that starts in the interval and the last. There is none where
/// the budget is empty or `end` is not after `begin`.
pub open spec fn datetime_ticks(begin: int, end: int, max_points: int) -> Seq<int> {
    if max_points <= 0 || end <= begin {
        Seq::empty()
    } else {
        match sub_daily_period(end - begin, max_points) {
            Some(period) => ticks(aligned_start(begin, period), period, end),
            None => day_instants(
                date_ticks(
                    ceil_div(begin, NS_PER_DAY as int),
                    end / (NS_PER_DAY as int),
                    max_points,
                ),
            ),
        }
    }
}

/// The coordinate over the date-times from a first to a last.
pub struct RangedDateTime(pub DateTime, pub DateTime);

impl From<Range<DateTime>> for RangedDateTime {
    fn from(range: Range<DateTime>) -> (coord: Self) {
        RangedDateTime(range.start, range.end)
    }
}

impl FromSpecImpl<Range<DateTime>> for RangedDateTime {
    open spec fn obeys_from_spec() -> bool {
        true
    }

    open spec fn from_spec(range: Range<DateTime>) -> Self {
        RangedDateTime(range.start, range.end)
    }
}

/// The date-time at an instant that lies between two valid date-times.
fn datetime_at(instant: i128, low: &DateTime, high: &DateTime) -> (value: DateTime)
    requires
        low.valid(),
        high.valid(),
        low.instant() <= instant <= high.instant(),
    ensures
        value.valid(),
        value.instant() == instant,
{
    proof {
        lemma_fundamental_div_mod(instant as int, NS_PER_DAY as int);
        lemma_mod_bound(instant as int, NS_PER_DAY as int);
        lemma_fundamental_div_mod_converse(
            low.instant(),
            NS_PER_DAY as int,
            low.date@,
            low.nanos as int,
        );
        lemma_fundamental_div_mod_converse(
            high.instant(),
            NS_PER_DAY as int,
            high.date@,
            high.nanos as int,
        );
        lemma_div_is_ordered(low.instant(), instant as int, NS_PER_DAY as int);
        lemma_div_is_ordered(instant as int, high.instant(), NS_PER_DAY as int);
    }
    let days: i128 = floor_div(instant, NS_PER_DAY as i128);
    let nanos: i128 = floor_mod(instant, NS_PER_DAY as i128);
    DateTime { date: Date { days: days as i32 }, nanos: nanos as u64 }
}

impl RangedDateTime {
    /// Both ends are values that the operations accept.
    pub open spec fn valid(&self) -> bool {
        self.0.valid() && self.1.valid()
    }

    /// The two ends of the coordinate.
    pub fn range(&self) -> (ends: Range<DateTime>)
        ensures
            ends.start == self.0,
            ends.end == self.1,
    {
        Range { start: self.0, end: self.1 }
    }

    /// The pixel of `value` on the pixel range `limit`.
    pub fn map(&self, value: &DateTime, limit: (i32, i32)) -> (pixel: i32)
        requires
            self.valid(),
            value.valid(),
        ensures
            pixel == map_position(
                value.instant() - self.0.instant(),
                self.1.instant() - self.0.instant(),
                limit.0 as int,
                limit.1 as int,
            ),
    {
        DateTime::map_coord(value, &self.0, &self.1, limit)
    }

    /// The ticks of the coordinate for a budget of `max_points` points.
    /// They rise strictly, lie between the two ends, and are at most one
    /// more than the budget.
    pub fn key_points(&self, max_points: usize) -> (points: Vec<DateTime>)
        requires
            self.valid(),
        ensures
            instants(points@) == datetime_ticks(
                self.0.instant(),
                self.1.instant(),
                max_points as int,
            ),
            forall|k: int| 0 <= k < points@.len() ==> (#[trigger] points@[k]).valid(),
            points@.len() <= max_points + 1,
            forall|k: int|
                0 <= k < points@.len() ==> self.0.instant() <= (#[trigger] points@[k]).instant()
                    <= self.1.instant(),
            sub_daily_period(self.1.instant() - self.0.instant(), max_points as int) is Some
                ==> forall|k: int|
                0 <= k < points@.len() ==> (#[trigger] points@[k]).instant() < self.1.instant(),
            forall|j: int, k: int|
                0 <= j < k < points@.len() ==> (#[trigger] points@[j]).instant() < (
                #[trigger] points@[k]).instant(),
    {
        let mut points: Vec<DateTime> = Vec::new();
        let total_span = self.1.subtract(&self.0);
        if max_points == 0 || total_span.nanos <= 0 {
            assert(instants(points@) =~= Seq::<int>::empty());
            return points;
        }
        let ghost begin = self.0.instant();
        let ghost end = self.1.instant();
        let ghost expected = datetime_ticks(begin, end, max_points as int);
        proof {
            lemma_fundamental_div_mod_converse(
                begin,
                NS_PER_DAY as int,
                self.0.date@,
                self.0.nanos as int,
            );
        }
        let period: Option<u64> = match total_span.num_nanoseconds() {
            Some(total_ns) => compute_period_per_point(total_ns as u64, max_points, true),
            None => None,
        };
        match period {
            Some(period) => {
                let step: i128 = period as i128;
                let day: i128 = NS_PER_DAY as i128;
                let day_start: i128 = self.0.date.days as i128 * day;
                let first: i128 = day_start + round_up_to(self.0.nanos as i128, step);
                let end_ns: i128 = self.1.date.days as i128 * day + self.1.nanos as i128;
                assert(first == aligned_start(begin, step as int));
                let mut current: i128 = first;
                let ghost mut k: int = 0;
                while current < end_ns
                    invariant
                        self.valid(),
                        begin == self.0.instant(),
                        end_ns == self.1.instant(),
                        1 <= step <= u64::MAX,
                        begin <= first,
                        k >= 0,
                        current == first + k * step,
                        k > 0 ==> first + (k - 1) * step < end_ns,
                        points@.len() == k,
                        forall|j: int|
                            0 <= j < k ==> (#[trigger] points@[j]).instant() == first + j * step,
                        forall|j: int| 0 <= j < k ==> (#[trigger] points@[j]).valid(),
                    decreases end_ns + step - current,
                {
                    proof {
                        assert((k + 1) * step == k * step + step) by (nonlinear_arith);
                        assert(k * step >= 0) by (nonlinear_arith)
                            requires
                                k >= 0,
                                step >= 1,
                        ;
                    }
                    let point: DateTime = datetime_at(current, &self.0, &self.1);
                    points.push(point);
                    current = current + step;
                    proof {
                        k = k + 1;
                    }
                }
                proof {
                    lemma_tick_count(first as int, step as int, end_ns as int, k);
                    assert(instants(points@) =~= expected);
                    lemma_ticks_shape(first as int, step as int, end_ns as int);
                    let total = end - begin;
                    if k > 0 {
                        lemma_quotient_bound(end - first - 1, step as int, k - 1);
                        lemma_quotient_bound(total, step as int, k - 1);
                    }
                    let t = ticks(first as int, step as int, end_ns as int);
                    assert forall|j: int| 0 <= j < points@.len() implies begin <= (
                    #[trigger] points@[j]).instant() < end by {
                        assert(points@[j].instant() == t[j]);
                    }
                    assert forall|a: int, b: int| 0 <= a < b < points@.len() implies (
                    #[trigger] points@[a]).instant() < (#[trigger] points@[b]).instant() by {
                        assert(points@[a].instant() == t[a]);
                        assert(points@[b].instant() == t[b]);
                    }
                }
            },
            None => {
                assert(sub_daily_period(end - begin, max_points as int) is None);
                let days = RangedDate(self.0.date_ceil(), self.1.date_floor());
                let ghost first_day = days.0@;
                let ghost last_day = days.1@;
                let dates: Vec<Date> = days.key_points(max_points);
                proof {
                    lemma_round_up(begin, NS_PER_DAY as int);
                    lemma_fundamental_div_mod(begin, NS_PER_DAY as int);
                    lemma_fundamental_div_mod(end, NS_PER_DAY as int);
                    lemma_mod_bound(end, NS_PER_DAY as int);
                }
                let mut i: usize = 0;
                while i < dates.len()
                    invariant
                        0 <= i <= dates@.len(),
                        points@.len() == i,
                        forall|j: int|
                            0 <= j < i ==> (#[trigger] points@[j]).instant() == dates@[j]@
                                * NS_PER_DAY,
                        forall|j: int| 0 <= j < i ==> (#[trigger] points@[j]).valid(),
                    decreases dates@.len() - i,
                {
                    points.push(DateTime::earliest_after_date(dates[i]));
                    i = i + 1;
                }
                proof {
                    assert(day_numbers(dates@) == date_ticks(
                        first_day,
                        last_day,
                        max_points as int,
                    ));
                    assert forall|j: int| 0 <= j < points@.len() implies instants(points@)[j]
                        == expected[j] by {
                        assert(day_numbers(dates@)[j] == dates@[j]@);
                    }
                    assert(instants(points@) =~= expected);
                    assert forall|j: int| 0 <= j < points@.len() implies begin <= (
                    #[trigger] points@[j]).instant() <= end by {
                        assert(first_day <= dates@[j]@ <= last_day);
                    }
                    assert forall|a: int, b: int| 0 <= a < b < points@.len() implies (
                    #[trigger] points@[a]).instant() < (#[trigger] points@[b]).instant() by {
                        assert(dates@[a]@ < dates@[b]@);
                    }
                }
            },
        }
        points
    }
}

} // verus!
