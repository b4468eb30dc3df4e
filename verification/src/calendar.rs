//! Calendar fields of a day, months counted on a line, and the choice of
//! monthly and yearly ticks.
//!
//! Which day a year, month and day of month name is the calendar's business:
//! it is asked of `chrono`. The rest works on months counted from month 0 of
//! year 0, so that December and January are neighbours like any two months.

use crate::arith::{
    lemma_nested_div, lemma_quotient_bound, lemma_tick_count, lemma_ticks_shape, ticks,
};
use crate::instant::Date;
use chrono::{Datelike, NaiveDate};
use vstd::arithmetic::div_mod::{lemma_fundamental_div_mod, lemma_mod_bound};
use vstd::prelude::*;

verus! {

/// The year, month and day of month that the calendar gives to a day
/// number; `None` where it has no such day.
pub uninterp spec fn civil_from_days(days: int) -> Option<(int, int, int)>;

/// The day number that the calendar gives to a year, month and day of
/// month; `None` where it has no such day.
pub uninterp spec fn days_from_civil(year: int, month: int, day: int) -> Option<int>;

/// A day by its calendar fields.
#[derive(Clone, Copy, Debug, PartialEq, Eq, Structural)]
pub struct CivilDate {
    pub year: i32,
    pub month: u32,
    pub day: u32,
}

impl CivilDate {
    /// The month is one of twelve and the day one of at most thirty-one.
    pub open spec fn valid(&self) -> bool {
        1 <= self.month <= 12 && 1 <= self.day <= 31
    }

    /// The fields as a triple.
    pub open spec fn fields(&self) -> (int, int, int) {
        (self.year as int, self.month as int, self.day as int)
    }
}

/// The day with the given fields.
pub open spec fn civil(fields: (int, int, int)) -> CivilDate {
    CivilDate { year: fields.0 as i32, month: fields.1 as u32, day: fields.2 as u32 }
}

/// The day number that the calendar gives to the fields, where the year is an `i32`.
pub open spec fn civil_day(year: int, month: int, day: int) -> Option<int> {
    if i32::MIN <= year <= i32::MAX {
        days_from_civil(year, month, day)
    } else {
        None
    }
}

/// A month of a year.
#[derive(Clone, Copy, Debug, PartialEq, Eq, Structural)]
pub struct YearMonth {
    pub year: i32,
    pub month: u32,
}

impl YearMonth {
    /// The month is one of twelve.
    pub open spec fn valid(&self) -> bool {
        1 <= self.month <= 12
    }

    /// The position of the month on the line of months.
    pub open spec fn index(&self) -> int {
        month_index(self.year as int, self.month as int)
    }
}

/// The position of a month on the line of months.
pub open spec fn month_index(year: int, month: int) -> int {
    year * 12 + month - 1
}

/// The positions of a sequence of months.
pub open spec fn month_indices(months: Seq<YearMonth>) -> Seq<int> {
    months.map_values(|m: YearMonth| m.index())
}

/// The day number of the first day of the month at `index`, where the
/// calendar has that day and the year is an `i32`.
pub open spec fn month_start(index: int) -> Option<int> {
    civil_day(index / 12, index % 12 + 1, 1)
}

/// The day numbers of the first days of the months at `indices`, in order.
/// A month is left out where the calendar does not have its first day, has
/// it outside the days from `low` to `high`, or does not have it after the
/// first day kept before it.
pub open spec fn month_starts(indices: Seq<int>, low: int, high: int) -> Seq<int>
    decreases indices.len(),
{
    if indices.len() == 0 {
        Seq::empty()
    } else {
        let before = month_starts(indices.drop_last(), low, high);
        match month_start(indices.last()) {
            Some(day) => if low <= day <= high && (before.len() == 0 || before.last() < day) {
                before.push(day)
            } else {
                before
            },
            None => before,
        }
    }
}

/// The days kept rise strictly, lie from `low` to `high`, and are no more
/// than the months given.
pub proof fn lemma_month_starts(indices: Seq<int>, low: int, high: int)
    ensures
        month_starts(indices, low, high).len() <= indices.len(),
        forall|k: int|
            0 <= k < month_starts(indices, low, high).len() ==> low <= #[trigger] month_starts(
                indices,
                low,
                high,
            )[k] <= high,
        forall|j: int, k: int|
            0 <= j < k < month_starts(indices, low, high).len() ==> #[trigger] month_starts(
                indices,
                low,
                high,
            )[j] < #[trigger] month_starts(indices, low, high)[k],
    decreases indices.len(),
{
    if indices.len() > 0 {
        lemma_month_starts(indices.drop_last(), low, high);
    }
}

/// The calendar fields of a day. Calls `NaiveDate::from_num_days_from_ce_opt`
/// and reads the year, month and day of what it returns.
///
/// Trusted: the fields are those that `civil_from_days` names, the month is
/// from 1 to 12 and the day from 1 to 31, and the calendar gives the fields
/// this day number back.
#[verifier::external_body]
pub(crate) fn civil_fields(date: Date) -> (fields: Option<CivilDate>)
    ensures
        match fields {
            Some(c) => c.valid() && civil_from_days(date@) == Some(c.fields()) && days_from_civil(
                c.year as int,
                c.month as int,
                c.day as int,
            ) == Some(date@),
            None => civil_from_days(date@) is None,
        },
{
    match NaiveDate::from_num_days_from_ce_opt(date.days) {
        Some(d) => Some(CivilDate { year: d.year(), month: d.month(), day: d.day() }),
        None => None,
    }
}

/// The day with the given calendar fields. Calls `NaiveDate::from_ymd_opt`
/// and takes the day number of what it returns.
///
/// Trusted: the day is the one that `days_from_civil` names, and the
/// calendar gives that day these fields back.
#[verifier::external_body]
pub(crate) fn day_of(year: i32, month: u32, day: u32) -> (date: Option<Date>)
    ensures
        match date {
            Some(d) => days_from_civil(year as int, month as int, day as int) == Some(d@)
                && civil_from_days(d@) == Some((year as int, month as int, day as int)),
            None => days_from_civil(year as int, month as int, day as int) is None,
        },
{
    match NaiveDate::from_ymd_opt(year, month, day) {
        Some(d) => Some(Date { days: d.num_days_from_ce() }),
        None => None,
    }
}

/// The largest span for which `nice_step_for` chooses a step.
pub const NICE_SPAN_LIMIT: u64 = 0x1000_0000_0000_0000;

/// The smallest of 1, 2, 5, 10, 20, 50, 100, ... that, taken as a step,
/// leaves at most `max_points` whole steps in `span`.
pub open spec fn nice_step(span: int, max_points: int) -> int
    decreases span,
{
    if max_points <= 0 || span <= max_points {
        1
    } else if span / 2 <= max_points {
        2
    } else if span / 5 <= max_points {
        5
    } else {
        10 * nice_step(span / 10, max_points)
    }
}

/// The step is positive and leaves at most `max_points` whole steps in the span.
pub proof fn lemma_nice_step(span: int, max_points: int)
    requires
        0 <= span,
        0 < max_points,
    ensures
        1 <= nice_step(span, max_points),
        span / nice_step(span, max_points) <= max_points,
    decreases span,
{
    if span <= max_points {
    } else if span / 2 <= max_points {
    } else if span / 5 <= max_points {
    } else {
        lemma_nice_step(span / 10, max_points);
        let inner = nice_step(span / 10, max_points);
        lemma_nested_div(span, 10, inner);
    }
}

/// Computes `nice_step`.
pub fn nice_step_for(span: u64, max_points: usize) -> (step: u64)
    requires
        span <= NICE_SPAN_LIMIT,
        max_points > 0,
    ensures
        step == nice_step(span as int, max_points as int),
{
    let budget: u64 = max_points as u64;
    let mut unit: u64 = 1;
    let mut rest: u64 = span;
    loop
        invariant
            budget == max_points,
            budget > 0,
            span <= NICE_SPAN_LIMIT,
            unit >= 1,
            unit * rest <= span,
            nice_step(span as int, max_points as int) == unit * nice_step(
                rest as int,
                max_points as int,
            ),
        decreases rest,
    {
        if rest <= budget {
            return unit;
        }
        assert(unit <= span / 2) by (nonlinear_arith)
            requires
                unit * rest <= span,
                rest >= 2,
                unit >= 1,
        ;
        if rest / 2 <= budget {
            assert(unit * 2 == 2 * unit) by (nonlinear_arith);
            return 2 * unit;
        }
        if rest / 5 <= budget {
            assert(unit * 5 == 5 * unit) by (nonlinear_arith);
            return 5 * unit;
        }
        proof {
            let inner = nice_step((rest / 10) as int, max_points as int);
            assert(unit * (10 * inner) == (unit * 10) * inner) by (nonlinear_arith);
            lemma_fundamental_div_mod(rest as int, 10);
            lemma_mod_bound(rest as int, 10);
            assert((unit * 10) * (rest / 10) <= span) by (nonlinear_arith)
                requires
                    unit * rest <= span,
                    rest == 10 * (rest / 10) + rest % 10,
                    rest % 10 >= 0,
                    unit >= 1,
            ;
        }
        unit = unit * 10;
        rest = rest / 10;
    }
}

/// The months at the positions `first`, `first + step`, ... below `bound`.
fn months_from(first: i64, step: i64, bound: i64) -> (months: Vec<YearMonth>)
    requires
        step >= 1,
        i32::MIN * 12 <= first,
        bound <= (i32::MAX + 1) * 12,
        step <= 0x1000_0000_0000_0000,
    ensures
        month_indices(months@) == ticks(first as int, step as int, bound as int),
        forall|k: int| 0 <= k < months@.len() ==> (#[trigger] months@[k]).valid(),
{
    let mut months: Vec<YearMonth> = Vec::new();
    let mut current: i64 = first;
    let ghost mut k: int = 0;
    while current < bound
        invariant
            step >= 1,
            i32::MIN * 12 <= first,
            bound <= (i32::MAX + 1) * 12,
            step <= 0x1000_0000_0000_0000,
            k >= 0,
            current == first + k * step,
            k > 0 ==> first + (k - 1) * step < bound,
            months@.len() == k,
            forall|j: int| 0 <= j < k ==> (#[trigger] months@[j]).index() == first + j * step,
            forall|j: int| 0 <= j < k ==> (#[trigger] months@[j]).valid(),
        decreases bound + step - current,
    {
        proof {
            assert((k + 1) * step == k * step + step) by (nonlinear_arith);
            assert(k * step >= 0) by (nonlinear_arith)
                requires
                    k >= 0,
                    step >= 1,
            ;
            lemma_fundamental_div_mod(current as int, 12);
            lemma_mod_bound(current as int, 12);
            lemma_quotient_bound(current as int, 12, i32::MIN as int);
            lemma_quotient_bound(current as int, 12, i32::MAX + 1);
        }
        let year: i128 = crate::arith::floor_div(current as i128, 12);
        let month: i128 = crate::arith::floor_mod(current as i128, 12) + 1;
        months.push(YearMonth { year: year as i32, month: month as u32 });
        current = current + step;
        proof {
            k = k + 1;
        }
    }
    proof {
        lemma_tick_count(first as int, step as int, bound as int, k);
        assert(month_indices(months@) =~= ticks(first as int, step as int, bound as int));
    }
    months
}

/// The position of the first month that starts on or after the given day.
pub open spec fn first_month(start: CivilDate) -> int {
    if start.day == 1 {
        month_index(start.year as int, start.month as int)
    } else {
        month_index(start.year as int, start.month as int) + 1
    }
}

/// The position of the month in which the given day lies.
pub open spec fn last_month(end: CivilDate) -> int {
    month_index(end.year as int, end.month as int)
}

/// The number of months between ticks for a span of `total_months` months
/// and a budget of `max_points` points: the first of 1, 3 and 6 whose
/// multiple by the budget reaches the span, if any does.
pub open spec fn month_step(total_months: int, max_points: int) -> Option<int> {
    if total_months <= max_points {
        Some(1)
    } else if total_months <= max_points * 3 {
        Some(3)
    } else if total_months <= max_points * 6 {
        Some(6)
    } else {
        None
    }
}

/// The positions of the yearly ticks: the month `start_month` of every
/// `nice_step`-th year from `start_year`, up to `end_year`, or to the year
/// before it where `start_month` comes after `end_month`.
pub open spec fn year_tick_indices(
    max_points: int,
    start_year: int,
    start_month: int,
    end_year: int,
    end_month: int,
) -> Seq<int> {
    let last_year = if start_month > end_month {
        end_year - 1
    } else {
        end_year
    };
    if max_points <= 0 || last_year < start_year {
        Seq::empty()
    } else {
        ticks(
            month_index(start_year, start_month),
            12 * nice_step(last_year - start_year + 1, max_points),
            month_index(last_year, start_month) + 1,
        )
    }
}

/// The positions of the monthly ticks between the day `start` and the day
/// `end`: every month, every third or every sixth from the first month
/// that starts on or after `start`, up to the month of `end`; yearly ticks
/// where the months are more than six times the budget.
pub open spec fn month_tick_indices(start: CivilDate, end: CivilDate, max_points: int) -> Seq<int> {
    let first = first_month(start);
    let last = last_month(end);
    if max_points <= 0 || last < first {
        Seq::empty()
    } else {
        match month_step(last - first, max_points) {
            Some(step) => ticks(first, step, last + 1),
            None => year_tick_indices(
                max_points,
                first / 12,
                first % 12 + 1,
                end.year as int,
                end.month as int,
            ),
        }
    }
}

/// The positions of the yearly ticks between the day `start` and the day
/// `end`, from the first month that starts on or after `start`.
pub open spec fn yearly_tick_indices(start: CivilDate, end: CivilDate, max_points: int) -> Seq<
    int,
> {
    let first = first_month(start);
    year_tick_indices(max_points, first / 12, first % 12 + 1, end.year as int, end.month as int)
}

/// Yearly ticks rise strictly, lie between the first month and the last,
/// and are at most one more than the budget.
pub proof fn lemma_year_ticks(
    max_points: int,
    start_year: int,
    start_month: int,
    end_year: int,
    end_month: int,
)
    requires
        max_points >= 0,
        1 <= start_month <= 12,
        1 <= end_month <= 12,
    ensures
        ({
            let t = year_tick_indices(max_points, start_year, start_month, end_year, end_month);
            &&& t.len() <= max_points + 1
            &&& forall|k: int|
                0 <= k < t.len() ==> month_index(start_year, start_month) <= #[trigger] t[k]
                    <= month_index(end_year, end_month)
            &&& forall|j: int, k: int| 0 <= j < k < t.len() ==> #[trigger] t[j] < #[trigger] t[k]
        }),
{
    let last_year = if start_month > end_month {
        end_year - 1
    } else {
        end_year
    };
    if max_points > 0 && last_year >= start_year {
        let years = last_year - start_year + 1;
        let step = nice_step(years, max_points);
        lemma_nice_step(years, max_points);
        let first = month_index(start_year, start_month);
        let bound = month_index(last_year, start_month) + 1;
        assert(12 * step >= 1) by (nonlinear_arith)
            requires
                step >= 1,
        ;
        lemma_ticks_shape(first, 12 * step, bound);
        assert(bound - first - 1 == 12 * (years - 1));
        lemma_nested_div(12 * (years - 1), 12, step);
        lemma_quotient_bound(12 * (years - 1), 12, years - 1);
        lemma_quotient_bound(12 * (years - 1), 12, years);
        vstd::arithmetic::div_mod::lemma_div_is_ordered(years - 1, years, step);
    }
}

/// Monthly ticks rise strictly, lie between the first month and the last,
/// and are at most one more than the budget.
pub proof fn lemma_month_ticks(start: CivilDate, end: CivilDate, max_points: int)
    requires
        max_points >= 0,
        start.valid(),
        end.valid(),
    ensures
        ({
            let t = month_tick_indices(start, end, max_points);
            &&& t.len() <= max_points + 1
            &&& forall|k: int|
                0 <= k < t.len() ==> first_month(start) <= #[trigger] t[k] <= last_month(end)
            &&& forall|j: int, k: int| 0 <= j < k < t.len() ==> #[trigger] t[j] < #[trigger] t[k]
        }),
{
    let first = first_month(start);
    let last = last_month(end);
    if max_points > 0 && last >= first {
        lemma_fundamental_div_mod(first, 12);
        lemma_mod_bound(first, 12);
        match month_step(last - first, max_points) {
            Some(step) => {
                lemma_ticks_shape(first, step, last + 1);
                lemma_quotient_bound(last - first, step, max_points + 1);
            },
            None => {
                lemma_year_ticks(
                    max_points,
                    first / 12,
                    first % 12 + 1,
                    end.year as int,
                    end.month as int,
                );
            },
        }
    }
}

/// The yearly ticks for a first and a last month, as months.
pub fn generate_yearly_keypoints(
    max_points: usize,
    start_year: i32,
    start_month: u32,
    end_year: i32,
    end_month: u32,
) -> (months: Vec<YearMonth>)
    requires
        1 <= start_month <= 12,
        1 <= end_month <= 12,
    ensures
        month_indices(months@) == year_tick_indices(
            max_points as int,
            start_year as int,
            start_month as int,
            end_year as int,
            end_month as int,
        ),
        forall|k: int| 0 <= k < months@.len() ==> (#[trigger] months@[k]).valid(),
{
    let last_year: i64 = if start_month > end_month {
        end_year as i64 - 1
    } else {
        end_year as i64
    };
    if max_points == 0 || last_year < start_year as i64 {
        let months: Vec<YearMonth> = Vec::new();
        assert(month_indices(months@) =~= Seq::<int>::empty());
        return months;
    }
    let years: i64 = last_year - start_year as i64 + 1;
    let step: u64 = nice_step_for(years as u64, max_points);
    proof {
        lemma_nice_step(years as int, max_points as int);
        lemma_nice_step_bound(years as int, max_points as int);
    }
    let first: i64 = start_year as i64 * 12 + start_month as i64 - 1;
    let bound: i64 = last_year * 12 + start_month as i64;
    months_from(first, 12 * (step as i64), bound)
}

/// The step is at most ten times the span, and one for an empty span.
pub proof fn lemma_nice_step_bound(span: int, max_points: int)
    requires
        0 <= span,
        0 < max_points,
    ensures
        nice_step(span, max_points) <= 10 * span || nice_step(span, max_points) == 1,
    decreases span,
{
    if span <= max_points {
    } else if span / 2 <= max_points {
    } else if span / 5 <= max_points {
    } else {
        lemma_nice_step_bound(span / 10, max_points);
    }
}

/// The monthly ticks between the day `start` and the day `end`, as months.
pub fn month_ticks(start: CivilDate, end: CivilDate, max_points: usize) -> (months: Vec<
    YearMonth,
>)
    requires
        start.valid(),
        end.valid(),
    ensures
        month_indices(months@) == month_tick_indices(start, end, max_points as int),
        forall|k: int| 0 <= k < months@.len() ==> (#[trigger] months@[k]).valid(),
        months@.len() <= max_points + 1,
        forall|k: int|
            0 <= k < months@.len() ==> first_month(start) <= (#[trigger] months@[k]).index()
                <= last_month(end),
        forall|j: int, k: int|
            0 <= j < k < months@.len() ==> (#[trigger] months@[j]).index() < (
            #[trigger] months@[k]).index(),
{
    let first: i64 = start.year as i64 * 12 + start.month as i64 - 1 + if start.day == 1 {
        0
    } else {
        1
    };
    let last: i64 = end.year as i64 * 12 + end.month as i64 - 1;
    if max_points == 0 || last < first {
        let months: Vec<YearMonth> = Vec::new();
        assert(month_indices(months@) =~= Seq::<int>::empty());
        return months;
    }
    let total: u128 = (last - first) as u128;
    let budget: u128 = max_points as u128;
    let months = if total <= budget {
        months_from(first, 1, last + 1)
    } else if total <= budget * 3 {
        months_from(first, 3, last + 1)
    } else if total <= budget * 6 {
        months_from(first, 6, last + 1)
    } else {
        proof {
            lemma_fundamental_div_mod(first as int, 12);
            lemma_mod_bound(first as int, 12);
            lemma_quotient_bound(first as int, 12, i32::MIN as int);
            lemma_quotient_bound(first as int, 12, i32::MAX + 1);
        }
        let start_year: i128 = crate::arith::floor_div(first as i128, 12);
        let start_month: i128 = crate::arith::floor_mod(first as i128, 12) + 1;
        generate_yearly_keypoints(
            max_points,
            start_year as i32,
            start_month as u32,
            end.year,
            end.month,
        )
    };
    proof {
        lemma_month_ticks(start, end, max_points as int);
        let expected = month_tick_indices(start, end, max_points as int);
        assert forall|k: int| 0 <= k < months@.len() implies first_month(start) <= (
        #[trigger] months@[k]).index() <= last_month(end) by {
            assert(months@[k].index() == expected[k]);
        }
        assert forall|j: int, k: int| 0 <= j < k < months@.len() implies (
        #[trigger] months@[j]).index() < (#[trigger] months@[k]).index() by {
            assert(months@[j].index() == expected[j]);
            assert(months@[k].index() == expected[k]);
        }
    }
    months
}

/// The yearly ticks between the day `start` and the day `end`, as months.
pub fn year_ticks(start: CivilDate, end: CivilDate, max_points: usize) -> (months: Vec<YearMonth>)
    requires
        start.valid(),
        end.valid(),
    ensures
        month_indices(months@) == yearly_tick_indices(start, end, max_points as int),
        forall|k: int| 0 <= k < months@.len() ==> (#[trigger] months@[k]).valid(),
        months@.len() <= max_points + 1,
        forall|j: int, k: int|
            0 <= j < k < months@.len() ==> (#[trigger] months@[j]).index() < (
            #[trigger] months@[k]).index(),
{
    let mut start_year: i64 = start.year as i64;
    let mut start_month: u32 = start.month;
    if start.day != 1 {
        start_month = start_month + 1;
        if start_month == 13 {
            start_month = 1;
            start_year = start_year + 1;
        }
    }
    proof {
        let first = first_month(start);
        vstd::arithmetic::div_mod::lemma_fundamental_div_mod_converse(
            first,
            12,
            start_year as int,
            start_month - 1,
        );
        lemma_year_ticks(
            max_points as int,
            start_year as int,
            start_month as int,
            end.year as int,
            end.month as int,
        );
    }
    if start_year > i32::MAX as i64 {
        let months: Vec<YearMonth> = Vec::new();
        assert(month_indices(months@) =~= Seq::<int>::empty());
        return months;
    }
    let months = generate_yearly_keypoints(
        max_points,
        start_year as i32,
        start_month,
        end.year,
        end.month,
    );
    proof {
        let expected = yearly_tick_indices(start, end, max_points as int);
        assert forall|j: int, k: int| 0 <= j < k < months@.len() implies (
        #[trigger] months@[j]).index() < (#[trigger] months@[k]).index() by {
            assert(months@[j].index() == expected[j]);
            assert(months@[k].index() == expected[k]);
        }
    }
    months
}

} // verus!
