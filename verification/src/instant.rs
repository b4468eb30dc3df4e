//! Points on the time line: calendar days, date-times, what both have in
//! common, and the linear map from an interval of them onto a pixel range.

use crate::arith::{
    ceil_div, fits_i64, lemma_quotient_bound, lemma_trunc_div_monotone, lemma_trunc_div_unique,
    saturate, trunc_div,
};
use crate::duration::Duration;
use crate::period::NS_PER_DAY;
use vstd::arithmetic::div_mod::{
    lemma_div_nonincreasing, lemma_div_pos_is_pos, lemma_fundamental_div_mod_converse,
};
use vstd::prelude::*;

verus! {

/// A calendar day, counted in days of the proleptic Gregorian calendar with
/// January 1 of year 1 as day 1.
#[derive(Clone, Copy, Debug, PartialEq, Eq, Structural, PartialOrd, Ord, Hash)]
pub struct Date {
    pub days: i32,
}

impl View for Date {
    type V = int;

    open spec fn view(&self) -> int {
        self.days as int
    }
}

/// A time of day on a calendar day, in nanoseconds since midnight.
#[derive(Clone, Copy, Debug, PartialEq, Eq, Structural, PartialOrd, Ord, Hash)]
pub struct DateTime {
    pub date: Date,
    pub nanos: u64,
}

impl DateTime {
    /// The date-time `nanos` nanoseconds after midnight on `date`, where
    /// that is a valid one.
    pub fn new(date: Date, nanos: u64) -> (value: Option<DateTime>)
        ensures
            match value {
                Some(v) => v.date == date && v.nanos == nanos && v.valid(),
                None => !(DateTime { date, nanos }).valid(),
            },
    {
        if nanos < NS_PER_DAY && (nanos == 0 || date.days < i32::MAX) {
            Some(DateTime { date, nanos })
        } else {
            None
        }
    }
}

/// Where `num / den` of the way from `lo` to `hi` lies, rounded toward `lo`
/// and held to the range of `i32`. A zero denominator stands for a quotient
/// without bound, or for no offset at all where the numerator is zero too.
pub open spec fn project(num: int, den: int, lo: int, hi: int) -> int {
    if den == 0 {
        if (hi - lo) * num > 0 {
            i32::MAX as int
        } else if (hi - lo) * num < 0 {
            i32::MIN as int
        } else {
            lo
        }
    } else {
        saturate(lo + trunc_div((hi - lo) * num, den))
    }
}

/// The pixel of a value that lies `value_span` nanoseconds after the start
/// of an interval of `total_span` nanoseconds, on the pixel range from `lo`
/// to `hi`. Nanoseconds are used where both spans fit in 64 bits, and whole
/// days otherwise.
pub open spec fn map_position(value_span: int, total_span: int, lo: int, hi: int) -> int {
    if fits_i64(total_span) && fits_i64(value_span) {
        project(value_span, total_span, lo, hi)
    } else {
        project(
            trunc_div(value_span, NS_PER_DAY as int),
            trunc_div(total_span, NS_PER_DAY as int),
            lo,
            hi,
        )
    }
}

/// The start of an interval lies on the first pixel, and the end of an
/// interval that is not empty lies on the last.
pub proof fn lemma_map_ends(total_span: int, lo: i32, hi: i32)
    ensures
        map_position(0, total_span, lo as int, hi as int) == lo,
        total_span != 0 ==> map_position(total_span, total_span, lo as int, hi as int) == hi,
{
    let day = NS_PER_DAY as int;
    let span = hi - lo;
    assert(span * 0 == 0) by (nonlinear_arith);
    assert(trunc_div(0, day) == 0);
    if total_span != 0 {
        lemma_trunc_div_unique(0, total_span, 0, 0);
        lemma_trunc_div_unique(span * total_span, total_span, span, 0);
    }
    let total_days = trunc_div(total_span, day);
    if !fits_i64(total_span) {
        if total_span > 0 {
            lemma_quotient_bound(total_span, day, 1);
        } else {
            lemma_quotient_bound(-total_span, day, 1);
        }
        lemma_trunc_div_unique(0, total_days, 0, 0);
        lemma_trunc_div_unique(span * total_days, total_days, span, 0);
    }
}

/// `project` does not fall along a rising pixel range, nor rise along a
/// falling one, when the numerator rises from zero on over a positive denominator.
pub proof fn lemma_project_monotone(a: int, b: int, den: int, lo: int, hi: int)
    requires
        0 <= a <= b,
        den > 0,
    ensures
        lo <= hi ==> project(a, den, lo, hi) <= project(b, den, lo, hi),
        lo >= hi ==> project(a, den, lo, hi) >= project(b, den, lo, hi),
{
    let span = hi - lo;
    if span >= 0 {
        assert(span * a <= span * b) by (nonlinear_arith)
            requires
                span >= 0,
                a <= b,
        ;
        lemma_trunc_div_monotone(span * a, span * b, den);
    }
    if span <= 0 {
        assert(span * b <= span * a) by (nonlinear_arith)
            requires
                span <= 0,
                a <= b,
        ;
        lemma_trunc_div_monotone(span * b, span * a, den);
    }
}

/// Of two values inside an interval, the later does not lie before the
/// earlier on a rising pixel range, nor after it on a falling one.
pub proof fn lemma_map_monotone(earlier: int, later: int, total_span: int, lo: int, hi: int)
    requires
        0 <= earlier <= later < total_span,
    ensures
        lo <= hi ==> map_position(earlier, total_span, lo, hi) <= map_position(
            later,
            total_span,
            lo,
            hi,
        ),
        lo >= hi ==> map_position(earlier, total_span, lo, hi) >= map_position(
            later,
            total_span,
            lo,
            hi,
        ),
{
    let day = NS_PER_DAY as int;
    if fits_i64(total_span) {
        lemma_project_monotone(earlier, later, total_span, lo, hi);
    } else {
        lemma_quotient_bound(total_span, day, 1);
        lemma_trunc_div_monotone(earlier, later, day);
        lemma_trunc_div_monotone(0, earlier, day);
        lemma_project_monotone(
            trunc_div(earlier, day),
            trunc_div(later, day),
            trunc_div(total_span, day),
            lo,
            hi,
        );
    }
}

/// The largest magnitude of a numerator or denominator that `project_onto` takes.
pub const PROJECT_LIMIT: i128 = 0x100_0000_0000_0000_0000_0000;

/// Computes `project`.
pub fn project_onto(num: i128, den: i128, limit: (i32, i32)) -> (pixel: i32)
    requires
        -PROJECT_LIMIT <= num <= PROJECT_LIMIT,
        -PROJECT_LIMIT <= den <= PROJECT_LIMIT,
    ensures
        pixel == project(num as int, den as int, limit.0 as int, limit.1 as int),
{
    let lo: i128 = limit.0 as i128;
    let span: i128 = limit.1 as i128 - lo;
    assert(-0x1_0000_0000 * PROJECT_LIMIT <= span * num <= 0x1_0000_0000 * PROJECT_LIMIT)
        by (nonlinear_arith)
        requires
            -0x1_0000_0000 <= span <= 0x1_0000_0000,
            -PROJECT_LIMIT <= num <= PROJECT_LIMIT,
    ;
    let scaled: i128 = span * num;
    if den == 0 {
        if scaled > 0 {
            i32::MAX
        } else if scaled < 0 {
            i32::MIN
        } else {
            limit.0
        }
    } else {
        proof {
            let magnitude = if scaled >= 0 {
                scaled as int
            } else {
                -scaled
            };
            let divisor = if den > 0 {
                den as int
            } else {
                -den
            };
            lemma_div_nonincreasing(magnitude, divisor);
            lemma_div_pos_is_pos(magnitude, divisor);
        }
        let quotient: i128 = if den > 0 {
            scaled / den
        } else {
            (-scaled) / (-den)
        };
        let target: i128 = lo + quotient;
        if target < i32::MIN as i128 {
            i32::MIN
        } else if target > i32::MAX as i128 {
            i32::MAX
        } else {
            target as i32
        }
    }
}

/// Computes `map_position` for two spans.
pub fn map_span(value_span: Duration, total_span: Duration, limit: (i32, i32)) -> (pixel: i32)
    requires
        value_span.valid(),
        total_span.valid(),
    ensures
        pixel == map_position(value_span@, total_span@, limit.0 as int, limit.1 as int),
{
    match (total_span.num_nanoseconds(), value_span.num_nanoseconds()) {
        (Some(total_ns), Some(value_ns)) => project_onto(value_ns as i128, total_ns as i128, limit),
        _ => project_onto(value_span.num_days() as i128, total_span.num_days() as i128, limit),
    }
}

/// The positions of a sequence of values on the time line.
pub open spec fn instants<T: TimeValue>(values: Seq<T>) -> Seq<int> {
    values.map_values(|v: T| v.instant())
}

/// What a point on the time line offers, whether it is a calendar day or a
/// time of day on one.
pub trait TimeValue: Sized + Copy {
    /// Whether the value is one that the operations accept.
    spec fn valid(&self) -> bool;

    /// The position on the time line, in nanoseconds since the start of day 0.
    spec fn instant(&self) -> int;

    /// Two valid values at the same position are the same value.
    proof fn lemma_instant_unique(&self, other: &Self)
        requires
            self.valid(),
            other.valid(),
            self.instant() == other.instant(),
        ensures
            *self == *other,
    ;

    /// The latest day that does not start after the value.
    fn date_floor(&self) -> (day: Date)
        requires
            self.valid(),
        ensures
            day@ == self.instant() / (NS_PER_DAY as int),
    ;

    /// The earliest day that does not start before the value.
    fn date_ceil(&self) -> (day: Date)
        requires
            self.valid(),
        ensures
            day@ == ceil_div(self.instant(), NS_PER_DAY as int),
    ;

    /// The earliest value on the given day.
    fn earliest_after_date(date: Date) -> (value: Self)
        ensures
            value.valid(),
            value.instant() == date@ * NS_PER_DAY,
    ;

    /// The span from `other` to the value.
    fn subtract(&self, other: &Self) -> (span: Duration)
        requires
            self.valid(),
            other.valid(),
        ensures
            span.valid(),
            span@ == self.instant() - other.instant(),
    ;

    /// The pixel of `value` when the interval from `begin` to `end` is laid
    /// onto the pixel range `limit`.
    fn map_coord(value: &Self, begin: &Self, end: &Self, limit: (i32, i32)) -> (pixel: i32)
        requires
            value.valid(),
            begin.valid(),
            end.valid(),
        ensures
            pixel == map_position(
                value.instant() - begin.instant(),
                end.instant() - begin.instant(),
                limit.0 as int,
                limit.1 as int,
            ),
    {
        let total_span = end.subtract(begin);
        let value_span = value.subtract(begin);
        map_span(value_span, total_span, limit)
    }
}

impl TimeValue for Date {
    open spec fn valid(&self) -> bool {
        true
    }

    open spec fn instant(&self) -> int {
        self.days * NS_PER_DAY
    }

    proof fn lemma_instant_unique(&self, other: &Date) {
    }

    fn date_floor(&self) -> (day: Date) {
        proof {
            lemma_fundamental_div_mod_converse(self.instant(), NS_PER_DAY as int, self@, 0);
        }
        *self
    }

    fn date_ceil(&self) -> (day: Date) {
        proof {
            lemma_fundamental_div_mod_converse(-self.instant(), NS_PER_DAY as int, -self@, 0);
        }
        *self
    }

    fn earliest_after_date(date: Date) -> (value: Date) {
        date
    }

    fn subtract(&self, other: &Date) -> (span: Duration) {
        let days: i128 = self.days as i128 - other.days as i128;
        let day: i128 = NS_PER_DAY as i128;
        Duration { nanos: days * day }
    }
}

impl TimeValue for DateTime {
    /// The time of day is less than a day, and the day after is a `Date`
    /// unless the time is midnight.
    open spec fn valid(&self) -> bool {
        self.nanos < NS_PER_DAY && (self.nanos == 0 || self.date.days < i32::MAX)
    }

    open spec fn instant(&self) -> int {
        self.date.days * NS_PER_DAY + self.nanos
    }

    proof fn lemma_instant_unique(&self, other: &DateTime) {
    }

    fn date_floor(&self) -> (day: Date) {
        proof {
            lemma_fundamental_div_mod_converse(
                self.instant(),
                NS_PER_DAY as int,
                self.date@,
                self.nanos as int,
            );
        }
        self.date
    }

    fn date_ceil(&self) -> (day: Date) {
        if self.nanos > 0 {
            proof {
                lemma_fundamental_div_mod_converse(
                    -self.instant(),
                    NS_PER_DAY as int,
                    -self.date@ - 1,
                    NS_PER_DAY - self.nanos,
                );
            }
            Date { days: self.date.days + 1 }
        } else {
            proof {
                lemma_fundamental_div_mod_converse(
                    -self.instant(),
                    NS_PER_DAY as int,
                    -self.date@,
                    0,
                );
            }
            self.date
        }
    }

    fn earliest_after_date(date: Date) -> (value: DateTime) {
        DateTime { date, nanos: 0 }
    }

    fn subtract(&self, other: &DateTime) -> (span: Duration) {
        let days: i128 = self.date.days as i128 - other.date.days as i128;
        let day: i128 = NS_PER_DAY as i128;
        Duration { nanos: days * day + (self.nanos as i128 - other.nanos as i128) }
    }
}

} // verus!
