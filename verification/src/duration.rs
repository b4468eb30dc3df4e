//! Spans of time that are not anchored to a calendar, and the coordinate over them.

use crate::arith::{
    fits_i64, floor_div, floor_mod, lemma_div_of_negation, lemma_nested_div,
    lemma_quotient_bound, lemma_tick_count, lemma_ticks_shape,
    lemma_trunc_div_monotone, lemma_trunc_div_unique, round_up, round_up_to, saturate, tick_count,
    ticks, trunc_div,
};
use crate::calendar::{lemma_nice_step, lemma_nice_step_bound, nice_step, nice_step_for};
use crate::period::{compute_period_per_point, tick_period, NS_PER_DAY};
use std::ops::Range;
use vstd::arithmetic::div_mod::{
    lemma_div_is_ordered, lemma_fundamental_div_mod, lemma_fundamental_div_mod_converse,
    lemma_hoist_over_denominator, lemma_mod_bound, lemma_mod_multiples_vanish,
};
use vstd::prelude::*;
use vstd::std_specs::convert::FromSpecImpl;

verus! {

/// The largest span that a `Duration` holds: the nanoseconds in `i64::MAX` milliseconds.
pub const MAX_SPAN_NS: i128 = 9_223_372_036_854_775_807_000_000;

/// A signed span of time in nanoseconds.
#[derive(Clone, Copy, Debug, PartialEq, Eq, Structural, PartialOrd, Ord, Hash)]
pub struct Duration {
    pub nanos: i128,
}

impl View for Duration {
    type V = int;

    open spec fn view(&self) -> int {
        self.nanos as int
    }
}

impl Duration {
    /// A span is valid when its magnitude is at most `MAX_SPAN_NS`.
    pub open spec fn valid(&self) -> bool {
        -MAX_SPAN_NS <= self.nanos <= MAX_SPAN_NS
    }

    /// The span of `n` nanoseconds.
    pub fn nanoseconds(n: i64) -> (d: Duration)
        ensures
            d@ == n,
            d.valid(),
    {
        Duration { nanos: n as i128 }
    }

    /// The span in nanoseconds, where that fits in 64 bits.
    pub fn num_nanoseconds(&self) -> (n: Option<i64>)
        ensures
            match n {
                Some(v) => v == self@,
                None => !fits_i64(self@),
            },
    {
        if self.nanos < i64::MIN as i128 || self.nanos > i64::MAX as i128 {
            None
        } else {
            Some(self.nanos as i64)
        }
    }

    /// The number of whole days in the span, rounded toward zero.
    pub fn num_days(&self) -> (n: i64)
        requires
            self.valid(),
        ensures
            n == trunc_div(self@, NS_PER_DAY as int),
    {
        (self.nanos / (NS_PER_DAY as i128)) as i64
    }
}

/// The spans of a sequence of durations, in nanoseconds.
pub open spec fn span_values(spans: Seq<Duration>) -> Seq<int> {
    spans.map_values(|d: Duration| d@)
}

/// The allowance added to a quotient before it is cut to a whole number is
/// one part in this many.
pub const NUDGE_PARTS: i128 = 10_000_000_000;

/// The quotient of `n` by `d`, raised by one part in `NUDGE_PARTS` and then
/// rounded toward zero, for `d != 0`.
pub open spec fn nudged_quotient(n: int, d: int) -> int {
    trunc_div(n * NUDGE_PARTS + d, d * NUDGE_PARTS)
}

/// Where `num / den` of the way from `lo` to `hi` lies, with the quotient
/// nudged before it is cut, held to the range of `i32`. A zero denominator
/// stands for a quotient without bound, or for no offset at all where the
/// numerator is zero too.
pub open spec fn project_nudged(num: int, den: int, lo: int, hi: int) -> int {
    if den == 0 {
        if (hi - lo) * num > 0 {
            i32::MAX as int
        } else if (hi - lo) * num < 0 {
            i32::MIN as int
        } else {
            lo
        }
    } else {
        saturate(lo + nudged_quotient((hi - lo) * num, den))
    }
}

/// The pixel of a value that lies `value_span` nanoseconds after the start
/// of an interval of `total_span` nanoseconds, on the pixel range from `lo`
/// to `hi`. Nanoseconds are used where the interval fits in 64 bits, and a
/// value too far off for them lands on `hi`; whole days are used otherwise.
pub open spec fn duration_position(value_span: int, total_span: int, lo: int, hi: int) -> int {
    if fits_i64(total_span) {
        if fits_i64(value_span) {
            project_nudged(value_span, total_span, lo, hi)
        } else {
            hi
        }
    } else {
        project_nudged(
            trunc_div(value_span, NS_PER_DAY as int),
            trunc_div(total_span, NS_PER_DAY as int),
            lo,
            hi,
        )
    }
}

/// A whole quotient stays as it is under the nudge where it is zero or
/// more, and moves one toward zero where it is negative.
pub proof fn lemma_nudged_whole(whole: int, d: int)
    requires
        d != 0,
    ensures
        nudged_quotient(0, d) == 0,
        whole >= 0 ==> nudged_quotient(whole * d, d) == whole,
        whole < 0 ==> nudged_quotient(whole * d, d) == whole + 1,
{
    let parts = NUDGE_PARTS as int;
    let scale = d * parts;
    assert(scale == d * 10_000_000_000);
    assert(0 * parts == 0) by (nonlinear_arith);
    lemma_trunc_div_unique(d, scale, 0, d);
    let n = (whole * d) * parts + d;
    assert(n == whole * scale + d && n == (whole + 1) * scale + (d - scale)) by (nonlinear_arith)
        requires
            n == (whole * d) * parts + d,
            scale == d * parts,
    ;
    assert(n == d * (whole * parts + 1)) by (nonlinear_arith)
        requires
            n == (whole * d) * parts + d,
    ;
    if whole >= 0 {
        assert((n >= 0 ==> d >= 0) && (n <= 0 ==> d <= 0)) by (nonlinear_arith)
            requires
                n == d * (whole * parts + 1),
                whole >= 0,
                parts == 10_000_000_000,
        ;
        lemma_trunc_div_unique(n, scale, whole, d);
    } else {
        assert((n >= 0 ==> d <= 0) && (n <= 0 ==> d >= 0)) by (nonlinear_arith)
            requires
                n == d * (whole * parts + 1),
                whole < 0,
                parts == 10_000_000_000,
        ;
        lemma_trunc_div_unique(n, scale, whole + 1, d - scale);
    }
}

/// The start of an interval lies on the first pixel. The end of an
/// interval that is not empty lies on the last pixel of a rising pixel
/// range, and one pixel short of the last of a falling one.
pub proof fn lemma_duration_map_ends(total_span: int, lo: i32, hi: i32)
    ensures
        duration_position(0, total_span, lo as int, hi as int) == lo,
        total_span != 0 && lo <= hi ==> duration_position(
            total_span,
            total_span,
            lo as int,
            hi as int,
        ) == hi,
        total_span != 0 && lo > hi ==> duration_position(
            total_span,
            total_span,
            lo as int,
            hi as int,
        ) == hi + 1,
{
    let day = NS_PER_DAY as int;
    let span = hi - lo;
    assert(span * 0 == 0) by (nonlinear_arith);
    assert(trunc_div(0, day) == 0);
    if total_span != 0 {
        lemma_nudged_whole(span, total_span);
    }
    let total_days = trunc_div(total_span, day);
    if !fits_i64(total_span) {
        if total_span > 0 {
            lemma_quotient_bound(total_span, day, 1);
        } else {
            lemma_quotient_bound(-total_span, day, 1);
        }
        lemma_nudged_whole(span, total_days);
    }
}

/// `project_nudged` does not fall along a rising pixel range, nor rise
/// along a falling one, when the numerator rises from zero on over a
/// positive denominator.
pub proof fn lemma_project_nudged_monotone(a: int, b: int, den: int, lo: int, hi: int)
    requires
        0 <= a <= b,
        den > 0,
    ensures
        lo <= hi ==> project_nudged(a, den, lo, hi) <= project_nudged(b, den, lo, hi),
        lo >= hi ==> project_nudged(a, den, lo, hi) >= project_nudged(b, den, lo, hi),
{
    let span = hi - lo;
    let parts = NUDGE_PARTS as int;
    assert(den * parts > 0) by (nonlinear_arith)
        requires
            den > 0,
            parts > 0,
    ;
    if span >= 0 {
        assert((span * a) * parts + den <= (span * b) * parts + den) by (nonlinear_arith)
            requires
                span >= 0,
                a <= b,
                parts > 0,
        ;
        lemma_trunc_div_monotone((span * a) * parts + den, (span * b) * parts + den, den * parts);
    }
    if span <= 0 {
        assert((span * b) * parts + den <= (span * a) * parts + den) by (nonlinear_arith)
            requires
                span <= 0,
                a <= b,
                parts > 0,
        ;
        lemma_trunc_div_monotone((span * b) * parts + den, (span * a) * parts + den, den * parts);
    }
}

/// Of two values inside an interval, the later does not lie before the
/// earlier on a rising pixel range, nor after it on a falling one.
pub proof fn lemma_duration_map_monotone(
    earlier: int,
    later: int,
    total_span: int,
    lo: int,
    hi: int,
)
    requires
        0 <= earlier <= later < total_span,
    ensures
        lo <= hi ==> duration_position(earlier, total_span, lo, hi) <= duration_position(
            later,
            total_span,
            lo,
            hi,
        ),
        lo >= hi ==> duration_position(earlier, total_span, lo, hi) >= duration_position(
            later,
            total_span,
            lo,
            hi,
        ),
{
    let day = NS_PER_DAY as int;
    if fits_i64(total_span) {
        lemma_project_nudged_monotone(earlier, later, total_span, lo, hi);
    } else {
        lemma_quotient_bound(total_span, day, 1);
        lemma_trunc_div_monotone(earlier, later, day);
        lemma_trunc_div_monotone(0, earlier, day);
        lemma_project_nudged_monotone(
            trunc_div(earlier, day),
            trunc_div(later, day),
            trunc_div(total_span, day),
            lo,
            hi,
        );
    }
}

/// The largest magnitude of a numerator or denominator that `nudged_quotient_of` takes.
pub const NUDGE_LIMIT: i128 = 0x100_0000_0000_0000_0000_0000_0000_0000;

/// Computes `nudged_quotient`.
pub fn nudged_quotient_of(n: i128, d: i128) -> (q: i128)
    requires
        d != 0,
        -NUDGE_LIMIT <= n <= NUDGE_LIMIT,
        -0x100_0000_0000_0000_0000_0000 <= d <= 0x100_0000_0000_0000_0000_0000,
    ensures
        q == nudged_quotient(n as int, d as int),
        -NUDGE_LIMIT - 1 <= q <= NUDGE_LIMIT + 1,
{
    let (top, bottom): (i128, i128) = if d < 0 {
        (-n, -d)
    } else {
        (n, d)
    };
    let whole: i128 = floor_div(top, bottom);
    let rest: i128 = floor_mod(top, bottom);
    let ghost parts = NUDGE_PARTS as int;
    let ghost numerator = top * parts + bottom;
    let ghost denominator = bottom * parts;
    proof {
        lemma_fundamental_div_mod(top as int, bottom as int);
        assert(denominator > 0) by (nonlinear_arith)
            requires
                denominator == bottom * parts,
                bottom > 0,
                parts > 0,
        ;
        assert(0 <= rest * parts <= (bottom - 1) * parts) by (nonlinear_arith)
            requires
                0 <= rest <= bottom - 1,
                parts > 0,
        ;
        assert((bottom - 1) * parts == bottom * parts - parts) by (nonlinear_arith);
        assert(bottom * parts <= 0x100_0000_0000_0000_0000_0000 * 10_000_000_000)
            by (nonlinear_arith)
            requires
                0 < bottom <= 0x100_0000_0000_0000_0000_0000,
                parts == 10_000_000_000,
        ;
        lemma_quotient_bound(top as int, bottom as int, -NUDGE_LIMIT as int);
        assert((-NUDGE_LIMIT) * bottom <= top) by (nonlinear_arith)
            requires
                -NUDGE_LIMIT <= top,
                bottom >= 1,
        ;
        lemma_quotient_bound(top as int, bottom as int, NUDGE_LIMIT + 1);
        assert((NUDGE_LIMIT + 1) * bottom > top) by (nonlinear_arith)
            requires
                top <= NUDGE_LIMIT,
                bottom >= 1,
        ;
    }
    let extra: i128 = rest * NUDGE_PARTS + bottom;
    let scale: i128 = bottom * NUDGE_PARTS;
    let lifted: i128 = if extra >= scale {
        whole + 1
    } else {
        whole
    };
    proof {
        // numerator == whole * denominator + extra, with 0 < extra < 2 * denominator
        assert(numerator == whole * denominator + extra) by (nonlinear_arith)
            requires
                top == bottom * whole + rest,
                numerator == top * parts + bottom,
                denominator == bottom * parts,
                extra == rest * parts + bottom,
        ;
        lemma_hoist_over_denominator(extra as int, whole as int, denominator as nat);
        if extra >= scale {
            lemma_fundamental_div_mod_converse(extra as int, denominator, 1, extra - scale);
        } else {
            lemma_fundamental_div_mod_converse(extra as int, denominator, 0, extra as int);
        }
        assert(numerator / denominator == lifted);
        lemma_mod_multiples_vanish(whole as int, extra as int, denominator);
        assert(denominator * whole == whole * denominator) by (nonlinear_arith);
        assert(numerator % denominator == (extra as int) % denominator);
        lemma_div_of_negation(numerator, denominator);
        lemma_div_of_negation(-numerator, denominator);
        lemma_quotient_bound(numerator, denominator, 0);
        assert(0 * denominator == 0) by (nonlinear_arith);
        assert(d < 0 ==> numerator == -(n * parts + d) && denominator == -(d * parts))
            by (nonlinear_arith)
            requires
                d < 0 ==> top == -n && bottom == -d,
                numerator == top * parts + bottom,
                denominator == bottom * parts,
        ;
    }
    if lifted >= 0 || extra == scale {
        lifted
    } else {
        lifted + 1
    }
}

/// Computes `project_nudged`.
pub fn project_nudged_onto(num: i128, den: i128, limit: (i32, i32)) -> (pixel: i32)
    requires
        -0x100_0000_0000_0000_0000_0000 <= num <= 0x100_0000_0000_0000_0000_0000,
        -0x100_0000_0000_0000_0000_0000 <= den <= 0x100_0000_0000_0000_0000_0000,
    ensures
        pixel == project_nudged(num as int, den as int, limit.0 as int, limit.1 as int),
{
    let lo: i128 = limit.0 as i128;
    let span: i128 = limit.1 as i128 - lo;
    assert(-0x1_0000_0000 * 0x100_0000_0000_0000_0000_0000 <= span * num <= 0x1_0000_0000
        * 0x100_0000_0000_0000_0000_0000) by (nonlinear_arith)
        requires
            -0x1_0000_0000 <= span <= 0x1_0000_0000,
            -0x100_0000_0000_0000_0000_0000 <= num <= 0x100_0000_0000_0000_0000_0000,
    ;
    let scaled: i128 = span * num;
    if den == 0 {
        if scaled > 0 {
            i32::MAX
        } else if scaled < 0 {
            i32::MIN
        } else {
            limit.0
        }
    } else {
        let target: i128 = lo + nudged_quotient_of(scaled, den);
        if target < i32::MIN as i128 {
            i32::MIN
        } else if target > i32::MAX as i128 {
            i32::MAX
        } else {
            target as i32
        }
    }
}

/// The first tick of the day-wise ticks: `begin` where it is a whole
/// number of days, else the day after its whole days.
pub open spec fn first_whole_day(begin: int) -> int {
    let days = trunc_div(begin, NS_PER_DAY as int);
    if days * NS_PER_DAY == begin {
        begin
    } else {
        (days + 1) * NS_PER_DAY
    }
}

/// The spans of the ticks between the spans `begin` and `end` for a budget
/// of `max_points` points. Where the interval fits in 64 bits they are the
/// multiples of the tick period from `begin` on that lie before `end`;
/// else they are a `nice_step` of days apart, from the first whole day.
/// There is none where the budget is empty or `end` is not after `begin`.
pub open spec fn duration_ticks(begin: int, end: int, max_points: int) -> Seq<int> {
    if max_points <= 0 || end <= begin {
        Seq::empty()
    } else if fits_i64(end - begin) {
        match tick_period(end - begin, max_points, false) {
            Some(period) => ticks(round_up(begin, period), period, end),
            None => Seq::empty(),
        }
    } else {
        let whole_days = trunc_div(end, NS_PER_DAY as int) - trunc_div(begin, NS_PER_DAY as int);
        ticks(first_whole_day(begin), nice_step(whole_days, max_points) * NS_PER_DAY, end)
    }
}

/// The coordinate over the spans from a first to a last.
pub struct RangedDuration(pub Duration, pub Duration);

impl From<Range<Duration>> for RangedDuration {
    fn from(range: Range<Duration>) -> (coord: Self) {
        RangedDuration(range.start, range.end)
    }
}

impl FromSpecImpl<Range<Duration>> for RangedDuration {
    open spec fn obeys_from_spec() -> bool {
        true
    }

    open spec fn from_spec(range: Range<Duration>) -> Self {
        RangedDuration(range.start, range.end)
    }
}

/// The ticks `first`, `first + step`, ... before `end`, as spans.
fn spans_from(first: i128, step: i128, end: i128) -> (points: Vec<Duration>)
    requires
        step >= 1,
        -MAX_SPAN_NS <= first,
        end <= MAX_SPAN_NS,
        step <= 0x1_0000_0000_0000_0000_0000_0000_0000,
    ensures
        span_values(points@) == ticks(first as int, step as int, end as int),
        forall|k: int| 0 <= k < points@.len() ==> (#[trigger] points@[k]).valid(),
{
    let mut points: Vec<Duration> = Vec::new();
    let mut current: i128 = first;
    let ghost mut k: int = 0;
    while current < end
        invariant
            step >= 1,
            -MAX_SPAN_NS <= first,
            end <= MAX_SPAN_NS,
            step <= 0x1_0000_0000_0000_0000_0000_0000_0000,
            k >= 0,
            current == first + k * step,
            k > 0 ==> first + (k - 1) * step < end,
            points@.len() == k,
            forall|j: int| 0 <= j < k ==> (#[trigger] points@[j])@ == first + j * step,
            forall|j: int| 0 <= j < k ==> (#[trigger] points@[j]).valid(),
        decreases end + step - current,
    {
        proof {
            assert((k + 1) * step == k * step + step) by (nonlinear_arith);
            assert(k * step >= 0) by (nonlinear_arith)
                requires
                    k >= 0,
                    step >= 1,
            ;
        }
        points.push(Duration { nanos: current });
        current = current + step;
        proof {
            k = k + 1;
        }
    }
    proof {
        lemma_tick_count(first as int, step as int, end as int, k);
        assert(span_values(points@) =~= ticks(first as int, step as int, end as int));
    }
    points
}

impl RangedDuration {
    /// Both ends are valid spans.
    pub open spec fn valid(&self) -> bool {
        self.0.valid() && self.1.valid()
    }

    /// The two ends of the coordinate.
    pub fn range(&self) -> (ends: Range<Duration>)
        ensures
            ends.start == self.0,
            ends.end == self.1,
    {
        Range { start: self.0, end: self.1 }
    }

    /// The pixel of `value` on the pixel range `limit`.
    pub fn map(&self, value: &Duration, limit: (i32, i32)) -> (pixel: i32)
        requires
            self.valid(),
            value.valid(),
        ensures
            pixel == duration_position(
                value@ - self.0@,
                self.1@ - self.0@,
                limit.0 as int,
                limit.1 as int,
            ),
    {
        let total: i128 = self.1.nanos - self.0.nanos;
        let offset: i128 = value.nanos - self.0.nanos;
        if i64::MIN as i128 <= total && total <= i64::MAX as i128 {
            if i64::MIN as i128 <= offset && offset <= i64::MAX as i128 {
                project_nudged_onto(offset, total, limit)
            } else {
                limit.1
            }
        } else {
            let day: i128 = NS_PER_DAY as i128;
            project_nudged_onto(offset / day, total / day, limit)
        }
    }

    /// The ticks of the coordinate for a budget of `max_points` points.
    /// They rise strictly, lie from the first end on and before the last,
    /// and are at most one more than the budget.
    pub fn key_points(&self, max_points: usize) -> (points: Vec<Duration>)
        requires
            self.valid(),
        ensures
            span_values(points@) == duration_ticks(self.0@, self.1@, max_points as int),
            forall|k: int| 0 <= k < points@.len() ==> (#[trigger] points@[k]).valid(),
            points@.len() <= max_points + 1,
            forall|k: int| 0 <= k < points@.len() ==> self.0@ <= (#[trigger] points@[k])@ < self.1@,
            forall|j: int, k: int|
                0 <= j < k < points@.len() ==> (#[trigger] points@[j])@ < (#[trigger] points@[k])@,
    {
        let begin: i128 = self.0.nanos;
        let end: i128 = self.1.nanos;
        let total: i128 = end - begin;
        if max_points == 0 || total <= 0 {
            let points: Vec<Duration> = Vec::new();
            assert(span_values(points@) =~= Seq::<int>::empty());
            return points;
        }
        let day: i128 = NS_PER_DAY as i128;
        let (first, step): (i128, i128) = if total <= i64::MAX as i128 {
            match compute_period_per_point(total as u64, max_points, false) {
                Some(period) => {
                    let step: i128 = period as i128;
                    let first: i128 = round_up_to(begin, step);
                    proof {
                        if first < end {
                            lemma_div_is_ordered(end - first - 1, total as int, step as int);
                        }
                        assert(tick_count(first as int, step as int, end as int) <= max_points
                            + 1);
                    }
                    (first, step)
                },
                None => {
                    let points: Vec<Duration> = Vec::new();
                    assert(span_values(points@) =~= Seq::<int>::empty());
                    return points;
                },
            }
        } else {
            let begin_days: i128 = begin / day;
            let end_days: i128 = end / day;
            proof {
                lemma_fundamental_div_mod(begin as int, day as int);
                lemma_fundamental_div_mod(-begin, day as int);
                lemma_fundamental_div_mod(end as int, day as int);
                lemma_fundamental_div_mod(-end, day as int);
                lemma_mod_bound(begin as int, day as int);
                lemma_mod_bound(-begin, day as int);
                lemma_mod_bound(end as int, day as int);
                lemma_mod_bound(-end, day as int);
            }
            let whole_days: i128 = end_days - begin_days;
            let nice: u64 = nice_step_for(whole_days as u64, max_points);
            proof {
                lemma_nice_step(whole_days as int, max_points as int);
                lemma_nice_step_bound(whole_days as int, max_points as int);
            }
            let first: i128 = if begin_days * day == begin {
                begin
            } else {
                (begin_days + 1) * day
            };
            let step: i128 = nice as i128 * day;
            proof {
                // fewer than `whole_days + 1` days lie between the first tick and the end
                let reach = end - first - 1;
                assert(reach < (whole_days + 1) * day);
                if reach >= 0 {
                    lemma_quotient_bound(reach as int, day as int, whole_days + 1);
                    lemma_quotient_bound(reach as int, day as int, 0);
                    lemma_nested_div(reach as int, day as int, nice as int);
                    assert(day * nice == nice * day) by (nonlinear_arith);
                    lemma_div_is_ordered(reach / (day as int), whole_days as int, nice as int);
                    assert(reach / (step as int) <= max_points);
                }
                assert(tick_count(first as int, step as int, end as int) <= max_points + 1);
            }
            (first, step)
        };
        assert(tick_count(first as int, step as int, end as int) <= max_points + 1);
        let points = spans_from(first, step, end);
        proof {
            let t = ticks(first as int, step as int, end as int);
            assert(span_values(points@).len() == points@.len());
            lemma_ticks_shape(first as int, step as int, end as int);
            assert forall|k: int| 0 <= k < points@.len() implies self.0@ <= (
            #[trigger] points@[k])@ < self.1@ by {
                assert(span_values(points@)[k] == t[k]);
            }
            assert forall|j: int, k: int| 0 <= j < k < points@.len() implies (
            #[trigger] points@[j])@ < (#[trigger] points@[k])@ by {
                assert(span_values(points@)[j] == t[j]);
                assert(span_values(points@)[k] == t[k]);
            }
        }
        points
    }
}

} // verus!
