//! Selection of a readable tick period for a span measured in nanoseconds.
//!
//! Candidate periods form a ladder: a unit multiplied by the entries of a
//! short table, and once the table is used up the unit grows by a carry
//! factor and the table starts over. The chosen period is the first rung on
//! which the span fits within the point budget.

use crate::arith::{lemma_nested_div, lemma_quotient_bound};
use vstd::arithmetic::div_mod::{lemma_div_is_ordered, lemma_div_multiples_vanish};
use vstd::arithmetic::power::{lemma_pow0, lemma_pow1, lemma_pow_adds, lemma_pow_positive, pow};
use vstd::prelude::*;

verus! {

pub const NS_PER_SECOND: u64 = 1_000_000_000;

pub const NS_PER_HOUR: u64 = 3_600_000_000_000;

pub const NS_PER_DAY: u64 = 86_400_000_000_000;

pub const NS_PER_TEN_DAYS: u64 = 864_000_000_000_000;

/// The scale at which candidate periods are tried.
#[derive(Clone, Copy, Debug, PartialEq, Eq, Structural)]
pub enum Regime {
    /// 1, 2, 5 times a power of ten nanoseconds.
    SubSecond,
    /// 1, 2, 5, 10, 15, 20, 30 seconds, then minutes.
    Seconds,
    /// 1, 2, 4, 8, 12 hours.
    Hours,
    /// 1, 2, 5, 7 days.
    Days,
    /// 10, 20, 50 days and their decimal multiples.
    TenDays,
}

impl Regime {
    /// Number of entries in the multiplier table.
    pub open spec fn count(self) -> int {
        match self {
            Regime::SubSecond => 3,
            Regime::Seconds => 7,
            Regime::Hours => 5,
            Regime::Days => 4,
            Regime::TenDays => 3,
        }
    }

    /// Entry `i` of the multiplier table.
    pub open spec fn multiplier(self, i: int) -> int {
        match self {
            Regime::SubSecond | Regime::TenDays => if i == 0 {
                1
            } else if i == 1 {
                2
            } else {
                5
            },
            Regime::Seconds => if i == 0 {
                1
            } else if i == 1 {
                2
            } else if i == 2 {
                5
            } else if i == 3 {
                10
            } else if i == 4 {
                15
            } else if i == 5 {
                20
            } else {
                30
            },
            Regime::Hours => if i == 0 {
                1
            } else if i == 1 {
                2
            } else if i == 2 {
                4
            } else if i == 3 {
                8
            } else {
                12
            },
            Regime::Days => if i == 0 {
                1
            } else if i == 1 {
                2
            } else if i == 2 {
                5
            } else {
                7
            },
        }
    }

    /// Factor by which the unit grows once the table is used up.
    pub open spec fn carry(self) -> int {
        match self {
            Regime::SubSecond => 10,
            Regime::Seconds => 60,
            Regime::Hours => 24,
            Regime::Days => 10,
            Regime::TenDays => 10,
        }
    }

    fn table_len(self) -> (n: usize)
        ensures
            n == self.count(),
    {
        match self {
            Regime::SubSecond => 3,
            Regime::Seconds => 7,
            Regime::Hours => 5,
            Regime::Days => 4,
            Regime::TenDays => 3,
        }
    }

    fn table_entry(self, i: usize) -> (m: u64)
        requires
            i < self.count(),
        ensures
            m == self.multiplier(i as int),
    {
        match self {
            Regime::SubSecond | Regime::TenDays => if i == 0 {
                1
            } else if i == 1 {
                2
            } else {
                5
            },
            Regime::Seconds => if i == 0 {
                1
            } else if i == 1 {
                2
            } else if i == 2 {
                5
            } else if i == 3 {
                10
            } else if i == 4 {
                15
            } else if i == 5 {
                20
            } else {
                30
            },
            Regime::Hours => if i == 0 {
                1
            } else if i == 1 {
                2
            } else if i == 2 {
                4
            } else if i == 3 {
                8
            } else {
                12
            },
            Regime::Days => if i == 0 {
                1
            } else if i == 1 {
                2
            } else if i == 2 {
                5
            } else {
                7
            },
        }
    }

    fn carry_factor(self) -> (b: u64)
        ensures
            b == self.carry(),
    {
        match self {
            Regime::SubSecond => 10,
            Regime::Seconds => 60,
            Regime::Hours => 24,
            Regime::Days => 10,
            Regime::TenDays => 10,
        }
    }

    /// Each table starts at one and grows by less than a doubling per entry,
    /// and so does the step from its last entry to the carry factor.
    pub proof fn lemma_table_shape(self, i: int)
        requires
            0 <= i < self.count(),
        ensures
            self.multiplier(0) == 1,
            1 <= self.multiplier(i) <= self.carry(),
            i + 1 < self.count() ==> self.multiplier(i) < self.multiplier(i + 1) <= 2 * (
            self.multiplier(i) + 1),
            i + 1 == self.count() ==> self.carry() <= 2 * (self.multiplier(i) + 1),
            2 <= self.carry() <= 60,
    {
    }
}

/// The largest power of ten `p` with `p * max_points <= total_ns`, or one
/// where there is none.
pub open spec fn seed_unit(total_ns: int, max_points: int) -> int
    decreases total_ns,
{
    if max_points <= 0 || total_ns < 10 * max_points {
        1
    } else {
        10 * seed_unit(total_ns / 10, max_points)
    }
}

/// The regime in which a seed lies and the unit its ladder starts from;
/// `None` where only sub-daily periods are wanted and the seed is a day or more.
pub open spec fn regime_for(seed: int, sub_daily: bool) -> Option<(Regime, int)> {
    if seed < NS_PER_SECOND {
        Some((Regime::SubSecond, seed))
    } else if seed < NS_PER_HOUR {
        Some((Regime::Seconds, NS_PER_SECOND as int))
    } else if seed < NS_PER_DAY {
        Some((Regime::Hours, NS_PER_HOUR as int))
    } else if !sub_daily {
        if seed < NS_PER_TEN_DAYS {
            Some((Regime::Days, NS_PER_DAY as int))
        } else {
            Some((Regime::TenDays, NS_PER_TEN_DAYS as int))
        }
    } else {
        None
    }
}

/// The unit of a ladder after `carries` passes through its table.
pub open spec fn rung_unit(regime: Regime, start: int, carries: nat) -> int {
    start * pow(regime.carry(), carries)
}

/// The period at entry `i` of the table after `carries` passes.
pub open spec fn rung_period(regime: Regime, start: int, carries: nat, i: int) -> int {
    regime.multiplier(i) * rung_unit(regime, start, carries)
}

/// Whether the span fits on a rung: the number of whole units in the span is
/// at most the budget times the rung's multiplier.
pub open spec fn fits_at(
    total_ns: int,
    max_points: int,
    regime: Regime,
    start: int,
    carries: nat,
    i: int,
) -> bool {
    total_ns / rung_unit(regime, start, carries) <= max_points * regime.multiplier(i)
}

/// Whether rung `(c1, i1)` comes before rung `(c2, i2)` on a ladder.
pub open spec fn rung_before(c1: nat, i1: int, c2: nat, i2: int) -> bool {
    c1 < c2 || (c1 == c2 && i1 < i2)
}

/// Whether `(carries, i)` is the first rung of the ladder on which the span fits.
pub open spec fn first_fit(
    total_ns: int,
    max_points: int,
    regime: Regime,
    start: int,
    carries: nat,
    i: int,
) -> bool {
    &&& 0 <= i < regime.count()
    &&& fits_at(total_ns, max_points, regime, start, carries, i)
    &&& forall|c0: nat, i0: int|
        0 <= i0 < regime.count() && rung_before(c0, i0, carries, i) ==> !#[trigger] fits_at(
            total_ns,
            max_points,
            regime,
            start,
            c0,
            i0,
        )
}

/// Whether `period` is the period of the first rung on which the span fits.
pub open spec fn is_ladder_period(
    total_ns: int,
    max_points: int,
    regime: Regime,
    start: int,
    period: int,
) -> bool {
    exists|carries: nat, i: int|
        #[trigger] first_fit(total_ns, max_points, regime, start, carries, i) && period
            == rung_period(regime, start, carries, i)
}

/// The period of the first rung on which the span fits.
pub open spec fn ladder_period(total_ns: int, max_points: int, regime: Regime, start: int) -> int {
    choose|period: int| is_ladder_period(total_ns, max_points, regime, start, period)
}

/// The tick period for a span of `total_ns` nanoseconds and a budget of
/// `max_points` points: the first fitting rung of the ladder that the seed
/// selects. `None` for an empty budget, and where only sub-daily periods
/// are wanted and the span asks for a day or more per point.
pub open spec fn tick_period(total_ns: int, max_points: int, sub_daily: bool) -> Option<int> {
    if max_points <= 0 {
        None
    } else {
        match regime_for(seed_unit(total_ns, max_points), sub_daily) {
            Some((regime, start)) => Some(ladder_period(total_ns, max_points, regime, start)),
            None => None,
        }
    }
}

/// Only one rung is the first on which the span fits.
pub proof fn lemma_first_fit_unique(
    total_ns: int,
    max_points: int,
    regime: Regime,
    start: int,
    c1: nat,
    i1: int,
    c2: nat,
    i2: int,
)
    requires
        first_fit(total_ns, max_points, regime, start, c1, i1),
        first_fit(total_ns, max_points, regime, start, c2, i2),
    ensures
        c1 == c2,
        i1 == i2,
{
    if rung_before(c1, i1, c2, i2) {
        assert(!fits_at(total_ns, max_points, regime, start, c1, i1));
    }
    if rung_before(c2, i2, c1, i1) {
        assert(!fits_at(total_ns, max_points, regime, start, c2, i2));
    }
}

/// The period of a first fitting rung is the ladder's period.
pub proof fn lemma_ladder_period(
    total_ns: int,
    max_points: int,
    regime: Regime,
    start: int,
    carries: nat,
    i: int,
)
    requires
        first_fit(total_ns, max_points, regime, start, carries, i),
    ensures
        ladder_period(total_ns, max_points, regime, start) == rung_period(
            regime,
            start,
            carries,
            i,
        ),
{
    let period = rung_period(regime, start, carries, i);
    assert(is_ladder_period(total_ns, max_points, regime, start, period));
    let chosen = ladder_period(total_ns, max_points, regime, start);
    assert(is_ladder_period(total_ns, max_points, regime, start, chosen));
    let (c2, i2) = choose|c2: nat, i2: int|
        #[trigger] first_fit(total_ns, max_points, regime, start, c2, i2) && chosen == rung_period(
            regime,
            start,
            c2,
            i2,
        );
    lemma_first_fit_unique(total_ns, max_points, regime, start, carries, i, c2, i2);
}

/// On a rung where the span fits, the span holds at most `max_points` whole periods.
pub proof fn lemma_fit_bounds_count(
    total_ns: int,
    max_points: int,
    regime: Regime,
    start: int,
    carries: nat,
    i: int,
)
    requires
        0 <= total_ns,
        0 < max_points,
        0 < start,
        0 <= i < regime.count(),
        fits_at(total_ns, max_points, regime, start, carries, i),
    ensures
        rung_period(regime, start, carries, i) >= 1,
        total_ns / rung_period(regime, start, carries, i) <= max_points,
{
    regime.lemma_table_shape(i);
    let unit = rung_unit(regime, start, carries);
    let m = regime.multiplier(i);
    lemma_pow_positive(regime.carry(), carries);
    assert(unit >= 1) by (nonlinear_arith)
        requires
            unit == start * pow(regime.carry(), carries),
            start >= 1,
            pow(regime.carry(), carries) >= 1,
    ;
    lemma_nested_div(total_ns, unit, m);
    assert(unit * m == m * unit) by (nonlinear_arith);
    assert(m * unit >= 1) by (nonlinear_arith)
        requires
            m >= 1,
            unit >= 1,
    ;
    lemma_div_is_ordered(total_ns / unit, max_points * m, m);
    lemma_div_multiples_vanish(max_points, m);
    assert(max_points * m == m * max_points) by (nonlinear_arith);
}

fn exceeds(total_ns: u64, max_points: usize, unit: u64, multiplier: u64) -> (over: bool)
    requires
        unit > 0,
        multiplier <= 60,
    ensures
        over == !(total_ns as int / unit as int <= max_points as int * multiplier as int),
{
    let whole: u128 = (total_ns / unit) as u128;
    assert(max_points * multiplier <= u64::MAX * 60) by (nonlinear_arith)
        requires
            0 <= max_points <= u64::MAX,
            0 <= multiplier <= 60,
    ;
    let budget: u128 = (max_points as u128) * (multiplier as u128);
    whole > budget
}

fn seed_for(total_ns: u64, max_points: usize) -> (seed: u64)
    requires
        max_points > 0,
    ensures
        seed == seed_unit(total_ns as int, max_points as int),
        seed >= 1,
{
    let ten_points: u128 = 10 * (max_points as u128);
    let limit: u128 = (total_ns as u128) / ten_points;
    let mut seed: u128 = 1;
    while seed <= limit
        invariant
            max_points > 0,
            ten_points == 10 * max_points,
            limit == total_ns as int / ten_points as int,
            1 <= seed,
            seed <= 1 || seed <= total_ns,
            seed_unit(total_ns as int, max_points as int) == seed * seed_unit(
                total_ns as int / seed as int,
                max_points as int,
            ),
        decreases
            if seed <= limit {
                limit + 1 - seed
            } else {
                0
            },
    {
        proof {
            let t = total_ns as int;
            let s = seed as int;
            lemma_quotient_bound(t, ten_points as int, s);
            assert(s * ten_points == ten_points * s) by (nonlinear_arith);
            lemma_quotient_bound(t, s, ten_points as int);
            assert(t / s >= 10 * max_points);
            lemma_nested_div(t, s, 10);
            assert(s * 10 <= t) by (nonlinear_arith)
                requires
                    ten_points * s <= t,
                    ten_points >= 10,
                    s >= 1,
            ;
            assert(s * seed_unit(t / s, max_points as int) == (s * 10) * seed_unit(
                t / (s * 10),
                max_points as int,
            )) by (nonlinear_arith)
                requires
                    seed_unit(t / s, max_points as int) == 10 * seed_unit(
                        t / (s * 10),
                        max_points as int,
                    ),
            ;
        }
        seed = seed * 10;
    }
    proof {
        let t = total_ns as int;
        let s = seed as int;
        lemma_quotient_bound(t, ten_points as int, s);
        assert(s * ten_points == ten_points * s) by (nonlinear_arith);
        lemma_quotient_bound(t, s, ten_points as int);
        assert(t / s < 10 * max_points);
        assert(seed_unit(t / s, max_points as int) == 1);
    }
    seed as u64
}

fn walk_ladder(total_ns: u64, max_points: usize, regime: Regime, start: u64) -> (period: u64)
    requires
        total_ns <= i64::MAX,
        max_points > 0,
        1 <= start <= NS_PER_TEN_DAYS,
    ensures
        period == ladder_period(total_ns as int, max_points as int, regime, start as int),
        period >= 1,
        total_ns as int / period as int <= max_points,
{
    let count: usize = regime.table_len();
    let carry: u64 = regime.carry_factor();
    let mut unit: u64 = start;
    let mut idx: usize = 0;
    let ghost mut carries: nat = 0;
    proof {
        lemma_pow0(regime.carry());
        regime.lemma_table_shape(0);
    }
    let mut over: bool = exceeds(total_ns, max_points, unit, regime.table_entry(idx));
    while over
        invariant
            total_ns <= i64::MAX,
            max_points > 0,
            1 <= start <= NS_PER_TEN_DAYS,
            count == regime.count(),
            carry == regime.carry(),
            0 <= idx < count,
            unit >= 1,
            unit == rung_unit(regime, start as int, carries),
            over == !fits_at(
                total_ns as int,
                max_points as int,
                regime,
                start as int,
                carries,
                idx as int,
            ),
            (carries == 0 && idx == 0) || regime.multiplier(idx as int) * unit <= 2 * total_ns,
            forall|c0: nat, i0: int|
                0 <= i0 < regime.count() && rung_before(c0, i0, carries, idx as int)
                    ==> !#[trigger] fits_at(
                    total_ns as int,
                    max_points as int,
                    regime,
                    start as int,
                    c0,
                    i0,
                ),
        decreases total_ns / unit, count - idx,
    {
        let ghost old_unit = unit as int;
        let ghost old_idx = idx as int;
        let ghost old_carries = carries;
        proof {
            regime.lemma_table_shape(old_idx);
            let m = regime.multiplier(old_idx);
            let whole = total_ns as int / old_unit;
            assert(whole >= max_points * m + 1);
            assert(max_points * m >= m) by (nonlinear_arith)
                requires
                    max_points >= 1,
                    m >= 1,
            ;
            lemma_quotient_bound(total_ns as int, old_unit, m + 1);
            assert((m + 1) * old_unit <= total_ns);
        }
        idx = idx + 1;
        if idx == count {
            proof {
                let m = regime.multiplier(old_idx);
                assert(old_unit * carry <= 2 * total_ns) by (nonlinear_arith)
                    requires
                        (m + 1) * old_unit <= total_ns,
                        carry <= 2 * (m + 1),
                        old_unit >= 1,
                        carry >= 2,
                ;
            }
            idx = 0;
            unit = unit * carry;
            proof {
                carries = carries + 1;
                lemma_pow1(regime.carry());
                lemma_pow_adds(regime.carry(), old_carries, 1);
                assert(unit == rung_unit(regime, start as int, carries)) by (nonlinear_arith)
                    requires
                        unit == old_unit * regime.carry(),
                        old_unit == start * pow(regime.carry(), old_carries),
                        pow(regime.carry(), carries) == pow(regime.carry(), old_carries)
                            * regime.carry(),
                        rung_unit(regime, start as int, carries) == start * pow(
                            regime.carry(),
                            carries,
                        ),
                ;
                regime.lemma_table_shape(0);
                lemma_nested_div(total_ns as int, old_unit, carry as int);
                let whole = total_ns as int / old_unit;
                assert(whole / (carry as int) < whole) by (nonlinear_arith)
                    requires
                        whole >= 1,
                        carry >= 2,
                ;
            }
        } else {
            proof {
                let m = regime.multiplier(old_idx);
                let next = regime.multiplier(idx as int);
                assert(next * unit <= 2 * total_ns) by (nonlinear_arith)
                    requires
                        (m + 1) * unit <= total_ns,
                        next <= 2 * (m + 1),
                        unit >= 1,
                        next >= 0,
                ;
            }
        }
        proof {
            regime.lemma_table_shape(idx as int);
            assert forall|c0: nat, i0: int|
                0 <= i0 < regime.count() && rung_before(
                    c0,
                    i0,
                    carries,
                    idx as int,
                ) implies !#[trigger] fits_at(
                total_ns as int,
                max_points as int,
                regime,
                start as int,
                c0,
                i0,
            ) by {
                if !rung_before(c0, i0, old_carries, old_idx) {
                    assert(c0 == old_carries && i0 == old_idx);
                }
            }
        }
        over = exceeds(total_ns, max_points, unit, regime.table_entry(idx));
    }
    proof {
        regime.lemma_table_shape(idx as int);
        assert(first_fit(
            total_ns as int,
            max_points as int,
            regime,
            start as int,
            carries,
            idx as int,
        ));
        lemma_ladder_period(
            total_ns as int,
            max_points as int,
            regime,
            start as int,
            carries,
            idx as int,
        );
        lemma_fit_bounds_count(
            total_ns as int,
            max_points as int,
            regime,
            start as int,
            carries,
            idx as int,
        );
        if carries == 0 && idx == 0 {
            assert(regime.multiplier(0) * unit == unit) by (nonlinear_arith)
                requires
                    regime.multiplier(0) == 1,
            ;
        }
    }
    regime.table_entry(idx) * unit
}

/// Chooses the tick period, in nanoseconds, for a span of `total_ns`
/// nanoseconds that should carry at most `max_points` ticks.
///
/// The seed is the largest power of ten not above `total_ns / max_points`.
/// It selects a regime, and the period is the first rung of that regime's
/// ladder on which the span fits. With `sub_daily` set, a span that asks for
/// a day or more per point has no period, and an empty budget never has one.
pub fn compute_period_per_point(total_ns: u64, max_points: usize, sub_daily: bool) -> (period:
    Option<u64>)
    requires
        total_ns <= i64::MAX,
    ensures
        match tick_period(total_ns as int, max_points as int, sub_daily) {
            Some(p) => period == Some(p as u64) && 1 <= p <= u64::MAX && total_ns as int / p
                <= max_points,
            None => period is None,
        },
{
    if max_points == 0 {
        return None;
    }
    let seed: u64 = seed_for(total_ns, max_points);
    if seed < NS_PER_SECOND {
        Some(walk_ladder(total_ns, max_points, Regime::SubSecond, seed))
    } else if seed < NS_PER_HOUR {
        Some(walk_ladder(total_ns, max_points, Regime::Seconds, NS_PER_SECOND))
    } else if seed < NS_PER_DAY {
        Some(walk_ladder(total_ns, max_points, Regime::Hours, NS_PER_HOUR))
    } else if !sub_daily {
        if seed < NS_PER_TEN_DAYS {
            Some(walk_ladder(total_ns, max_points, Regime::Days, NS_PER_DAY))
        } else {
            Some(walk_ladder(total_ns, max_points, Regime::TenDays, NS_PER_TEN_DAYS))
        }
    } else {
        None
    }
}

} // verus!
