//! Integer division with its roundings, and the arithmetic progressions that
//! ticks form, shared by the coordinate modules.

use vstd::arithmetic::div_mod::{
    lemma_div_denominator, lemma_div_is_ordered, lemma_div_pos_is_pos, lemma_fundamental_div_mod,
    lemma_fundamental_div_mod_converse, lemma_mod_bound,
};
use vstd::prelude::*;

verus! {

/// Quotient of `a` by `b` rounded toward zero, for `b != 0`.
pub open spec fn trunc_div(a: int, b: int) -> int {
    if b > 0 {
        if a >= 0 {
            a / b
        } else {
            -((-a) / b)
        }
    } else {
        if a >= 0 {
            -(a / (-b))
        } else {
            (-a) / (-b)
        }
    }
}

/// Whether `x` is a value of `i64`.
pub open spec fn fits_i64(x: int) -> bool {
    i64::MIN <= x <= i64::MAX
}

/// `x` held to the range of `i32`.
pub open spec fn saturate(x: int) -> int {
    if x < i32::MIN {
        i32::MIN as int
    } else if x > i32::MAX {
        i32::MAX as int
    } else {
        x
    }
}

/// Quotient of `a` by a positive `b` rounded up.
pub open spec fn ceil_div(a: int, b: int) -> int {
    -((-a) / b)
}

/// For a positive divisor, `k` is at most the quotient exactly when `k * d`
/// is at most the dividend.
pub proof fn lemma_quotient_bound(a: int, d: int, k: int)
    requires
        d > 0,
    ensures
        k <= a / d <==> k * d <= a,
{
    lemma_fundamental_div_mod(a, d);
    lemma_mod_bound(a, d);
    let q = a / d;
    let r = a % d;
    assert(k <= q ==> k * d <= q * d) by (nonlinear_arith)
        requires
            d > 0,
    ;
    assert(k >= q + 1 ==> k * d >= q * d + d) by (nonlinear_arith)
        requires
            d > 0,
    ;
    assert(d * q == q * d) by (nonlinear_arith);
}

/// Dividing by `c` and then by `d` is dividing by `c * d`.
pub proof fn lemma_nested_div(x: int, c: int, d: int)
    requires
        0 <= x,
        0 < c,
        0 < d,
    ensures
        c * d > 0,
        (x / c) / d == x / (c * d),
{
    lemma_div_denominator(x, c, d);
    assert(c * d > 0) by (nonlinear_arith)
        requires
            c > 0,
            d > 0,
    ;
}

/// Division of `a` and of `-a` by a positive divisor: the quotients are
/// opposite when the division is exact and differ by one more otherwise.
pub proof fn lemma_div_of_negation(a: int, b: int)
    requires
        b > 0,
    ensures
        (-a) % b == 0 ==> a / b == -((-a) / b) && a % b == 0,
        (-a) % b != 0 ==> a / b == -((-a) / b) - 1 && a % b == b - (-a) % b,
{
    lemma_fundamental_div_mod(-a, b);
    lemma_mod_bound(-a, b);
    let n = (-a) / b;
    let m = (-a) % b;
    if m == 0 {
        assert(a == (-n) * b + 0) by (nonlinear_arith)
            requires
                -a == b * n + m,
                m == 0,
        ;
        lemma_fundamental_div_mod_converse(a, b, -n, 0);
    } else {
        assert(a == (-n - 1) * b + (b - m)) by (nonlinear_arith)
            requires
                -a == b * n + m,
        ;
        lemma_fundamental_div_mod_converse(a, b, -n - 1, b - m);
    }
}

/// A quotient whose remainder is smaller than the divisor and lies on the
/// side of the dividend is the quotient rounded toward zero.
pub proof fn lemma_trunc_div_unique(n: int, d: int, q: int, r: int)
    requires
        d != 0,
        n == q * d + r,
        -d < r < d || d < r < -d,
        n >= 0 ==> r >= 0,
        n <= 0 ==> r <= 0,
    ensures
        trunc_div(n, d) == q,
{
    if d > 0 {
        if n >= 0 {
            lemma_fundamental_div_mod_converse(n, d, q, r);
        } else {
            assert(-n == (-q) * d + (-r)) by (nonlinear_arith)
                requires
                    n == q * d + r,
            ;
            lemma_fundamental_div_mod_converse(-n, d, -q, -r);
        }
    } else {
        if n >= 0 {
            assert(n == (-q) * (-d) + r) by (nonlinear_arith)
                requires
                    n == q * d + r,
            ;
            lemma_fundamental_div_mod_converse(n, -d, -q, r);
        } else {
            assert(-n == q * (-d) + (-r)) by (nonlinear_arith)
                requires
                    n == q * d + r,
            ;
            lemma_fundamental_div_mod_converse(-n, -d, q, -r);
        }
    }
}

/// Rounded toward zero, the quotient by a positive divisor does not fall
/// when the dividend rises.
pub proof fn lemma_trunc_div_monotone(x: int, y: int, d: int)
    requires
        d > 0,
        x <= y,
    ensures
        trunc_div(x, d) <= trunc_div(y, d),
{
    if x >= 0 {
        lemma_div_is_ordered(x, y, d);
    } else if y >= 0 {
        lemma_div_pos_is_pos(-x, d);
        lemma_div_pos_is_pos(y, d);
    } else {
        lemma_div_is_ordered(-y, -x, d);
    }
}

/// The smallest multiple of `step` that is not below `x`.
pub open spec fn round_up(x: int, step: int) -> int {
    ceil_div(x, step) * step
}

/// Rounding up to a multiple of a positive step adds what the remainder
/// lacks to a whole step, and nothing where there is no remainder.
pub proof fn lemma_round_up(x: int, step: int)
    requires
        step > 0,
    ensures
        x % step == 0 ==> round_up(x, step) == x,
        x % step != 0 ==> round_up(x, step) == x + step - x % step,
        x <= round_up(x, step) < x + step,
        ceil_div(x, step) == if x % step == 0 {
            x / step
        } else {
            x / step + 1
        },
{
    lemma_div_of_negation(x, step);
    lemma_fundamental_div_mod(x, step);
    lemma_mod_bound(x, step);
    lemma_mod_bound(-x, step);
    let q = x / step;
    assert((q + 1) * step == q * step + step) by (nonlinear_arith);
    assert(step * q == q * step) by (nonlinear_arith);
}

/// Computes `round_up`.
pub fn round_up_to(x: i128, step: i128) -> (r: i128)
    requires
        step > 0,
        i128::MIN < x,
        x + step <= i128::MAX,
    ensures
        r == round_up(x as int, step as int),
        x <= r < x + step,
{
    proof {
        lemma_round_up(x as int, step as int);
    }
    let rest: i128 = floor_mod(x, step);
    if rest == 0 {
        x
    } else {
        x + (step - rest)
    }
}

/// Quotient rounded down, for a positive divisor.
pub fn floor_div(a: i128, b: i128) -> (q: i128)
    requires
        b > 0,
        a > i128::MIN,
    ensures
        q == a as int / b as int,
{
    let q: i128 = a / b;
    let r: i128 = a % b;
    proof {
        lemma_div_of_negation(a as int, b as int);
    }
    if r < 0 {
        q - 1
    } else {
        q
    }
}

/// Remainder of the division rounded down, for a positive divisor.
pub fn floor_mod(a: i128, b: i128) -> (r: i128)
    requires
        b > 0,
        a > i128::MIN,
    ensures
        r == a as int % b as int,
        0 <= r < b,
{
    let r: i128 = a % b;
    proof {
        lemma_div_of_negation(a as int, b as int);
        lemma_mod_bound(a as int, b as int);
    }
    if r < 0 {
        r + b
    } else {
        r
    }
}

/// The number of terms `first + k * step`, `k >= 0`, that lie below `bound`.
pub open spec fn tick_count(first: int, step: int, bound: int) -> int {
    if first < bound && step > 0 {
        (bound - first - 1) / step + 1
    } else {
        0
    }
}

/// The terms `first + k * step`, `k >= 0`, that lie below `bound`, in order.
pub open spec fn ticks(first: int, step: int, bound: int) -> Seq<int> {
    Seq::new(tick_count(first, step, bound) as nat, |k: int| first + k * step)
}

/// `k` terms lie below the bound when term `k - 1` does and term `k` does not.
pub proof fn lemma_tick_count(first: int, step: int, bound: int, k: int)
    requires
        step > 0,
        k >= 0,
        k > 0 ==> first + (k - 1) * step < bound,
        first + k * step >= bound,
    ensures
        tick_count(first, step, bound) == k,
{
    if k == 0 {
        assert(0 * step == 0) by (nonlinear_arith);
    } else {
        assert(first < bound) by (nonlinear_arith)
            requires
                first + (k - 1) * step < bound,
                k >= 1,
                step > 0,
        ;
        let x = bound - first - 1;
        lemma_quotient_bound(x, step, k - 1);
        lemma_quotient_bound(x, step, k);
    }
}

/// Ticks start at `first`, rise by `step` and stay below the bound.
pub proof fn lemma_ticks_shape(first: int, step: int, bound: int)
    requires
        step > 0,
    ensures
        tick_count(first, step, bound) >= 0,
        forall|k: int|
            0 <= k < ticks(first, step, bound).len() ==> first <= #[trigger] ticks(
                first,
                step,
                bound,
            )[k] < bound,
        forall|j: int, k: int|
            0 <= j < k < ticks(first, step, bound).len() ==> #[trigger] ticks(first, step, bound)[j]
                < #[trigger] ticks(first, step, bound)[k],
{
    let n = tick_count(first, step, bound);
    if first < bound {
        let x = bound - first - 1;
        lemma_quotient_bound(x, step, 0);
        assert(0 * step == 0) by (nonlinear_arith);
        assert(n >= 1);
        let t = ticks(first, step, bound);
        assert forall|k: int| 0 <= k < t.len() implies first <= #[trigger] t[k] < bound by {
            lemma_quotient_bound(x, step, k);
            assert(k * step >= 0) by (nonlinear_arith)
                requires
                    k >= 0,
                    step > 0,
            ;
        }
        assert forall|j: int, k: int| 0 <= j < k < t.len() implies #[trigger] t[j]
            < #[trigger] t[k] by {
            assert(j * step < k * step) by (nonlinear_arith)
                requires
                    j < k,
                    step > 0,
            ;
        }
    }
}

} // verus!
