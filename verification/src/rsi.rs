//! Relative strength index with Wilder smoothing.
//!
//! The average gain and average loss are seeded with the mean change
//! magnitude over the first `period` transitions and then updated with
//! weight `1 / period` on each new transition. The index itself is
//! `100 - 100 / (1 + gain / loss)`, with an explicit policy for the
//! degenerate cases: a zero average loss yields the maximum, then a zero
//! average gain yields zero.
//!
//! The index is dimensionless, so the caller passes the tick value of one
//! whole unit (`unit`); outputs lie between `0` and `100 * unit`.

use vstd::prelude::*;

verus! {

use vstd::arithmetic::div_mod::lemma_div_by_self;
use vstd::arithmetic::div_mod::lemma_div_is_ordered;
use vstd::arithmetic::div_mod::lemma_div_of0;
use vstd::arithmetic::div_mod::lemma_div_pos_is_pos;
use crate::arith::div_floor;
use crate::arith::lemma_div_floor_bounded;
use crate::arith::lemma_scale_le;
use crate::series::gain_at;
use crate::series::lemma_sum_gains_losses_bound;
use crate::series::lemma_sum_gains_zero;
use crate::series::lemma_sum_losses_min;
use crate::series::lemma_sum_losses_zero;
use crate::series::loss_at;
use crate::series::sum_gains;
use crate::series::sum_losses;
use crate::types::IndicatorPoint;
use crate::types::MAX_LEN;
use crate::types::MAX_TICK;
use crate::types::PricePoint;
use crate::types::bars_bounded;
use crate::types::price_point_bounded;

/// Largest accepted tick value of one whole unit, so that `100 * unit`
/// weighted by a smoothed average still fits in `i128`.
pub const MAX_UNIT: i64 = 1_000_000_000_000;

/// Wilder-smoothed average gain at output index `i` (the output aligned
/// with bar `p + i`).
pub open spec fn wilder_gain(s: Seq<PricePoint>, p: int, i: int) -> int
    decreases i,
{
    if i <= 0 {
        sum_gains(s, 1, p + 1) / p
    } else {
        (wilder_gain(s, p, i - 1) * (p - 1) + gain_at(s, p + i)) / p
    }
}

/// Wilder-smoothed average loss at output index `i`.
pub open spec fn wilder_loss(s: Seq<PricePoint>, p: int, i: int) -> int
    decreases i,
{
    if i <= 0 {
        sum_losses(s, 1, p + 1) / p
    } else {
        (wilder_loss(s, p, i - 1) * (p - 1) + loss_at(s, p + i)) / p
    }
}

/// The index computed from an average gain and an average loss, in ticks of
/// `1 / unit`: the maximum when the loss is zero, zero when only the gain
/// is zero, and otherwise `100 - 100 * loss / (gain + loss)`, the rounded
/// form of `100 - 100 / (1 + gain / loss)`.
pub open spec fn rsi_from(g: int, l: int, unit: int) -> int {
    if l == 0 {
        100 * unit
    } else if g == 0 {
        0
    } else {
        100 * unit - (100 * unit * l) / (g + l)
    }
}

/// The index at output index `i`.
pub open spec fn rsi_at(s: Seq<PricePoint>, p: int, i: int, unit: int) -> int {
    rsi_from(wilder_gain(s, p, i), wilder_loss(s, p, i), unit)
}

/// The index always lies between zero and the maximum, whatever nonnegative
/// averages feed it.
pub proof fn lemma_rsi_from_range(g: int, l: int, unit: int)
    requires
        0 <= g,
        0 <= l,
        1 <= unit,
    ensures
        0 <= rsi_from(g, l, unit) <= 100 * unit,
{
    if l == 0 {
    } else if g == 0 {
    } else {
        lemma_div_pos_is_pos(100 * unit * l, g + l);
        assert(100 * unit * l <= (g + l) * (100 * unit)) by (nonlinear_arith)
            requires
                0 <= g,
                1 <= l,
                1 <= unit,
        ;
        lemma_div_floor_bounded(100 * unit * l, g + l, 100 * unit);
    }
}

/// If every transition from the start of the series through the one feeding
/// output `i` is a strict gain, the smoothed loss is zero and the index is
/// pinned to its maximum.
pub proof fn lemma_rsi_all_gains(s: Seq<PricePoint>, p: int, i: int, unit: int)
    requires
        1 <= p,
        0 <= i,
        p + i < s.len(),
        forall|j: int| 1 <= j <= p + i ==> #[trigger] s[j].close > s[j - 1].close,
    ensures
        wilder_loss(s, p, i) == 0,
        rsi_at(s, p, i, unit) == 100 * unit,
    decreases i,
{
    if i <= 0 {
        assert forall|j: int| 1 <= j < p + 1 implies #[trigger] loss_at(s, j) == 0 by {
            assert(s[j].close > s[j - 1].close);
        }
        lemma_sum_losses_zero(s, 1, p + 1);
        lemma_div_of0(p);
    } else {
        lemma_rsi_all_gains(s, p, i - 1, unit);
        assert(s[p + i].close > s[p + i - 1].close);
        assert(loss_at(s, p + i) == 0);
        lemma_div_of0(p);
    }
}

/// If every transition from the start of the series through the one feeding
/// output `i` is a strict loss, the smoothed gain is zero while the
/// smoothed loss stays positive, and the index is pinned to zero.
pub proof fn lemma_rsi_all_losses(s: Seq<PricePoint>, p: int, i: int, unit: int)
    requires
        1 <= p,
        0 <= i,
        p + i < s.len(),
        forall|j: int| 1 <= j <= p + i ==> #[trigger] s[j].close < s[j - 1].close,
    ensures
        wilder_gain(s, p, i) == 0,
        wilder_loss(s, p, i) >= 1,
        rsi_at(s, p, i, unit) == 0,
    decreases i,
{
    if i <= 0 {
        assert forall|j: int| 1 <= j < p + 1 implies #[trigger] gain_at(s, j) == 0
            && #[trigger] loss_at(s, j) >= 1 by {
            assert(s[j].close < s[j - 1].close);
        }
        lemma_sum_gains_zero(s, 1, p + 1);
        lemma_sum_losses_min(s, 1, p + 1);
        lemma_div_of0(p);
        lemma_div_by_self(p);
        lemma_div_is_ordered(p, sum_losses(s, 1, p + 1), p);
    } else {
        lemma_rsi_all_losses(s, p, i - 1, unit);
        assert(s[p + i].close < s[p + i - 1].close);
        assert(gain_at(s, p + i) == 0);
        assert(loss_at(s, p + i) >= 1);
        lemma_div_of0(p);
        let l = wilder_loss(s, p, i - 1);
        assert(l * (p - 1) + loss_at(s, p + i) >= p) by (nonlinear_arith)
            requires
                l >= 1,
                1 <= p,
                loss_at(s, p + i) >= 1,
        ;
        lemma_div_by_self(p);
        lemma_div_is_ordered(p, l * (p - 1) + loss_at(s, p + i), p);
    }
}

/// The index from one pair of averages, executable form.
fn rsi_value(g: i128, l: i128, unit: i64) -> (r: i64)
    requires
        0 <= g <= 2 * MAX_TICK,
        0 <= l <= 2 * MAX_TICK,
        1 <= unit <= MAX_UNIT,
    ensures
        r == rsi_from(g as int, l as int, unit as int),
        0 <= r <= 100 * unit,
{
    proof {
        lemma_rsi_from_range(g as int, l as int, unit as int);
    }
    if l == 0 {
        100 * unit
    } else if g == 0 {
        0
    } else {
        let hundred_units: i128 = 100 * (unit as i128);
        proof {
            assert(0 <= hundred_units * l <= 20000000000000000000000000000) by (nonlinear_arith)
                requires
                    0 <= hundred_units as int <= 100000000000000,
                    0 <= l as int <= 200000000000000,
            ;
        }
        let t = div_floor(hundred_units * l, g + l);
        proof {
            lemma_div_pos_is_pos(100 * (unit as int) * (l as int), g as int + l as int);
            assert(100 * (unit as int) * (l as int) <= (g as int + l as int) * (100 * (
            unit as int))) by (nonlinear_arith)
                requires
                    0 <= g as int,
                    1 <= l as int,
                    1 <= unit as int,
            ;
            lemma_div_floor_bounded(
                100 * (unit as int) * (l as int),
                g as int + l as int,
                100 * (unit as int),
            );
        }
        100 * unit - (t as i64)
    }
}

/// Relative strength index of the close prices with the given smoothing
/// period, in ticks of `1 / unit`.
///
/// A zero period, or a series too short to hold `period` transitions,
/// yields an empty result; otherwise one output per bar from bar `period`
/// onward, each value between `0` and `100 * unit`.
pub fn calc_rsi_impl(data: &Vec<PricePoint>, period: usize, unit: i64) -> (r: Vec<IndicatorPoint>)
    requires
        bars_bounded(data@),
        data@.len() <= MAX_LEN,
        1 <= unit <= MAX_UNIT,
    ensures
        period == 0 || data@.len() < period + 1 ==> r@.len() == 0,
        1 <= period && period + 1 <= data@.len() ==> {
            &&& r@.len() == data@.len() - period
            &&& forall|i: int| 0 <= i < r@.len() ==> (#[trigger] r@[i]).ts == data@[period + i].ts
            &&& forall|i: int|
                0 <= i < r@.len() ==> (#[trigger] r@[i]).value == rsi_at(
                    data@,
                    period as int,
                    i,
                    unit as int,
                )
            &&& forall|i: int| 0 <= i < r@.len() ==> 0 <= (#[trigger] r@[i]).value <= 100 * unit
        },
{
    let len = data.len();
    if period == 0 || len <= period {
        return Vec::new();
    }
    let mut sum_gain: i128 = 0;
    let mut sum_loss: i128 = 0;
    let mut j: usize = 1;
    while j <= period
        invariant
            1 <= j <= period + 1,
            period + 1 <= len,
            len == data@.len() <= MAX_LEN,
            bars_bounded(data@),
            sum_gain == sum_gains(data@, 1, j as int),
            sum_loss == sum_losses(data@, 1, j as int),
        decreases period + 1 - j,
    {
        proof {
            lemma_sum_gains_losses_bound(data@, 1, j as int);
            lemma_scale_le(j as int - 1, MAX_LEN as int, 2 * MAX_TICK as int);
            assert(price_point_bounded(data@[j as int]));
            assert(price_point_bounded(data@[j as int - 1]));
        }
        let change = data[j].close as i128 - data[j - 1].close as i128;
        if change > 0 {
            sum_gain = sum_gain + change;
        } else {
            sum_loss = sum_loss - change;
        }
        j = j + 1;
    }
    proof {
        lemma_sum_gains_losses_bound(data@, 1, period as int + 1);
        lemma_div_pos_is_pos(sum_gain as int, period as int);
        lemma_div_pos_is_pos(sum_loss as int, period as int);
        lemma_div_floor_bounded(sum_gain as int, period as int, 2 * MAX_TICK);
        lemma_div_floor_bounded(sum_loss as int, period as int, 2 * MAX_TICK);
    }
    let mut avg_gain = div_floor(sum_gain, period as i128);
    let mut avg_loss = div_floor(sum_loss, period as i128);
    let mut result: Vec<IndicatorPoint> = Vec::new();
    result.push(IndicatorPoint { ts: data[period].ts, value: rsi_value(avg_gain, avg_loss, unit) });
    let mut i: usize = period + 1;
    while i < len
        invariant
            period + 1 <= i <= len,
            1 <= period,
            1 <= unit <= MAX_UNIT,
            len == data@.len() <= MAX_LEN,
            bars_bounded(data@),
            avg_gain == wilder_gain(data@, period as int, i - 1 - period),
            avg_loss == wilder_loss(data@, period as int, i - 1 - period),
            0 <= avg_gain <= 2 * MAX_TICK,
            0 <= avg_loss <= 2 * MAX_TICK,
            result@.len() == i - period,
            forall|k: int|
                0 <= k < result@.len() ==> (#[trigger] result@[k]).ts == data@[period + k].ts,
            forall|k: int|
                0 <= k < result@.len() ==> (#[trigger] result@[k]).value == rsi_at(
                    data@,
                    period as int,
                    k,
                    unit as int,
                ),
            forall|k: int|
                0 <= k < result@.len() ==> 0 <= (#[trigger] result@[k]).value <= 100 * unit,
        decreases len - i,
    {
        proof {
            assert(price_point_bounded(data@[i as int]));
            assert(price_point_bounded(data@[i as int - 1]));
        }
        let change = data[i].close as i128 - data[i - 1].close as i128;
        let gain: i128 = if change > 0 {
            change
        } else {
            0
        };
        let loss: i128 = if change > 0 {
            0
        } else {
            -change
        };
        proof {
            assert(gain == gain_at(data@, i as int));
            assert(loss == loss_at(data@, i as int));
            assert(0 <= avg_gain * (period as int - 1) + gain <= (period as int) * (2 * MAX_TICK))
                by (nonlinear_arith)
                requires
                    0 <= avg_gain as int <= 2 * MAX_TICK,
                    1 <= period as int,
                    0 <= gain as int <= 2 * MAX_TICK,
            ;
            assert(0 <= avg_loss * (period as int - 1) + loss <= (period as int) * (2 * MAX_TICK))
                by (nonlinear_arith)
                requires
                    0 <= avg_loss as int <= 2 * MAX_TICK,
                    1 <= period as int,
                    0 <= loss as int <= 2 * MAX_TICK,
            ;
            assert(0 <= avg_gain as int * (period as int - 1) <= (period as int) * (2 * MAX_TICK))
                by (nonlinear_arith)
                requires
                    0 <= avg_gain as int <= 2 * MAX_TICK,
                    1 <= period as int,
            ;
            assert(0 <= avg_loss as int * (period as int - 1) <= (period as int) * (2 * MAX_TICK))
                by (nonlinear_arith)
                requires
                    0 <= avg_loss as int <= 2 * MAX_TICK,
                    1 <= period as int,
            ;
            assert((period as int) * (2 * MAX_TICK) <= (MAX_LEN as int) * (2 * MAX_TICK))
                by (nonlinear_arith)
                requires
                    period as int <= MAX_LEN as int,
            ;
            lemma_div_pos_is_pos(avg_gain * (period as int - 1) + gain, period as int);
            lemma_div_pos_is_pos(avg_loss * (period as int - 1) + loss, period as int);
            lemma_div_floor_bounded(avg_gain * (period as int - 1) + gain, period as int, 2 * MAX_TICK);
            lemma_div_floor_bounded(avg_loss * (period as int - 1) + loss, period as int, 2 * MAX_TICK);
        }
        avg_gain = div_floor(avg_gain * (period as i128 - 1) + gain, period as i128);
        avg_loss = div_floor(avg_loss * (period as i128 - 1) + loss, period as i128);
        result.push(IndicatorPoint { ts: data[i].ts, value: rsi_value(avg_gain, avg_loss, unit) });
        i = i + 1;
    }
    result
}

} // verus!
