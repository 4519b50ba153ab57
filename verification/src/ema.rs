//! Exponential moving average over close prices, seeded with the simple
//! moving average of the first window and smoothed with multiplier
//! `k = 2 / (period + 1)`; with integer ticks the recurrence
//! `close * k + prev * (1 - k)` becomes
//! `(2 * close + (period - 1) * prev) / (period + 1)`, rounded toward
//! negative infinity.

use vstd::prelude::*;

verus! {

use crate::arith::div_floor;
use crate::arith::lemma_div_floor_bounded;
use crate::arith::lemma_scale_le;
use crate::series::lemma_sum_closes_bound;
use crate::series::sum_closes;
use crate::sma::sma_at;
use crate::types::IndicatorPoint;
use crate::types::MAX_LEN;
use crate::types::MAX_TICK;
use crate::types::PricePoint;
use crate::types::bars_bounded;

/// Value of the exponential moving average at output index `i` for window
/// length `p`: the seed is the mean of the first `p` closes, and each later
/// value blends the close of bar `p - 1 + i` with the previous average.
pub open spec fn ema_at(s: Seq<PricePoint>, p: int, i: int) -> int
    decreases i,
{
    if i <= 0 {
        sum_closes(s, 0, p) / p
    } else {
        (2 * s[p - 1 + i].close + (p - 1) * ema_at(s, p, i - 1)) / (p + 1)
    }
}

/// The first exponential average value is exactly the first simple average
/// value: the seed of the exponential family is the simple mean of the same
/// window, for every valid window length.
pub proof fn lemma_ema_seed_matches_sma(s: Seq<PricePoint>, p: int)
    requires
        1 <= p <= s.len(),
    ensures
        ema_at(s, p, 0) == sma_at(s, p, 0),
{
}

/// Exponential moving average of the close prices with the given window
/// length.
///
/// An out-of-range window (zero, or longer than the series) yields an empty
/// result; otherwise the output aligns with the simple average: one point
/// per bar from the window's last bar onward.
pub fn calc_ema_impl(data: &Vec<PricePoint>, period: usize) -> (r: Vec<IndicatorPoint>)
    requires
        bars_bounded(data@),
        data@.len() <= MAX_LEN,
    ensures
        period == 0 || period > data@.len() ==> r@.len() == 0,
        1 <= period <= data@.len() ==> {
            &&& r@.len() == data@.len() - period + 1
            &&& forall|i: int|
                0 <= i < r@.len() ==> (#[trigger] r@[i]).ts == data@[period - 1 + i].ts
            &&& forall|i: int|
                0 <= i < r@.len() ==> (#[trigger] r@[i]).value == ema_at(
                    data@,
                    period as int,
                    i,
                )
        },
{
    let len = data.len();
    if period == 0 || period > len {
        return Vec::new();
    }
    let mut window_sum: i128 = 0;
    let mut j: usize = 0;
    while j < period
        invariant
            0 <= j <= period <= len,
            len == data@.len() <= MAX_LEN,
            bars_bounded(data@),
            window_sum == sum_closes(data@, 0, j as int),
        decreases period - j,
    {
        proof {
            lemma_sum_closes_bound(data@, 0, j as int);
            lemma_scale_le(j as int, MAX_LEN as int, MAX_TICK as int);
            lemma_scale_le(-(MAX_LEN as int), -(j as int), MAX_TICK as int);
        }
        window_sum = window_sum + data[j].close as i128;
        j = j + 1;
    }
    proof {
        lemma_sum_closes_bound(data@, 0, period as int);
        lemma_div_floor_bounded(window_sum as int, period as int, MAX_TICK as int);
    }
    let mut prev: i128 = div_floor(window_sum, period as i128);
    let mut result: Vec<IndicatorPoint> = Vec::new();
    result.push(IndicatorPoint { ts: data[period - 1].ts, value: prev as i64 });
    let mut i: usize = period;
    while i < len
        invariant
            period <= i <= len,
            1 <= period,
            len == data@.len() <= MAX_LEN,
            bars_bounded(data@),
            prev == ema_at(data@, period as int, i - period),
            -MAX_TICK <= prev <= MAX_TICK,
            result@.len() == i - period + 1,
            forall|k: int|
                0 <= k < result@.len() ==> (#[trigger] result@[k]).ts == data@[period - 1 + k].ts,
            forall|k: int|
                0 <= k < result@.len() ==> (#[trigger] result@[k]).value == ema_at(
                    data@,
                    period as int,
                    k,
                ),
        decreases len - i,
    {
        let c = data[i].close as i128;
        proof {
            assert(-((period as int + 1) * MAX_TICK) <= 2 * (c as int) + (period as int - 1) * (
            prev as int) <= (period as int + 1) * MAX_TICK) by (nonlinear_arith)
                requires
                    -MAX_TICK <= prev as int <= MAX_TICK,
                    -MAX_TICK <= c as int <= MAX_TICK,
                    1 <= period as int <= MAX_LEN as int,
            ;
        }
        let blended = 2 * c + (period as i128 - 1) * prev;
        proof {
            lemma_div_floor_bounded(blended as int, period as int + 1, MAX_TICK as int);
        }
        let value = div_floor(blended, period as i128 + 1);
        proof {
            assert(ema_at(data@, period as int, i - period + 1) == (2 * data@[i as int].close + (
            period as int - 1) * ema_at(data@, period as int, i - period)) / (period as int + 1));
        }
        result.push(IndicatorPoint { ts: data[i].ts, value: value as i64 });
        prev = value;
        i = i + 1;
    }
    result
}

} // verus!
