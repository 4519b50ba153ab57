//! Simple moving average over close prices, computed with a sliding window
//! sum: each step adds the newest close and subtracts the oldest one instead
//! of re-summing the window.

use vstd::prelude::*;

verus! {

use crate::arith::div_floor;
use crate::arith::lemma_div_floor_bounded;
use crate::arith::lemma_scale_le;
use crate::series::lemma_sum_closes_bound;
use crate::series::lemma_sum_closes_drop_front;
use crate::series::sum_closes;
use crate::types::IndicatorPoint;
use crate::types::MAX_LEN;
use crate::types::MAX_TICK;
use crate::types::PricePoint;
use crate::types::bars_bounded;

/// Value of the simple moving average whose window of `p` closes ends at bar
/// `p - 1 + i`: the mean of those closes, rounded toward negative infinity.
pub open spec fn sma_at(s: Seq<PricePoint>, p: int, i: int) -> int {
    sum_closes(s, i, i + p) / p
}

/// Simple moving average of the close prices with the given window length.
///
/// An out-of-range window (zero, or longer than the series) yields an empty
/// result; otherwise one output point per complete window, timestamped at
/// the window's last bar.
pub fn calc_sma_impl(data: &Vec<PricePoint>, period: usize) -> (r: Vec<IndicatorPoint>)
    requires
        bars_bounded(data@),
        data@.len() <= MAX_LEN,
    ensures
        period == 0 || period > data@.len() ==> r@.len() == 0,
        1 <= period <= data@.len() ==> {
            &&& r@.len() == data@.len() - period + 1
            &&& forall|i: int|
                0 <= i < r@.len() ==> (#[trigger] r@[i]).ts == data@[period - 1 + i].ts
            &&& forall|i: int|
                0 <= i < r@.len() ==> (#[trigger] r@[i]).value == sma_at(
                    data@,
                    period as int,
                    i,
                )
        },
{
    let len = data.len();
    if period == 0 || period > len {
        return Vec::new();
    }
    let mut result: Vec<IndicatorPoint> = Vec::new();
    let mut window_sum: i128 = 0;
    let mut j: usize = 0;
    while j < period
        invariant
            0 <= j <= period <= len,
            len == data@.len() <= MAX_LEN,
            bars_bounded(data@),
            window_sum == sum_closes(data@, 0, j as int),
        decreases period - j,
    {
        proof {
            lemma_sum_closes_bound(data@, 0, j as int);
            lemma_scale_le(j as int, MAX_LEN as int, MAX_TICK as int);
            lemma_scale_le(-(MAX_LEN as int), -(j as int), MAX_TICK as int);
        }
        window_sum = window_sum + data[j].close as i128;
        j = j + 1;
    }
    proof {
        lemma_sum_closes_bound(data@, 0, period as int);
        lemma_div_floor_bounded(window_sum as int, period as int, MAX_TICK as int);
    }
    let first_value = div_floor(window_sum, period as i128);
    result.push(
        IndicatorPoint { ts: data[period - 1].ts, value: first_value as i64 },
    );
    let mut i: usize = period;
    while i < len
        invariant
            period <= i <= len,
            1 <= period,
            len == data@.len() <= MAX_LEN,
            bars_bounded(data@),
            window_sum == sum_closes(data@, i - period, i as int),
            result@.len() == i - period + 1,
            forall|k: int|
                0 <= k < result@.len() ==> (#[trigger] result@[k]).ts == data@[period - 1 + k].ts,
            forall|k: int|
                0 <= k < result@.len() ==> (#[trigger] result@[k]).value == sma_at(
                    data@,
                    period as int,
                    k,
                ),
        decreases len - i,
    {
        proof {
            lemma_sum_closes_bound(data@, i - period, i as int);
            lemma_scale_le(period as int, MAX_LEN as int, MAX_TICK as int);
            lemma_scale_le(-(MAX_LEN as int), -(period as int), MAX_TICK as int);
            lemma_sum_closes_drop_front(data@, i - period, i as int);
            assert(sum_closes(data@, i - period + 1, i as int + 1) == sum_closes(
                data@,
                i - period + 1,
                i as int,
            ) + data@[i as int].close);
        }
        window_sum = window_sum + data[i].close as i128 - data[i - period].close as i128;
        proof {
            lemma_sum_closes_bound(data@, i - period + 1, i as int + 1);
            lemma_div_floor_bounded(window_sum as int, period as int, MAX_TICK as int);
        }
        let value = div_floor(window_sum, period as i128);
        result.push(IndicatorPoint { ts: data[i].ts, value: value as i64 });
        i = i + 1;
    }
    result
}

} // verus!
