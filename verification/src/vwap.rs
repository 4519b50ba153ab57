//! Volume-weighted average price: the running total of typical price times
//! volume divided by the running total of volume, one output per bar. The
//! typical price of a bar is the mean of its high, low and close.
//!
//! Two accumulation modes are exposed. The plain mode accumulates from the
//! start of the series. The session mode restarts the running totals
//! whenever the gap between consecutive timestamps exceeds a caller-chosen
//! threshold, modelling an average that resets at session boundaries.

use vstd::prelude::*;

verus! {

use crate::arith::div_floor;
use crate::arith::lemma_div_floor_bounded;
use crate::series::lemma_sum_tpv_bound;
use crate::series::lemma_sum_tpv_vs_vol;
use crate::series::lemma_sum_vol_bound;
use crate::series::sum_tpv;
use crate::series::sum_vol;
use crate::series::tp3;
use crate::types::IndicatorPoint;
use crate::types::MAX_LEN;
use crate::types::MAX_TICK;
use crate::types::PricePoint;
use crate::types::bars_bounded;
use crate::types::price_point_bounded;
use crate::types::volumes_nonneg;

/// Typical price of one bar in ticks: the mean of high, low and close,
/// rounded toward negative infinity.
pub open spec fn typical_price(p: PricePoint) -> int {
    tp3(p) / 3
}

/// The averaged value output for bar `i` when accumulation started at bar
/// `st`: the volume-weighted mean of the typical prices of `s[st..=i]`, or
/// the bar's own typical price when no volume has accumulated.
pub open spec fn vwap_value(s: Seq<PricePoint>, st: int, i: int) -> int {
    if sum_vol(s, st, i + 1) > 0 {
        sum_tpv(s, st, i + 1) / (3 * sum_vol(s, st, i + 1))
    } else {
        typical_price(s[i])
    }
}

/// First bar of the session that bar `i` belongs to: walking back from `i`,
/// the most recent bar whose distance to its predecessor exceeds `gap`.
pub open spec fn session_start(s: Seq<PricePoint>, gap: int, i: int) -> int
    decreases i,
{
    if i <= 0 {
        0
    } else if s[i].ts - s[i - 1].ts > gap {
        i
    } else {
        session_start(s, gap, i - 1)
    }
}

/// Volume-weighted average price with a selectable session reset.
///
/// With `reset_on_gap` off the running totals accumulate over the whole
/// series; with it on they restart whenever two consecutive bars are more
/// than `gap_threshold` ticks of time apart. One output per input bar,
/// timestamp-aligned.
pub fn calc_vwap_with_reset(
    data: &Vec<PricePoint>,
    reset_on_gap: bool,
    gap_threshold: i64,
) -> (r: Vec<IndicatorPoint>)
    requires
        bars_bounded(data@),
        volumes_nonneg(data@),
        data@.len() <= MAX_LEN,
    ensures
        r@.len() == data@.len(),
        forall|i: int| 0 <= i < r@.len() ==> (#[trigger] r@[i]).ts == data@[i].ts,
        !reset_on_gap ==> forall|i: int|
            0 <= i < r@.len() ==> (#[trigger] r@[i]).value == vwap_value(data@, 0, i),
        reset_on_gap ==> forall|i: int|
            0 <= i < r@.len() ==> (#[trigger] r@[i]).value == vwap_value(
                data@,
                session_start(data@, gap_threshold as int, i),
                i,
            ),
{
    let len = data.len();
    let mut result: Vec<IndicatorPoint> = Vec::new();
    let mut cum_tpv: i128 = 0;
    let mut cum_vol: i128 = 0;
    let ghost mut st: int = 0;
    let mut i: usize = 0;
    while i < len
        invariant
            0 <= i <= len,
            len == data@.len() <= MAX_LEN,
            bars_bounded(data@),
            volumes_nonneg(data@),
            0 <= st <= i,
            i == 0 ==> st == 0 && cum_tpv == 0 && cum_vol == 0,
            i >= 1 && !reset_on_gap ==> st == 0,
            i >= 1 && reset_on_gap ==> st == session_start(data@, gap_threshold as int, i - 1),
            cum_tpv == sum_tpv(data@, st, i as int),
            cum_vol == sum_vol(data@, st, i as int),
            result@.len() == i,
            forall|k: int| 0 <= k < result@.len() ==> (#[trigger] result@[k]).ts == data@[k].ts,
            !reset_on_gap ==> forall|k: int|
                0 <= k < result@.len() ==> (#[trigger] result@[k]).value == vwap_value(data@, 0, k),
            reset_on_gap ==> forall|k: int|
                0 <= k < result@.len() ==> (#[trigger] result@[k]).value == vwap_value(
                    data@,
                    session_start(data@, gap_threshold as int, k),
                    k,
                ),
        decreases len - i,
    {
        proof {
            assert(price_point_bounded(data@[i as int]));
        }
        if reset_on_gap && i > 0 {
            proof {
                assert(price_point_bounded(data@[i as int - 1]));
            }
            if data[i].ts - data[i - 1].ts > gap_threshold {
                cum_tpv = 0;
                cum_vol = 0;
                proof {
                    st = i as int;
                }
            }
        }
        proof {
            if reset_on_gap {
                if i >= 1 {
                    assert(session_start(data@, gap_threshold as int, i as int) == (
                    if data@[i as int].ts - data@[i as int - 1].ts > gap_threshold {
                        i as int
                    } else {
                        session_start(data@, gap_threshold as int, i as int - 1)
                    }));
                }
                assert(st == session_start(data@, gap_threshold as int, i as int));
            }
        }
        let bar_tp3: i128 = data[i].high as i128 + data[i].low as i128 + data[i].close as i128;
        let vol: i128 = data[i].volume as i128;
        proof {
            lemma_sum_tpv_bound(data@, st, i as int);
            lemma_sum_vol_bound(data@, st, i as int);
            assert((i as int - st) * (3 * MAX_TICK * MAX_TICK) <= 3000000000000000000000000000000000000)
                by (nonlinear_arith)
                requires
                    0 <= i as int - st <= 100000000,
                    MAX_TICK == 100000000000000,
            ;
            assert(-3000000000000000000000000000000000000 <= -((i as int - st) * (3 * MAX_TICK
                * MAX_TICK))) by (nonlinear_arith)
                requires
                    0 <= i as int - st <= 100000000,
                    MAX_TICK == 100000000000000,
            ;
            assert((i as int - st) * MAX_TICK <= 10000000000000000000000) by (nonlinear_arith)
                requires
                    0 <= i as int - st <= 100000000,
                    MAX_TICK == 100000000000000,
            ;
            assert(-10000000000000000000000 <= -((i as int - st) * MAX_TICK)) by (nonlinear_arith)
                requires
                    0 <= i as int - st <= 100000000,
                    MAX_TICK == 100000000000000,
            ;
            assert(-30000000000000000000000000000 <= bar_tp3 * vol <= 30000000000000000000000000000)
                by (nonlinear_arith)
                requires
                    -300000000000000 <= bar_tp3 as int <= 300000000000000,
                    -100000000000000 <= vol as int <= 100000000000000,
            ;
        }
        cum_tpv = cum_tpv + bar_tp3 * vol;
        cum_vol = cum_vol + vol;
        proof {
            assert(sum_tpv(data@, st, i as int + 1) == sum_tpv(data@, st, i as int) + tp3(
                data@[i as int],
            ) * data@[i as int].volume);
            assert(sum_vol(data@, st, i as int + 1) == sum_vol(data@, st, i as int)
                + data@[i as int].volume);
        }
        let value: i64;
        if cum_vol > 0 {
            proof {
                lemma_sum_tpv_vs_vol(data@, st, i as int + 1);
                assert((3 * MAX_TICK) * sum_vol(data@, st, i as int + 1) == (3 * sum_vol(
                    data@,
                    st,
                    i as int + 1,
                )) * MAX_TICK) by (nonlinear_arith);
                lemma_div_floor_bounded(
                    sum_tpv(data@, st, i as int + 1),
                    3 * sum_vol(data@, st, i as int + 1),
                    MAX_TICK as int,
                );
            }
            value = div_floor(cum_tpv, 3 * cum_vol) as i64;
        } else {
            proof {
                lemma_div_floor_bounded(tp3(data@[i as int]), 3, MAX_TICK as int);
            }
            value = div_floor(bar_tp3, 3) as i64;
        }
        result.push(IndicatorPoint { ts: data[i].ts, value });
        i = i + 1;
    }
    result
}

/// Volume-weighted average price accumulated from the start of the series,
/// with no session reset.
pub fn calc_vwap_impl(data: &Vec<PricePoint>) -> (r: Vec<IndicatorPoint>)
    requires
        bars_bounded(data@),
        volumes_nonneg(data@),
        data@.len() <= MAX_LEN,
    ensures
        r@.len() == data@.len(),
        forall|i: int| 0 <= i < r@.len() ==> (#[trigger] r@[i]).ts == data@[i].ts,
        forall|i: int| 0 <= i < r@.len() ==> (#[trigger] r@[i]).value == vwap_value(data@, 0, i),
{
    calc_vwap_with_reset(data, false, 0)
}

} // verus!
