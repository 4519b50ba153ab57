//! Record types shared by the downsampler and the indicator engine, and the
//! magnitude bounds under which every intermediate computation fits in `i128`.

use vstd::prelude::*;

verus! {

/// Largest magnitude accepted for a tick value (timestamp, price or volume).
///
/// Generous enough for millisecond epoch timestamps and micro-unit prices,
/// yet small enough that every product and sum formed by the algorithms in
/// this crate stays well inside `i128`.
pub const MAX_TICK: i64 = 100_000_000_000_000;

/// Largest accepted input length, so that sums over a whole series of
/// bounded ticks stay inside `i128`.
pub const MAX_LEN: usize = 100_000_000;

/// One generic sample of an arbitrary time series: a timestamp and a value,
/// both in ticks.
#[derive(Clone, Copy, Debug, PartialEq, Eq, Structural)]
pub struct DataPoint {
    pub ts: i64,
    pub value: i64,
}

/// One OHLCV observation, every field in ticks.
#[derive(Clone, Copy, Debug, PartialEq, Eq, Structural)]
pub struct PricePoint {
    pub ts: i64,
    pub open: i64,
    pub high: i64,
    pub low: i64,
    pub close: i64,
    pub volume: i64,
}

/// One indicator output sample, timestamp-aligned to the bar that produced it.
#[derive(Clone, Copy, Debug, PartialEq, Eq, Structural)]
pub struct IndicatorPoint {
    pub ts: i64,
    pub value: i64,
}

/// The sample lies within the magnitude bound accepted by the downsampler.
pub open spec fn data_point_bounded(p: DataPoint) -> bool {
    &&& -MAX_TICK <= p.ts <= MAX_TICK
    &&& -MAX_TICK <= p.value <= MAX_TICK
}

/// Every sample of the series lies within the magnitude bound.
pub open spec fn data_bounded(s: Seq<DataPoint>) -> bool {
    forall|i: int| 0 <= i < s.len() ==> data_point_bounded(#[trigger] s[i])
}

/// The bar lies within the magnitude bound accepted by the indicator engine.
pub open spec fn price_point_bounded(p: PricePoint) -> bool {
    &&& -MAX_TICK <= p.ts <= MAX_TICK
    &&& -MAX_TICK <= p.open <= MAX_TICK
    &&& -MAX_TICK <= p.high <= MAX_TICK
    &&& -MAX_TICK <= p.low <= MAX_TICK
    &&& -MAX_TICK <= p.close <= MAX_TICK
    &&& -MAX_TICK <= p.volume <= MAX_TICK
}

/// Every bar of the series lies within the magnitude bound.
pub open spec fn bars_bounded(s: Seq<PricePoint>) -> bool {
    forall|i: int| 0 <= i < s.len() ==> price_point_bounded(#[trigger] s[i])
}

/// No bar of the series reports a negative traded volume.
pub open spec fn volumes_nonneg(s: Seq<PricePoint>) -> bool {
    forall|i: int| 0 <= i < s.len() ==> 0 <= (#[trigger] s[i]).volume
}

} // verus!
