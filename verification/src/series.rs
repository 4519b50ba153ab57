//! Specification-level sums over OHLCV series: close-price window sums for
//! the moving averages, gain/loss sums for the oscillator, and typical-price
//! and volume sums for the volume-weighted average.

use vstd::prelude::*;

verus! {

use crate::types::MAX_TICK;
use crate::types::PricePoint;
use crate::types::bars_bounded;
use crate::types::price_point_bounded;
use crate::types::volumes_nonneg;

/// Sum of the close prices of `s[lo..hi]`.
pub open spec fn sum_closes(s: Seq<PricePoint>, lo: int, hi: int) -> int
    decreases hi - lo,
{
    if lo >= hi {
        0
    } else {
        sum_closes(s, lo, hi - 1) + s[hi - 1].close
    }
}

/// Close-to-close gain at transition `i` (bar `i - 1` to bar `i`): the
/// positive part of the change.
pub open spec fn gain_at(s: Seq<PricePoint>, i: int) -> int {
    if s[i].close > s[i - 1].close {
        s[i].close - s[i - 1].close
    } else {
        0
    }
}

/// Close-to-close loss at transition `i`: the magnitude of a non-positive
/// change, and zero for a gain.
pub open spec fn loss_at(s: Seq<PricePoint>, i: int) -> int {
    if s[i].close > s[i - 1].close {
        0
    } else {
        s[i - 1].close - s[i].close
    }
}

/// Sum of the gains over transitions `lo..hi`.
pub open spec fn sum_gains(s: Seq<PricePoint>, lo: int, hi: int) -> int
    decreases hi - lo,
{
    if lo >= hi {
        0
    } else {
        sum_gains(s, lo, hi - 1) + gain_at(s, hi - 1)
    }
}

/// Sum of the losses over transitions `lo..hi`.
pub open spec fn sum_losses(s: Seq<PricePoint>, lo: int, hi: int) -> int
    decreases hi - lo,
{
    if lo >= hi {
        0
    } else {
        sum_losses(s, lo, hi - 1) + loss_at(s, hi - 1)
    }
}

/// Three times the typical price of one bar: high plus low plus close.
pub open spec fn tp3(p: PricePoint) -> int {
    p.high + p.low + p.close
}

/// Sum over `s[lo..hi]` of three-times-typical-price weighted by volume.
pub open spec fn sum_tpv(s: Seq<PricePoint>, lo: int, hi: int) -> int
    decreases hi - lo,
{
    if lo >= hi {
        0
    } else {
        sum_tpv(s, lo, hi - 1) + tp3(s[hi - 1]) * s[hi - 1].volume
    }
}

/// Sum of the volumes of `s[lo..hi]`.
pub open spec fn sum_vol(s: Seq<PricePoint>, lo: int, hi: int) -> int
    decreases hi - lo,
{
    if lo >= hi {
        0
    } else {
        sum_vol(s, lo, hi - 1) + s[hi - 1].volume
    }
}

/// A window sum of closes is bounded by the window length times the tick bound.
pub proof fn lemma_sum_closes_bound(s: Seq<PricePoint>, lo: int, hi: int)
    requires
        bars_bounded(s),
        0 <= lo <= hi,
        hi <= s.len(),
    ensures
        -(hi - lo) * MAX_TICK <= sum_closes(s, lo, hi) <= (hi - lo) * MAX_TICK,
    decreases hi - lo,
{
    if lo >= hi {
    } else {
        lemma_sum_closes_bound(s, lo, hi - 1);
        assert(price_point_bounded(s[hi - 1]));
        assert((hi - lo) * MAX_TICK == (hi - 1 - lo) * MAX_TICK + MAX_TICK) by (nonlinear_arith);
        assert(-(hi - lo) * MAX_TICK == -(hi - 1 - lo) * MAX_TICK - MAX_TICK) by (nonlinear_arith);
    }
}

/// Dropping the first element of a close-price window takes its close out of
/// the sum.
pub proof fn lemma_sum_closes_drop_front(s: Seq<PricePoint>, lo: int, hi: int)
    requires
        lo < hi,
    ensures
        sum_closes(s, lo, hi) == s[lo].close + sum_closes(s, lo + 1, hi),
    decreases hi - lo,
{
    if lo + 1 == hi {
        assert(sum_closes(s, lo, hi) == sum_closes(s, lo, lo) + s[lo].close);
        assert(sum_closes(s, lo + 1, hi) == 0);
    } else {
        lemma_sum_closes_drop_front(s, lo, hi - 1);
        assert(sum_closes(s, lo + 1, hi) == sum_closes(s, lo + 1, hi - 1) + s[hi - 1].close);
    }
}

/// Gain and loss sums are bounded by the window length times twice the tick
/// bound, and are never negative.
pub proof fn lemma_sum_gains_losses_bound(s: Seq<PricePoint>, lo: int, hi: int)
    requires
        bars_bounded(s),
        1 <= lo,
        lo <= hi,
        hi <= s.len(),
    ensures
        0 <= sum_gains(s, lo, hi) <= (hi - lo) * (2 * MAX_TICK),
        0 <= sum_losses(s, lo, hi) <= (hi - lo) * (2 * MAX_TICK),
    decreases hi - lo,
{
    if lo >= hi {
    } else {
        lemma_sum_gains_losses_bound(s, lo, hi - 1);
        assert(price_point_bounded(s[hi - 1]));
        assert(price_point_bounded(s[hi - 2]));
        assert((hi - lo) * (2 * MAX_TICK) == (hi - 1 - lo) * (2 * MAX_TICK) + 2 * MAX_TICK)
            by (nonlinear_arith);
    }
}

/// A loss sum over transitions that are all gains vanishes.
pub proof fn lemma_sum_losses_zero(s: Seq<PricePoint>, lo: int, hi: int)
    requires
        forall|j: int| lo <= j < hi ==> #[trigger] loss_at(s, j) == 0,
    ensures
        sum_losses(s, lo, hi) == 0,
    decreases hi - lo,
{
    if lo < hi {
        lemma_sum_losses_zero(s, lo, hi - 1);
    }
}

/// A gain sum over transitions that are all losses vanishes.
pub proof fn lemma_sum_gains_zero(s: Seq<PricePoint>, lo: int, hi: int)
    requires
        forall|j: int| lo <= j < hi ==> #[trigger] gain_at(s, j) == 0,
    ensures
        sum_gains(s, lo, hi) == 0,
    decreases hi - lo,
{
    if lo < hi {
        lemma_sum_gains_zero(s, lo, hi - 1);
    }
}

/// A loss sum over transitions that each lose at least one tick is at least
/// the number of transitions.
pub proof fn lemma_sum_losses_min(s: Seq<PricePoint>, lo: int, hi: int)
    requires
        lo <= hi,
        forall|j: int| lo <= j < hi ==> #[trigger] loss_at(s, j) >= 1,
    ensures
        sum_losses(s, lo, hi) >= hi - lo,
    decreases hi - lo,
{
    if lo < hi {
        lemma_sum_losses_min(s, lo, hi - 1);
    }
}

/// Volume sums are bounded by the window length times the tick bound.
pub proof fn lemma_sum_vol_bound(s: Seq<PricePoint>, lo: int, hi: int)
    requires
        bars_bounded(s),
        0 <= lo <= hi,
        hi <= s.len(),
    ensures
        -(hi - lo) * MAX_TICK <= sum_vol(s, lo, hi) <= (hi - lo) * MAX_TICK,
    decreases hi - lo,
{
    if lo >= hi {
    } else {
        lemma_sum_vol_bound(s, lo, hi - 1);
        assert(price_point_bounded(s[hi - 1]));
        assert((hi - lo) * MAX_TICK == (hi - 1 - lo) * MAX_TICK + MAX_TICK) by (nonlinear_arith);
        assert(-(hi - lo) * MAX_TICK == -(hi - 1 - lo) * MAX_TICK - MAX_TICK) by (nonlinear_arith);
    }
}

/// With nonnegative volumes, the volume sum is nonnegative and the weighted
/// typical-price sum is within three tick bounds of weight: each term
/// contributes at most `3 * MAX_TICK` per unit of volume.
pub proof fn lemma_sum_tpv_vs_vol(s: Seq<PricePoint>, lo: int, hi: int)
    requires
        bars_bounded(s),
        volumes_nonneg(s),
        0 <= lo <= hi,
        hi <= s.len(),
    ensures
        0 <= sum_vol(s, lo, hi),
        -((3 * MAX_TICK) * sum_vol(s, lo, hi)) <= sum_tpv(s, lo, hi) <= (3 * MAX_TICK) * sum_vol(
            s,
            lo,
            hi,
        ),
    decreases hi - lo,
{
    if lo >= hi {
    } else {
        lemma_sum_tpv_vs_vol(s, lo, hi - 1);
        assert(price_point_bounded(s[hi - 1]));
        assert(0 <= s[hi - 1].volume);
        assert(-((3 * MAX_TICK) * s[hi - 1].volume) <= tp3(s[hi - 1]) * s[hi - 1].volume <= (3
            * MAX_TICK) * s[hi - 1].volume) by (nonlinear_arith)
            requires
                price_point_bounded(s[hi - 1]),
                0 <= s[hi - 1].volume,
        ;
        assert((3 * MAX_TICK) * sum_vol(s, lo, hi) == (3 * MAX_TICK) * sum_vol(s, lo, hi - 1) + (3
            * MAX_TICK) * s[hi - 1].volume) by (nonlinear_arith)
            requires
                sum_vol(s, lo, hi) == sum_vol(s, lo, hi - 1) + s[hi - 1].volume,
        ;
    }
}

/// Weighted typical-price sums are bounded by the window length times three
/// times the square of the tick bound.
pub proof fn lemma_sum_tpv_bound(s: Seq<PricePoint>, lo: int, hi: int)
    requires
        bars_bounded(s),
        0 <= lo <= hi,
        hi <= s.len(),
    ensures
        -(hi - lo) * (3 * MAX_TICK * MAX_TICK) <= sum_tpv(s, lo, hi) <= (hi - lo) * (3 * MAX_TICK
            * MAX_TICK),
    decreases hi - lo,
{
    if lo >= hi {
    } else {
        lemma_sum_tpv_bound(s, lo, hi - 1);
        assert(price_point_bounded(s[hi - 1]));
        assert(-(3 * MAX_TICK * MAX_TICK) <= tp3(s[hi - 1]) * s[hi - 1].volume <= 3 * MAX_TICK
            * MAX_TICK) by (nonlinear_arith)
            requires
                price_point_bounded(s[hi - 1]),
        ;
        assert((hi - lo) * (3 * MAX_TICK * MAX_TICK) == (hi - 1 - lo) * (3 * MAX_TICK * MAX_TICK)
            + 3 * MAX_TICK * MAX_TICK) by (nonlinear_arith);
        assert(-(hi - lo) * (3 * MAX_TICK * MAX_TICK) == -(hi - 1 - lo) * (3 * MAX_TICK * MAX_TICK)
            - 3 * MAX_TICK * MAX_TICK) by (nonlinear_arith);
    }
}

} // verus!
