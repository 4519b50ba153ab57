//! Largest-triangle-three-buckets downsampling.
//!
//! The interior of the series is split into `threshold - 2` buckets whose
//! boundaries come from flooring multiples of the fractional bucket width.
//! Each bucket contributes the single point forming the largest triangle
//! with the previously selected point and the centroid of the next bucket;
//! the first and last points are always kept. Triangle areas are compared
//! exactly: the doubled area is scaled by the next bucket's point count so
//! that the centroid means never have to be divided out, and ties keep the
//! earliest point in scan order.

use vstd::prelude::*;

verus! {

use vstd::arithmetic::div_mod::lemma_div_is_ordered;
use vstd::arithmetic::div_mod::lemma_div_multiples_vanish;
use vstd::arithmetic::div_mod::lemma_div_pos_is_pos;
use crate::arith::abs_i;
use crate::arith::max_i;
use crate::arith::min_i;
use crate::types::DataPoint;
use crate::types::MAX_LEN;
use crate::types::MAX_TICK;
use crate::types::data_bounded;
use crate::types::data_point_bounded;

/// Sum of the timestamps of `s[lo..hi]`.
pub open spec fn sum_ts(s: Seq<DataPoint>, lo: int, hi: int) -> int
    decreases hi - lo,
{
    if lo >= hi {
        0
    } else {
        sum_ts(s, lo, hi - 1) + s[hi - 1].ts
    }
}

/// Sum of the values of `s[lo..hi]`.
pub open spec fn sum_val(s: Seq<DataPoint>, lo: int, hi: int) -> int
    decreases hi - lo,
{
    if lo >= hi {
        0
    } else {
        sum_val(s, lo, hi - 1) + s[hi - 1].value
    }
}

/// Timestamp and value sums are bounded by the window length times the tick
/// bound.
pub proof fn lemma_sum_ts_val_bound(s: Seq<DataPoint>, lo: int, hi: int)
    requires
        data_bounded(s),
        0 <= lo <= hi,
        hi <= s.len(),
    ensures
        -(hi - lo) * MAX_TICK <= sum_ts(s, lo, hi) <= (hi - lo) * MAX_TICK,
        -(hi - lo) * MAX_TICK <= sum_val(s, lo, hi) <= (hi - lo) * MAX_TICK,
    decreases hi - lo,
{
    if lo >= hi {
    } else {
        lemma_sum_ts_val_bound(s, lo, hi - 1);
        assert(data_point_bounded(s[hi - 1]));
        assert((hi - lo) * MAX_TICK == (hi - 1 - lo) * MAX_TICK + MAX_TICK) by (nonlinear_arith);
        assert(-(hi - lo) * MAX_TICK == -(hi - 1 - lo) * MAX_TICK - MAX_TICK) by (nonlinear_arith);
    }
}

/// First index of interior bucket `k` in a series of length `n` split into
/// `t - 2` buckets: one past the floor of `k` bucket widths.
pub open spec fn bucket_start(n: int, t: int, k: int) -> int {
    k * (n - 2) / (t - 2) + 1
}

/// Bucket boundaries never move left as the bucket index grows.
pub proof fn lemma_bucket_start_monotone(n: int, t: int, a: int, b: int)
    requires
        3 <= t,
        2 <= n,
        0 <= a <= b,
    ensures
        bucket_start(n, t, a) <= bucket_start(n, t, b),
{
    assert(a * (n - 2) <= b * (n - 2)) by (nonlinear_arith)
        requires
            0 <= a <= b,
            2 <= n,
    ;
    lemma_div_is_ordered(a * (n - 2), b * (n - 2), t - 2);
}

/// A bucket boundary with index at most `t - 2` stays strictly inside the
/// series: between the second point and the last.
pub proof fn lemma_bucket_start_range(n: int, t: int, k: int)
    requires
        3 <= t,
        t < n,
        0 <= k <= t - 2,
    ensures
        1 <= bucket_start(n, t, k) <= n - 1,
{
    lemma_div_pos_is_pos(k * (n - 2), t - 2);
    assert(k * (n - 2) <= (t - 2) * (n - 2)) by (nonlinear_arith)
        requires
            0 <= k <= t - 2,
            2 <= n,
    ;
    lemma_div_is_ordered(k * (n - 2), (t - 2) * (n - 2), t - 2);
    lemma_div_multiples_vanish(n - 2, t - 2);
}

/// Doubled triangle area, scaled by the next bucket's point count `m`,
/// between the previously selected point `prev`, the candidate `j`, and the
/// next bucket's centroid (whose coordinate sums are `sts` and `sv`).
pub open spec fn area2m(
    s: Seq<DataPoint>,
    prev: int,
    j: int,
    m: int,
    sts: int,
    sv: int,
) -> int {
    abs_i(
        (m * s[prev].ts - sts) * (s[j].value - s[prev].value) - (s[prev].ts - s[j].ts) * (sv - m
            * s[prev].value),
    )
}

/// Index of the best candidate after scanning `[j, hi)` with `cur` as the
/// best so far: a later point replaces the current best only with a
/// strictly larger area, so ties keep the earliest point.
pub open spec fn best_from(
    s: Seq<DataPoint>,
    prev: int,
    m: int,
    sts: int,
    sv: int,
    j: int,
    hi: int,
    cur: int,
) -> int
    decreases hi - j,
{
    if j >= hi {
        cur
    } else {
        best_from(
            s,
            prev,
            m,
            sts,
            sv,
            j + 1,
            hi,
            if area2m(s, prev, j, m, sts, sv) > area2m(s, prev, cur, m, sts, sv) {
                j
            } else {
                cur
            },
        )
    }
}

/// Index selected for interior bucket `i`: the point of the bucket whose
/// triangle against the previous selection and the next bucket's centroid
/// is largest. The selection for bucket `0` measures against the first
/// point of the series.
pub open spec fn lttb_select(s: Seq<DataPoint>, t: int, i: int) -> int
    decreases i,
{
    let n = s.len() as int;
    let prev = if i <= 0 {
        0
    } else {
        lttb_select(s, t, i - 1)
    };
    let lo = bucket_start(n, t, i);
    let hi = min_i(bucket_start(n, t, i + 1), n);
    let ns = bucket_start(n, t, i + 1);
    let ne = min_i(bucket_start(n, t, i + 2), n);
    let m = max_i(ne - ns, 1);
    best_from(s, prev, m, sum_ts(s, ns, ne), sum_val(s, ns, ne), lo + 1, hi, lo)
}

/// Floor of `k` bucket widths past the interior start, executable form.
fn bucket_bound(len: usize, t: usize, k: usize) -> (b: usize)
    requires
        3 <= t,
        t < len,
        len <= MAX_LEN,
        k < t,
    ensures
        b == bucket_start(len as int, t as int, k as int),
        b <= 2 * len,
{
    proof {
        assert(k as int * (len as int - 2) <= 10000000000000000) by (nonlinear_arith)
            requires
                0 <= k as int <= 100000000,
                0 <= len as int - 2 <= 100000000,
        ;
    }
    let num: u64 = (k as u64) * ((len as u64) - 2);
    let q: u64 = num / ((t as u64) - 2);
    proof {
        assert(k as int * (len as int - 2) <= (t as int - 2) * (2 * (len as int - 2)))
            by (nonlinear_arith)
            requires
                0 <= k as int <= t as int - 1,
                3 <= t as int,
                2 <= len as int,
        ;
        lemma_div_is_ordered(
            k as int * (len as int - 2),
            (t as int - 2) * (2 * (len as int - 2)),
            t as int - 2,
        );
        lemma_div_multiples_vanish(2 * (len as int - 2), t as int - 2);
        lemma_div_pos_is_pos(num as int, t as int - 2);
    }
    (q as usize) + 1
}

/// Doubled scaled triangle area, executable form.
fn area2m_exec(data: &Vec<DataPoint>, prev: usize, j: usize, m: i128, sts: i128, sv: i128) -> (a:
    i128)
    requires
        data_bounded(data@),
        data@.len() <= MAX_LEN,
        prev < data@.len(),
        j < data@.len(),
        1 <= m <= MAX_LEN as i128,
        -10000000000000000000000 <= sts <= 10000000000000000000000,
        -10000000000000000000000 <= sv <= 10000000000000000000000,
    ensures
        a == area2m(data@, prev as int, j as int, m as int, sts as int, sv as int),
        0 <= a,
{
    proof {
        assert(data_point_bounded(data@[prev as int]));
        assert(data_point_bounded(data@[j as int]));
    }
    let pts = data[prev].ts as i128;
    let pv = data[prev].value as i128;
    let jts = data[j].ts as i128;
    let jv = data[j].value as i128;
    proof {
        assert(-10000000000000000000000 <= m * pts <= 10000000000000000000000)
            by (nonlinear_arith)
            requires
                1 <= m as int <= 100000000,
                -100000000000000 <= pts as int <= 100000000000000,
        ;
        assert(-10000000000000000000000 <= m * pv <= 10000000000000000000000) by (nonlinear_arith)
            requires
                1 <= m as int <= 100000000,
                -100000000000000 <= pv as int <= 100000000000000,
        ;
    }
    let t1 = m * pts - sts;
    let t2 = jv - pv;
    let t3 = pts - jts;
    let t4 = sv - m * pv;
    proof {
        assert(-8000000000000000000000000000000000000 <= t1 * t2
            <= 8000000000000000000000000000000000000) by (nonlinear_arith)
            requires
                -20000000000000000000000 <= t1 as int <= 20000000000000000000000,
                -200000000000000 <= t2 as int <= 200000000000000,
        ;
        assert(-8000000000000000000000000000000000000 <= t3 * t4
            <= 8000000000000000000000000000000000000) by (nonlinear_arith)
            requires
                -200000000000000 <= t3 as int <= 200000000000000,
                -20000000000000000000000 <= t4 as int <= 20000000000000000000000,
        ;
    }
    let d = t1 * t2 - t3 * t4;
    if d < 0 {
        -d
    } else {
        d
    }
}

/// Largest-triangle-three-buckets downsampling of an ordered series to at
/// most `threshold` points.
///
/// An empty series stays empty; a threshold below three, or one at least as
/// large as the series, returns the series unchanged. Otherwise the result
/// holds exactly `threshold` points: the first point, one selected point
/// per interior bucket, and the last point.
pub fn lttb_downsample_impl(data: &Vec<DataPoint>, threshold: usize) -> (r: Vec<DataPoint>)
    requires
        data_bounded(data@),
        data@.len() <= MAX_LEN,
    ensures
        data@.len() == 0 ==> r@.len() == 0,
        data@.len() > 0 && (threshold < 3 || data@.len() <= threshold) ==> r@ == data@,
        3 <= threshold && threshold < data@.len() ==> {
            &&& r@.len() == threshold
            &&& r@[0] == data@[0]
            &&& r@[threshold - 1] == data@[data@.len() - 1]
            &&& forall|k: int|
                1 <= k <= threshold - 2 ==> (#[trigger] r@[k]) == data@[lttb_select(
                    data@,
                    threshold as int,
                    k - 1,
                )]
        },
{
    let len = data.len();
    if len == 0 {
        return Vec::new();
    }
    if threshold < 3 || len <= threshold {
        let mut out: Vec<DataPoint> = Vec::new();
        let mut j: usize = 0;
        while j < len
            invariant
                j <= len,
                len == data@.len(),
                out@ == data@.subrange(0, j as int),
            decreases len - j,
        {
            out.push(data[j]);
            proof {
                assert(data@.subrange(0, j as int + 1) =~= data@.subrange(0, j as int).push(
                    data@[j as int],
                ));
            }
            j = j + 1;
        }
        proof {
            assert(data@.subrange(0, data@.len() as int) =~= data@);
        }
        return out;
    }
    let mut result: Vec<DataPoint> = Vec::new();
    result.push(data[0]);
    let mut prev: usize = 0;
    let mut i: usize = 0;
    while i < threshold - 2
        invariant
            3 <= threshold < len,
            len == data@.len() <= MAX_LEN,
            data_bounded(data@),
            i <= threshold - 2,
            result@.len() == i + 1,
            result@[0] == data@[0],
            prev < len,
            i == 0 ==> prev == 0,
            i >= 1 ==> prev == lttb_select(data@, threshold as int, i - 1),
            forall|k: int|
                1 <= k <= i ==> (#[trigger] result@[k]) == data@[lttb_select(
                    data@,
                    threshold as int,
                    k - 1,
                )],
        decreases threshold - 2 - i,
    {
        let lo = bucket_bound(len, threshold, i);
        let ns = bucket_bound(len, threshold, i + 1);
        let ne_u = bucket_bound(len, threshold, i + 2);
        proof {
            lemma_bucket_start_range(len as int, threshold as int, i as int);
            lemma_bucket_start_range(len as int, threshold as int, i as int + 1);
            lemma_bucket_start_monotone(len as int, threshold as int, i as int + 1, i as int + 2);
        }
        let hi = if ns > len {
            len
        } else {
            ns
        };
        let ne = if ne_u > len {
            len
        } else {
            ne_u
        };
        let mut sts: i128 = 0;
        let mut sv: i128 = 0;
        let mut j: usize = ns;
        while j < ne
            invariant
                ns <= j <= ne,
                ne <= len,
                len == data@.len() <= MAX_LEN,
                data_bounded(data@),
                sts == sum_ts(data@, ns as int, j as int),
                sv == sum_val(data@, ns as int, j as int),
            decreases ne - j,
        {
            proof {
                lemma_sum_ts_val_bound(data@, ns as int, j as int);
                assert((j as int - ns as int) * MAX_TICK <= 10000000000000000000000)
                    by (nonlinear_arith)
                    requires
                        0 <= j as int - ns as int <= 100000000,
                        MAX_TICK == 100000000000000,
                ;
                assert(-10000000000000000000000 <= -((j as int - ns as int) * MAX_TICK))
                    by (nonlinear_arith)
                    requires
                        0 <= j as int - ns as int <= 100000000,
                        MAX_TICK == 100000000000000,
                ;
                assert(data_point_bounded(data@[j as int]));
            }
            sts = sts + data[j].ts as i128;
            sv = sv + data[j].value as i128;
            j = j + 1;
        }
        let bucket_len = ne - ns;
        let m: i128 = if bucket_len == 0 {
            1
        } else {
            bucket_len as i128
        };
        proof {
            lemma_sum_ts_val_bound(data@, ns as int, ne as int);
            assert((ne as int - ns as int) * MAX_TICK <= 10000000000000000000000)
                by (nonlinear_arith)
                requires
                    0 <= ne as int - ns as int <= 100000000,
                    MAX_TICK == 100000000000000,
            ;
            assert(-10000000000000000000000 <= -((ne as int - ns as int) * MAX_TICK))
                by (nonlinear_arith)
                requires
                    0 <= ne as int - ns as int <= 100000000,
                    MAX_TICK == 100000000000000,
            ;
        }
        let mut max_idx = lo;
        let mut max_area = area2m_exec(data, prev, lo, m, sts, sv);
        let mut j2 = lo + 1;
        while j2 < hi
            invariant
                lo + 1 <= j2,
                j2 <= hi || (hi <= lo + 1 && j2 == lo + 1),
                lo < len,
                hi <= len,
                prev < len,
                len == data@.len() <= MAX_LEN,
                data_bounded(data@),
                1 <= m <= MAX_LEN as i128,
                -10000000000000000000000 <= sts <= 10000000000000000000000,
                -10000000000000000000000 <= sv <= 10000000000000000000000,
                max_idx == lo || lo + 1 <= max_idx < hi,
                max_area == area2m(data@, prev as int, max_idx as int, m as int, sts as int, sv as int),
                best_from(
                    data@,
                    prev as int,
                    m as int,
                    sts as int,
                    sv as int,
                    j2 as int,
                    hi as int,
                    max_idx as int,
                ) == best_from(
                    data@,
                    prev as int,
                    m as int,
                    sts as int,
                    sv as int,
                    lo as int + 1,
                    hi as int,
                    lo as int,
                ),
            decreases hi as int - j2 as int,
        {
            let a = area2m_exec(data, prev, j2, m, sts, sv);
            if a > max_area {
                max_area = a;
                max_idx = j2;
            }
            j2 = j2 + 1;
        }
        proof {
            assert(best_from(
                data@,
                prev as int,
                m as int,
                sts as int,
                sv as int,
                j2 as int,
                hi as int,
                max_idx as int,
            ) == max_idx);
            assert(hi as int == min_i(bucket_start(len as int, threshold as int, i as int + 1),
                len as int));
            assert(ne as int == min_i(bucket_start(len as int, threshold as int, i as int + 2),
                len as int));
            assert(m as int == max_i(ne as int - ns as int, 1));
            assert(lttb_select(data@, threshold as int, i as int) == max_idx);
        }
        result.push(data[max_idx]);
        prev = max_idx;
        i = i + 1;
    }
    result.push(data[len - 1]);
    result
}

} // verus!
