use chartmath::PricePoint;
use chartmath::calc_ema_impl;
use chartmath::calc_rsi_impl;
use chartmath::calc_sma_impl;
use chartmath::calc_vwap_impl;
use chartmath::calc_vwap_with_reset;

const S: i64 = 1_000_000;

fn pp(ts: i64, open: i64, high: i64, low: i64, close: i64, volume: i64) -> PricePoint {
    PricePoint { ts, open, high, low, close, volume }
}

fn sample_prices() -> Vec<PricePoint> {
    vec![
        pp(1 * S, 10 * S, 12 * S, 9 * S, 11 * S, 100 * S),
        pp(2 * S, 11 * S, 13 * S, 10 * S, 12 * S, 150 * S),
        pp(3 * S, 12 * S, 14 * S, 11 * S, 13 * S, 200 * S),
        pp(4 * S, 13 * S, 15 * S, 12 * S, 14 * S, 120 * S),
        pp(5 * S, 14 * S, 16 * S, 13 * S, 15 * S, 180 * S),
        pp(6 * S, 15 * S, 17 * S, 14 * S, 14 * S, 160 * S),
        pp(7 * S, 14 * S, 15 * S, 12 * S, 13 * S, 140 * S),
        pp(8 * S, 13 * S, 14 * S, 11 * S, 12 * S, 130 * S),
        pp(9 * S, 12 * S, 13 * S, 10 * S, 11 * S, 110 * S),
        pp(10 * S, 11 * S, 12 * S, 9 * S, 10 * S, 100 * S),
    ]
}

// ---------------------------------------------------------------------------
// SMA
// ---------------------------------------------------------------------------

#[test]
fn sma_normal_case() {
    let data = sample_prices();
    let result = calc_sma_impl(&data, 3);
    // First value: avg of close[0..3] = (11+12+13)/3 = 12.0
    assert_eq!(result.len(), 8);
    assert_eq!(result[0].value, 12 * S);
    assert_eq!(result[0].ts, 3 * S);
    // Second value: avg of close[1..4] = (12+13+14)/3 = 13.0
    assert_eq!(result[1].value, 13 * S);
}

#[test]
fn sma_period_greater_than_data() {
    let data = sample_prices();
    let result = calc_sma_impl(&data, 100);
    assert!(result.is_empty());
}

#[test]
fn sma_period_of_1() {
    let data = sample_prices();
    let result = calc_sma_impl(&data, 1);
    assert_eq!(result.len(), data.len());
    for (i, point) in result.iter().enumerate() {
        assert_eq!(point.value, data[i].close);
    }
}

#[test]
fn sma_period_equals_data_len() {
    let data = sample_prices();
    let n = data.len();
    let result = calc_sma_impl(&data, n);
    assert_eq!(result.len(), 1);
    let expected: i64 = data.iter().map(|p| p.close).sum::<i64>() / n as i64;
    assert_eq!(result[0].value, expected);
}

#[test]
fn sma_period_zero() {
    let data = sample_prices();
    let result = calc_sma_impl(&data, 0);
    assert!(result.is_empty());
}

// ---------------------------------------------------------------------------
// EMA
// ---------------------------------------------------------------------------

#[test]
fn ema_normal_case() {
    let data = sample_prices();
    let result = calc_ema_impl(&data, 3);
    assert_eq!(result.len(), 8);
    // First EMA value must equal the SMA of the first 3 closes.
    let first_sma = (11 * S + 12 * S + 13 * S) / 3;
    assert_eq!(result[0].value, first_sma);
}

#[test]
fn ema_first_value_matches_sma() {
    let data = sample_prices();
    let period = 5;
    let ema_result = calc_ema_impl(&data, period);
    let sma_result = calc_sma_impl(&data, period);
    // The first EMA value should equal the first SMA value.
    assert_eq!(
        ema_result[0].value, sma_result[0].value,
        "First EMA ({}) should match first SMA ({})",
        ema_result[0].value, sma_result[0].value
    );
}

#[test]
fn ema_period_greater_than_data() {
    let data = sample_prices();
    let result = calc_ema_impl(&data, 100);
    assert!(result.is_empty());
}

#[test]
fn ema_multiplier_correctness() {
    let data = sample_prices();
    let period: i64 = 3;
    let result = calc_ema_impl(&data, period as usize);
    // Verify second EMA value manually: with multiplier 2 / (period + 1) the
    // recurrence close * k + prev * (1 - k) becomes this exact form.
    let first_ema = (11 * S + 12 * S + 13 * S) / 3; // 12.0
    let second_ema = (2 * data[3].close + (period - 1) * first_ema) / (period + 1); // 13.0
    assert_eq!(result[1].value, second_ema);
}

// ---------------------------------------------------------------------------
// RSI
// ---------------------------------------------------------------------------

#[test]
fn rsi_normal_case() {
    let data = sample_prices();
    let result = calc_rsi_impl(&data, 5, S);
    assert!(!result.is_empty());
    for point in &result {
        assert!(point.value >= 0 && point.value <= 100 * S);
    }
}

#[test]
fn rsi_all_gains() {
    // Monotonically increasing closes -> RSI = 100.
    let data: Vec<PricePoint> = (0..10)
        .map(|i| pp(i * S, 0, 0, 0, (10 + i) * S, 100 * S))
        .collect();
    let result = calc_rsi_impl(&data, 5, S);
    assert!(!result.is_empty());
    for point in &result {
        assert_eq!(point.value, 100 * S, "Expected RSI=100, got {}", point.value);
    }
}

#[test]
fn rsi_all_losses() {
    // Monotonically decreasing closes -> RSI = 0.
    let data: Vec<PricePoint> = (0..10)
        .map(|i| pp(i * S, 0, 0, 0, (100 - i) * S, 100 * S))
        .collect();
    let result = calc_rsi_impl(&data, 5, S);
    assert!(!result.is_empty());
    for point in &result {
        assert_eq!(point.value, 0, "Expected RSI=0, got {}", point.value);
    }
}

#[test]
fn rsi_insufficient_data() {
    let data = vec![pp(1 * S, 0, 0, 0, 10 * S, 100 * S)];
    let result = calc_rsi_impl(&data, 5, S);
    assert!(result.is_empty());
}

#[test]
fn rsi_flat_window_is_maximal() {
    // All-flat closes: both averages are zero and the zero-loss branch wins.
    let data: Vec<PricePoint> = (0..8).map(|i| pp(i * S, 0, 0, 0, 10 * S, 100 * S)).collect();
    let result = calc_rsi_impl(&data, 3, S);
    assert!(!result.is_empty());
    for point in &result {
        assert_eq!(point.value, 100 * S);
    }
}

// ---------------------------------------------------------------------------
// VWAP
// ---------------------------------------------------------------------------

#[test]
fn vwap_normal_case() {
    let data = sample_prices();
    let result = calc_vwap_impl(&data);
    assert_eq!(result.len(), data.len());
    // First VWAP value: typical = (12+9+11)/3 = 32/3 ~ 10.6667
    let tp0 = (12 * S + 9 * S + 11 * S) / 3;
    assert_eq!(result[0].value, tp0, "Expected ~{}, got {}", tp0, result[0].value);
}

#[test]
fn vwap_single_point() {
    let data = vec![pp(1 * S, 10 * S, 15 * S, 5 * S, 12 * S, 1000 * S)];
    let result = calc_vwap_impl(&data);
    assert_eq!(result.len(), 1);
    let expected_tp = (15 * S + 5 * S + 12 * S) / 3; // ~10.6667
    assert_eq!(result[0].value, expected_tp);
}

#[test]
fn vwap_empty() {
    let result = calc_vwap_impl(&Vec::new());
    assert!(result.is_empty());
}

#[test]
fn vwap_cumulative_behaviour() {
    let data = vec![
        pp(1 * S, 0, 30 * S, 10 * S, 20 * S, 100 * S),
        pp(2 * S, 0, 60 * S, 20 * S, 40 * S, 200 * S),
    ];
    let result = calc_vwap_impl(&data);
    // Point 1: tp = (30+10+20)/3 = 20, cum_tp_vol = 2000, cum_vol = 100, vwap = 20
    assert_eq!(result[0].value, 20 * S);
    // Point 2: tp = (60+20+40)/3 = 40, cum_tp_vol = 2000+8000 = 10000, cum_vol = 300
    let expected = 10_000 * S / 300;
    assert_eq!(result[1].value, expected);
}

#[test]
fn vwap_zero_volume_falls_back_to_typical_price() {
    let data = vec![pp(1, 0, 15 * S, 5 * S, 10 * S, 0)];
    let result = calc_vwap_impl(&data);
    assert_eq!(result.len(), 1);
    assert_eq!(result[0].value, (15 * S + 5 * S + 10 * S) / 3);
}

#[test]
fn vwap_gap_reset_starts_new_session() {
    // Third bar sits far past the gap threshold: with the reset enabled its
    // value restarts from its own typical price; without it the running
    // sums keep accumulating.
    let data = vec![
        pp(0, 0, 30 * S, 10 * S, 20 * S, 100 * S),
        pp(1 * S, 0, 30 * S, 10 * S, 20 * S, 100 * S),
        pp(100 * S, 0, 90 * S, 30 * S, 60 * S, 100 * S),
    ];
    let with_reset = calc_vwap_with_reset(&data, true, 10 * S);
    assert_eq!(with_reset.len(), 3);
    assert_eq!(with_reset[0].value, 20 * S);
    assert_eq!(with_reset[1].value, 20 * S);
    assert_eq!(with_reset[2].value, 60 * S);
    let without_reset = calc_vwap_with_reset(&data, false, 10 * S);
    // Cumulative: (2*20*100 + 60*100) / 300 = 10000/300 per unit volume
    assert_eq!(without_reset[2].value, (20 * S + 20 * S + 60 * S) / 3);
}

#[test]
fn vwap_reset_flag_off_matches_plain_vwap() {
    let data = sample_prices();
    let plain = calc_vwap_impl(&data);
    let flagged = calc_vwap_with_reset(&data, false, 4 * 3600 * S);
    assert_eq!(plain.len(), flagged.len());
    for i in 0..plain.len() {
        assert_eq!(plain[i].value, flagged[i].value);
        assert_eq!(plain[i].ts, flagged[i].ts);
    }
}

#[test]
fn indicator_points_are_timestamp_aligned() {
    let data = sample_prices();
    let sma = calc_sma_impl(&data, 4);
    for (i, point) in sma.iter().enumerate() {
        assert_eq!(point.ts, data[i + 3].ts);
    }
    let rsi = calc_rsi_impl(&data, 4, S);
    for (i, point) in rsi.iter().enumerate() {
        assert_eq!(point.ts, data[i + 4].ts);
    }
}
