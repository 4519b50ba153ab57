use chartmath::DataPoint;
use chartmath::lttb_downsample_impl;

const S: i64 = 1_000_000;

fn dp(ts: i64, value: i64) -> DataPoint {
    DataPoint { ts, value }
}

#[test]
fn lttb_empty_input() {
    let result = lttb_downsample_impl(&Vec::new(), 5);
    assert!(result.is_empty());
}

#[test]
fn lttb_data_smaller_than_threshold() {
    let data = vec![dp(1 * S, 10 * S), dp(2 * S, 20 * S)];
    let result = lttb_downsample_impl(&data, 5);
    assert_eq!(result.len(), 2);
    assert_eq!(result[0].ts, 1 * S);
    assert_eq!(result[1].ts, 2 * S);
}

#[test]
fn lttb_threshold_less_than_3() {
    let data = vec![dp(1 * S, 10 * S), dp(2 * S, 20 * S), dp(3 * S, 30 * S)];
    let result = lttb_downsample_impl(&data, 2);
    assert_eq!(result.len(), 3, "threshold < 3 should return data as-is");
}

#[test]
fn lttb_normal_downsample() {
    let data: Vec<DataPoint> = (0..100)
        .map(|i| dp(i * S, ((i as f64).sin() * S as f64) as i64))
        .collect();
    let result = lttb_downsample_impl(&data, 20);
    assert_eq!(result.len(), 20);
    // First and last points must be preserved.
    assert_eq!(result[0].ts, 0);
    assert_eq!(result[19].ts, 99 * S);
}

#[test]
fn lttb_threshold_of_3() {
    let data: Vec<DataPoint> = (0..10).map(|i| dp(i * S, i * i * S)).collect();
    let result = lttb_downsample_impl(&data, 3);
    assert_eq!(result.len(), 3);
    assert_eq!(result[0].ts, 0);
    assert_eq!(result[2].ts, 9 * S);
}

#[test]
fn lttb_data_equal_to_threshold() {
    let data: Vec<DataPoint> = (0..5).map(|i| dp(i * S, i * S)).collect();
    let result = lttb_downsample_impl(&data, 5);
    assert_eq!(result.len(), 5);
}

#[test]
fn lttb_selects_peak_point() {
    // One sharp spike among flat points: the spike forms the largest
    // triangle inside its bucket and must be the selected interior point.
    let data = vec![dp(0, 0), dp(1, 10), dp(2, 0), dp(3, 0), dp(4, 0)];
    let result = lttb_downsample_impl(&data, 3);
    assert_eq!(result.len(), 3);
    assert_eq!(result[0].ts, 0);
    assert_eq!(result[1].ts, 1);
    assert_eq!(result[1].value, 10);
    assert_eq!(result[2].ts, 4);
}

#[test]
fn lttb_pass_through_preserves_values() {
    let data = vec![dp(5, 7), dp(6, -3), dp(9, 4)];
    let result = lttb_downsample_impl(&data, 10);
    assert_eq!(result.len(), 3);
    for i in 0..3 {
        assert_eq!(result[i].ts, data[i].ts);
        assert_eq!(result[i].value, data[i].value);
    }
}
