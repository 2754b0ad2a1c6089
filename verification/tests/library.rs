use rusty_series::anomaly::{quartile_positions, split_indices, AnomalyKind};
use rusty_series::arima::evaluation_range;
use rusty_series::changepoint::{order_by_key, pelt_segments, prune_candidates};
use rusty_series::decomposition::{moving_average_windows, season_counts};
use rusty_series::series::median_positions;
use rusty_series::smoothing::forecast_season_positions;
use rusty_series::telemetry::{matching_indices, MetricKind, TrendDirection};

#[test]
fn windows_width_three() {
    let w = moving_average_windows(5, 3);
    assert_eq!(w, vec![None, Some((0, 3)), Some((1, 4)), Some((2, 5)), None]);
    // the documented example: the window at position 2 of [1, 2, 3, 4, 5] averages to 3
    let (s, e) = w[2].unwrap();
    let v = [1.0, 2.0, 3.0, 4.0, 5.0];
    assert!((v[s..e].iter().sum::<f64>() / (e - s) as f64 - 3.0).abs() < 1e-10);
}

#[test]
fn windows_even_width_spans_w_values() {
    // width 4: half = 2, each window holds 4 values, two before the position
    let w = moving_average_windows(6, 4);
    assert_eq!(w, vec![None, None, Some((0, 4)), Some((1, 5)), None, None]);
}

#[test]
fn windows_every_defined_window_spans_w() {
    for w in 1..7usize {
        for (i, win) in moving_average_windows(9, w).into_iter().enumerate() {
            if let Some((s, e)) = win {
                assert_eq!(e - s, w);
                assert!(s <= i && i < e && e <= 9);
            }
        }
    }
}

#[test]
fn windows_empty_cases() {
    assert!(moving_average_windows(0, 3).is_empty());
    assert!(moving_average_windows(5, 0).is_empty());
}

#[test]
fn windows_width_one_covers_every_point() {
    let w = moving_average_windows(3, 1);
    assert_eq!(w, vec![Some((0, 1)), Some((1, 2)), Some((2, 3))]);
}

#[test]
fn windows_too_wide() {
    let w = moving_average_windows(3, 8);
    assert_eq!(w, vec![None, None, None]);
}

#[test]
fn season_counts_by_position() {
    let defined = vec![false, true, true, true, true, true, false];
    let counts = season_counts(&defined, 3);
    assert_eq!(counts, vec![1, 2, 2]);
    let total: usize = counts.iter().sum();
    assert_eq!(total, defined.iter().filter(|b| **b).count());
}

#[test]
fn season_counts_empty_series() {
    assert_eq!(season_counts(&vec![], 4), vec![0, 0, 0, 0]);
}

#[test]
fn pelt_segments_follow_chain() {
    // prefix 9 starts its last segment at 6, 6 at 3, 3 at 0
    let last_cp = vec![0, 0, 0, 0, 1, 2, 3, 3, 3, 6];
    let segs = pelt_segments(&last_cp, 9);
    assert_eq!(segs, vec![(3, 6), (6, 9)]);
}

#[test]
fn pelt_segments_none() {
    let last_cp = vec![0, 0, 0, 0];
    assert!(pelt_segments(&last_cp, 3).is_empty());
}

#[test]
fn prune_keeps_flagged_then_appends() {
    let cands = vec![0, 2, 5, 7];
    let keep = vec![true, false, true, false];
    assert_eq!(prune_candidates(&cands, &keep, 8), vec![0, 5, 8]);
}

#[test]
fn prune_drops_all() {
    assert_eq!(prune_candidates(&vec![1, 2], &vec![false, false], 3), vec![3]);
}

#[test]
fn order_by_key_is_stable() {
    let keys = vec![40, 10, 30, 10, 20];
    assert_eq!(order_by_key(&keys), vec![1, 3, 4, 2, 0]);
}

#[test]
fn order_by_key_empty_and_sorted() {
    assert!(order_by_key(&vec![]).is_empty());
    assert_eq!(order_by_key(&vec![1, 2, 3]), vec![0, 1, 2]);
    assert_eq!(order_by_key(&vec![3, 2, 1]), vec![2, 1, 0]);
}

#[test]
fn quartiles_of_hundred_and_one() {
    assert_eq!(quartile_positions(101), (25, 75));
    assert_eq!(quartile_positions(1), (0, 0));
    assert_eq!(quartile_positions(4), (1, 3));
}

#[test]
fn split_keeps_order() {
    let goes_left = vec![true, false, true, false, true];
    let goes_right: Vec<bool> = goes_left.iter().map(|b| !b).collect();
    let (l, r) = split_indices(&vec![4, 3, 0, 1], &goes_left, &goes_right);
    assert_eq!(l, vec![4, 0]);
    assert_eq!(r, vec![3, 1]);
}

#[test]
fn split_drops_values_that_compare_neither_way() {
    let values = [1.0, f64::NAN, 3.0, 0.5];
    let split = 2.0;
    let goes_left: Vec<bool> = values.iter().map(|v| *v < split).collect();
    let goes_right: Vec<bool> = values.iter().map(|v| *v >= split).collect();
    let (l, r) = split_indices(&vec![0, 1, 2, 3], &goes_left, &goes_right);
    assert_eq!(l, vec![0, 3]);
    assert_eq!(r, vec![2]);
}

#[test]
fn median_positions_odd_even() {
    assert_eq!(median_positions(3), (1, 1));
    assert_eq!(median_positions(4), (1, 2));
    assert_eq!(median_positions(1), (0, 0));
}

#[test]
fn evaluation_range_cases() {
    assert_eq!(evaluation_range(50, 50, 2, 0), Some((2, 50)));
    assert_eq!(evaluation_range(10, 20, 1, 3), Some((3, 10)));
    assert_eq!(evaluation_range(0, 5, 0, 0), None);
    assert_eq!(evaluation_range(3, 3, 3, 1), None);
}

#[test]
fn forecast_positions_with_period() {
    // 48 seasonal factors, period 4, 8 steps: cycles through 44..48
    let pos = forecast_season_positions(48, 8, Some(4));
    assert_eq!(
        pos,
        vec![Some(44), Some(45), Some(46), Some(47), Some(44), Some(45), Some(46), Some(47)]
    );
}

#[test]
fn forecast_positions_short_seasonal() {
    // fewer factors than the period: only offsets below the length exist
    let pos = forecast_season_positions(2, 4, Some(3));
    assert_eq!(pos, vec![Some(0), Some(1), None, Some(0)]);
}

#[test]
fn forecast_positions_without_season() {
    assert_eq!(forecast_season_positions(10, 3, None), vec![None, None, None]);
    assert_eq!(forecast_season_positions(0, 2, Some(4)), vec![None, None]);
    assert_eq!(forecast_season_positions(0, 2, Some(0)), vec![None, None]);
}

#[test]
fn matching_events() {
    let metrics = vec![
        MetricKind::ResponseTime,
        MetricKind::ResponseTime,
        MetricKind::ErrorRate,
        MetricKind::Custom("disk".to_string()),
        MetricKind::Custom("net".to_string()),
    ];
    assert_eq!(matching_indices(&metrics, &MetricKind::ResponseTime), vec![0, 1]);
    assert_eq!(matching_indices(&metrics, &MetricKind::Custom("net".to_string())), vec![4]);
    assert!(matching_indices(&metrics, &MetricKind::CpuUsage).is_empty());
}

#[test]
fn metric_equality() {
    assert!(MetricKind::Custom("a".to_string()) == MetricKind::Custom("a".to_string()));
    assert!(MetricKind::Custom("a".to_string()) != MetricKind::Custom("b".to_string()));
    assert!(MetricKind::MemoryUsage != MetricKind::RequestCount);
}

#[test]
fn enum_equality() {
    assert_eq!(TrendDirection::Up, TrendDirection::Up);
    assert_ne!(TrendDirection::Up, TrendDirection::Flat);
    assert_ne!(AnomalyKind::ZScore, AnomalyKind::IQR);
    assert_eq!(AnomalyKind::IsolationForest, AnomalyKind::IsolationForest);
}

#[test]
fn forecast_positions_repeat_with_period() {
    let pos = forecast_season_positions(10, 12, Some(3));
    for k in 0..9 {
        assert_eq!(pos[k], pos[k + 3]);
        assert!(matches!(pos[k], Some(x) if x >= 7 && x < 10));
    }
}

#[test]
fn split_sizes_add_up() {
    let goes_left = vec![false, true, true, false, false, true];
    let goes_right: Vec<bool> = goes_left.iter().map(|b| !b).collect();
    let indices = vec![5, 0, 2, 3, 1];
    let (l, r) = split_indices(&indices, &goes_left, &goes_right);
    assert_eq!(l.len() + r.len(), indices.len());
    assert!(l.iter().all(|&i| goes_left[i]));
    assert!(r.iter().all(|&i| !goes_left[i]));
}

#[test]
fn pelt_segments_tile_to_end() {
    let last_cp = vec![0, 0, 1, 1, 3, 3, 5];
    let segs = pelt_segments(&last_cp, 6);
    assert_eq!(segs, vec![(1, 3), (3, 5), (5, 6)]);
    for w in segs.windows(2) {
        assert_eq!(w[0].1, w[1].0);
    }
}
