use metric_alert_service::metric::query::{QueryAggregation, QueryParams, Window};
use metric_alert_service::metric::Metric;

fn query(aggregation: QueryAggregation, window_secs: f32) -> QueryParams {
    QueryParams {
        metric_id: "m".to_string(),
        date_range: None,
        aggregation,
        window_secs: window_secs.to_bits(),
    }
}

fn samples(points: &[(i64, f32)]) -> Vec<Metric> {
    points
        .iter()
        .map(|(at, value)| {
            let mut m = Metric::new("m".to_string(), value.to_bits());
            m.timestamp = Some(*at);
            m
        })
        .collect()
}

fn values(metrics: &[Metric], window: &Window) -> Vec<f32> {
    metrics[window.start..window.end].iter().map(|m| f32::from_bits(m.value)).collect()
}

fn averages(metrics: &[Metric], windows: &[Window]) -> Vec<f32> {
    windows
        .iter()
        .map(|w| {
            let v = values(metrics, w);
            v.iter().sum::<f32>() / v.len() as f32
        })
        .collect()
}

fn w(start: usize, end: usize) -> Window {
    Window { start, end }
}

#[test]
fn whole_range_average_of_three_values() {
    let metrics = samples(&[(1, 2.0), (2, 4.0), (3, 6.0)]);
    let found = query(QueryAggregation::Avg, 0.0).process_metrics(&metrics);
    assert_eq!(found, vec![w(0, 3)]);
    assert_eq!(averages(&metrics, &found), vec![4.0]);
}

#[test]
fn whole_range_over_nothing_yields_no_value() {
    let nothing: Vec<Metric> = Vec::new();
    assert_eq!(query(QueryAggregation::Avg, 0.0).process_metrics(&nothing), vec![]);
    assert_eq!(query(QueryAggregation::Min, 0.0).process_metrics(&nothing), vec![]);
    assert_eq!(query(QueryAggregation::Max, 0.0).process_metrics(&nothing), vec![]);
}

#[test]
fn whole_range_count_over_nothing_yields_zero() {
    let nothing: Vec<Metric> = Vec::new();
    let found = query(QueryAggregation::Count, 0.0).process_metrics(&nothing);
    assert_eq!(found, vec![w(0, 0)]);
    assert_eq!(found[0].end - found[0].start, 0);
}

#[test]
fn whole_range_does_not_need_timestamps() {
    let metrics = vec![Metric::new("m".to_string(), 0), Metric::new("m".to_string(), 1)];
    assert_eq!(query(QueryAggregation::Count, 0.0).process_metrics(&metrics), vec![w(0, 2)]);
    assert_eq!(query(QueryAggregation::Max, -0.0).process_metrics(&metrics), vec![w(0, 2)]);
}

#[test]
fn tumbling_windows_of_ten_seconds() {
    let t = 1_700_000_000;
    let metrics = samples(&[(t, 1.0), (t + 2, 2.0), (t + 15, 3.0), (t + 16, 4.0)]);
    let found = query(QueryAggregation::Avg, 10.0).process_metrics(&metrics);
    assert_eq!(found, vec![w(0, 2), w(2, 4)]);
    assert_eq!(values(&metrics, &found[0]), vec![1.0, 2.0]);
    assert_eq!(values(&metrics, &found[1]), vec![3.0, 4.0]);
    assert_eq!(averages(&metrics, &found), vec![1.5, 3.5]);
    let counted = query(QueryAggregation::Count, 10.0).process_metrics(&metrics);
    assert_eq!(counted.iter().map(|w| w.end - w.start).collect::<Vec<_>>(), vec![2, 2]);
}

#[test]
fn tumbling_window_opens_at_its_first_sample() {
    // windows are not aligned to multiples of the window length
    let metrics = samples(&[(7, 1.0), (17, 2.0), (18, 3.0), (28, 4.0), (29, 5.0)]);
    let found = query(QueryAggregation::Min, 10.0).process_metrics(&metrics);
    assert_eq!(found, vec![w(0, 2), w(2, 4), w(4, 5)]);
}

#[test]
fn tumbling_window_closes_only_after_more_than_its_length() {
    let metrics = samples(&[(0, 1.0), (10, 2.0), (11, 3.0)]);
    let found = query(QueryAggregation::Max, 10.0).process_metrics(&metrics);
    assert_eq!(found, vec![w(0, 2), w(2, 3)]);
}

#[test]
fn tumbling_over_nothing_yields_no_window() {
    let nothing: Vec<Metric> = Vec::new();
    for aggregation in [
        QueryAggregation::Avg,
        QueryAggregation::Min,
        QueryAggregation::Max,
        QueryAggregation::Count,
    ] {
        assert_eq!(query(aggregation, 10.0).process_metrics(&nothing), vec![]);
    }
}

#[test]
fn tumbling_over_one_sample_yields_one_window() {
    let metrics = samples(&[(5, 9.0)]);
    assert_eq!(query(QueryAggregation::Avg, 3.0).process_metrics(&metrics), vec![w(0, 1)]);
}

#[test]
fn window_length_counts_in_whole_seconds() {
    // a length below one second leaves only samples of one instant together
    let metrics = samples(&[(1, 1.0), (1, 2.0), (2, 3.0), (2, 4.0), (4, 5.0)]);
    let found = query(QueryAggregation::Avg, 0.5).process_metrics(&metrics);
    assert_eq!(found, vec![w(0, 2), w(2, 4), w(4, 5)]);
    // two and a half seconds count as two
    let found = query(QueryAggregation::Avg, 2.5).process_metrics(&metrics);
    assert_eq!(found, vec![w(0, 4), w(4, 5)]);
}

#[test]
fn samples_out_of_order_stay_in_the_open_window() {
    let metrics = samples(&[(100, 1.0), (50, 2.0), (105, 3.0), (111, 4.0)]);
    let found = query(QueryAggregation::Avg, 10.0).process_metrics(&metrics);
    assert_eq!(found, vec![w(0, 3), w(3, 4)]);
}

#[test]
fn tumbling_at_the_ends_of_time() {
    let metrics = samples(&[(i64::MIN, 1.0), (i64::MIN + 1, 2.0), (i64::MAX, 3.0)]);
    let found = query(QueryAggregation::Avg, 1.0).process_metrics(&metrics);
    assert_eq!(found, vec![w(0, 2), w(2, 3)]);
    // an endless window is one of as many seconds as there are instants
    let found = query(QueryAggregation::Avg, f32::INFINITY).process_metrics(&metrics);
    assert_eq!(found, vec![w(0, 2), w(2, 3)]);
    let metrics = samples(&[(0, 1.0), (1, 2.0), (i64::MAX, 3.0)]);
    let found = query(QueryAggregation::Avg, f32::INFINITY).process_metrics(&metrics);
    assert_eq!(found, vec![w(0, 3)]);
}

#[test]
fn windows_divide_the_samples() {
    let mut state: u64 = 42;
    for round in 0..50 {
        let mut at = 1_000i64;
        let mut points = Vec::new();
        for _ in 0..(round % 17) {
            state = state.wrapping_mul(6_364_136_223_846_793_005).wrapping_add(1_442_695_040_888_963_407);
            at += ((state >> 33) % 9) as i64;
            points.push((at, 1.0f32));
        }
        let metrics = samples(&points);
        let span = 4;
        let found = query(QueryAggregation::Count, span as f32).process_metrics(&metrics);
        assert_eq!(found.is_empty(), metrics.is_empty());
        if let (Some(first), Some(last)) = (found.first(), found.last()) {
            assert_eq!(first.start, 0);
            assert_eq!(last.end, metrics.len());
        }
        for (k, window) in found.iter().enumerate() {
            assert!(window.start < window.end);
            let opened = points[window.start].0;
            for j in window.start..window.end {
                assert!(points[j].0 - span <= opened);
            }
            if k + 1 < found.len() {
                assert_eq!(window.end, found[k + 1].start);
                assert!(points[window.end].0 - span > opened);
            }
        }
    }
}
