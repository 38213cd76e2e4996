use gfm_store::{FrameTiming, Histogram, LatencyMetric, Telemetry};
use gfm_store::Duration;

#[test]
fn records_all_required_latency_metrics() {
    let mut telemetry = Telemetry::default();
    for (index, metric) in LatencyMetric::ALL.into_iter().enumerate() {
        telemetry.observe_latency(metric, Duration::from_millis((index + 1) as u64));
    }

    for metric in LatencyMetric::ALL {
        assert_eq!(telemetry.latency(metric).count, 1, "{}", metric.as_str());
    }
}

#[test]
fn histogram_reports_bounded_percentiles_without_raw_samples() {
    let mut histogram = Histogram::new(&[
        Duration::from_millis(1),
        Duration::from_millis(10),
        Duration::from_millis(100),
    ]);
    histogram.observe(Duration::from_micros(500));
    histogram.observe(Duration::from_millis(2));
    histogram.observe(Duration::from_millis(90));
    histogram.observe(Duration::from_millis(250));

    let summary = histogram.summary();

    assert_eq!(summary.count, 4);
    assert_eq!(summary.min, Some(Duration::from_micros(500)));
    assert_eq!(summary.max, Some(Duration::from_millis(250)));
    assert_eq!(summary.p50, Some(Duration::from_millis(10)));
    assert_eq!(summary.p95, Some(Duration::from_millis(250)));
    assert_eq!(summary.overflow, 1);
}

#[test]
fn frame_timing_detects_ui_thread_stalls() {
    let mut frames = FrameTiming::with_stall_threshold(Duration::from_millis(16));

    assert_eq!(frames.observe(Duration::from_millis(12)), None);
    let stall = frames.observe(Duration::from_millis(45)).unwrap();
    frames.observe(Duration::from_millis(17)).unwrap();

    let summary = frames.summary();
    assert_eq!(stall.frame_index, 2);
    assert_eq!(summary.histogram.count, 3);
    assert_eq!(summary.stall_count, 2);
    assert_eq!(summary.worst_stall, Some(Duration::from_millis(45)));
}

#[test]
fn telemetry_tracks_counters_and_timed_operations() {
    let mut telemetry = Telemetry::default();
    let value = telemetry.time_latency(LatencyMetric::SearchKeystroke, || 42);
    telemetry.increment("searches");

    assert_eq!(value, 42);
    assert_eq!(telemetry.counter("searches"), 1);
    assert_eq!(telemetry.latency(LatencyMetric::SearchKeystroke).count, 1);
}

#[test]
fn percentiles_do_not_go_down() {
    let mut histogram = Histogram::new(&[Duration::from_millis(1), Duration::from_millis(10)]);
    for ms in [0u64, 5, 5, 7, 40, 90] {
        histogram.observe(Duration::from_millis(ms));
    }
    let mut last = histogram.percentile(0).unwrap();
    for p in 1..=120u8 {
        let next = histogram.percentile(p).unwrap();
        assert!(last <= next, "percentile {p}");
        last = next;
    }
    assert_eq!(histogram.percentile(100), Some(Duration::from_millis(90)));
    assert_eq!(Histogram::new(&[Duration::from_millis(1)]).percentile(50), None);
}
