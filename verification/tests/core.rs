use symmetri::aggregate::{
    aggregate_samples_by_timestamp, average_rates, estimate_runtime_millihours,
};
use symmetri::collector::{
    normalize_battery, process_tick, tick_exit_code, RawReading, SensorError,
};
use symmetri::sample::BatterySample;
use symmetri::store::{SampleStore, StorageError};
use symmetri::timeframe::{
    bucket_start, bucket_start_local, build_timeframe, Timeframe, TimeframeError,
};

fn battery(ts: i64, pct: Option<u64>, status: Option<&str>, power_mw: Option<i64>) -> BatterySample {
    BatterySample {
        ts,
        percentage: pct,
        status: status.map(|s| s.to_string()),
        power_mw,
    }
}

#[test]
fn aggregate_merges_rows_sharing_one_timestamp() {
    let rows = vec![
        battery(100, Some(8000), Some("discharging"), Some(-4000)),
        battery(100, Some(7900), Some("full"), Some(-1000)),
        battery(100, Some(7800), None, None),
    ];
    let merged = aggregate_samples_by_timestamp(&rows);
    assert_eq!(merged.len(), 1);
    assert_eq!(merged[0].ts, 100);
    assert_eq!(merged[0].percentage, Some(7900));
    assert_eq!(merged[0].power_mw, Some(-5000));
    assert_eq!(merged[0].status.as_deref(), Some("full"));
}

#[test]
fn aggregate_keeps_one_row_per_distinct_timestamp() {
    let rows = vec![
        battery(1, Some(9000), None, Some(-2000)),
        battery(1, Some(8000), None, Some(-2000)),
        battery(2, Some(7000), None, Some(1000)),
        battery(3, None, Some("charging"), None),
    ];
    let merged = aggregate_samples_by_timestamp(&rows);
    assert_eq!(merged.len(), 3);
    assert_eq!(merged[0].ts, 1);
    assert_eq!(merged[1].ts, 2);
    assert_eq!(merged[2].ts, 3);
    assert_eq!(merged[0].percentage, Some(8500));
    assert_eq!(merged[1].percentage, Some(7000));
    assert_eq!(merged[2].percentage, None);
    assert_eq!(merged[2].status.as_deref(), Some("charging"));
}

#[test]
fn aggregate_status_ignores_unknown_unless_alone() {
    let rows = vec![
        battery(5, None, Some("unknown"), None),
        battery(5, None, Some("charging"), None),
    ];
    let merged = aggregate_samples_by_timestamp(&rows);
    assert_eq!(merged[0].status.as_deref(), Some("charging"));

    let rows = vec![
        battery(6, None, Some("unknown"), None),
        battery(6, None, Some("unknown"), None),
    ];
    let merged = aggregate_samples_by_timestamp(&rows);
    assert_eq!(merged[0].status.as_deref(), Some("unknown"));
}

#[test]
fn average_rates_with_only_charging_has_no_discharge() {
    let rows = vec![
        battery(1, None, None, Some(2000)),
        battery(2, None, None, Some(4000)),
        battery(3, None, None, None),
    ];
    let rates = average_rates(&rows);
    assert_eq!(rates.discharge_mw, None);
    assert_eq!(rates.charge_mw, Some(3000));
}

#[test]
fn average_rates_partitions_by_sign() {
    let rows = vec![
        battery(1, None, None, Some(-6000)),
        battery(2, None, None, Some(-4000)),
        battery(3, None, None, Some(3000)),
    ];
    let rates = average_rates(&rows);
    assert_eq!(rates.discharge_mw, Some(5000));
    assert_eq!(rates.charge_mw, Some(3000));
}

#[test]
fn timeframe_precedence_prefers_months() {
    let tf = build_timeframe(6, 2, 1, false).unwrap();
    assert_eq!(tf.window_seconds, Some(30 * 86400));
    assert_eq!(tf.label, "1_months");
}

#[test]
fn timeframe_precedence_days_over_hours() {
    let tf = build_timeframe(6, 2, 0, false).unwrap();
    assert_eq!(tf.window_seconds, Some(2 * 86400));
    assert_eq!(tf.label, "2_days");
    let tf = build_timeframe(6, 0, 0, false).unwrap();
    assert_eq!(tf.window_seconds, Some(6 * 3600));
    assert_eq!(tf.label, "6_hours");
}

#[test]
fn all_time_window_has_no_lower_bound() {
    let tf = build_timeframe(6, 2, 1, true).unwrap();
    assert_eq!(tf.window_seconds, None);
    assert_eq!(tf.label, "all_time");
    assert_eq!(tf.since_timestamp(Some(123456789)), None);
    assert_eq!(tf.since_timestamp(None), None);
}

#[test]
fn since_timestamp_subtracts_window() {
    let tf = build_timeframe(1, 0, 0, false).unwrap();
    assert_eq!(tf.since_timestamp(Some(10000)), Some(6400));
    let now_based = tf.since_timestamp(None).unwrap();
    assert!(now_based > 1_600_000_000, "clock reading looks wrong: {now_based}");
}

#[test]
fn timeframe_errors() {
    assert_eq!(build_timeframe(0, 0, 0, false), Err(TimeframeError::EmptyWindow));
    assert_eq!(build_timeframe(-3, -1, 0, false), Err(TimeframeError::EmptyWindow));
    assert_eq!(
        build_timeframe(0, 0, i64::MAX, false),
        Err(TimeframeError::WindowTooLarge)
    );
}

fn tf(window: i64) -> Timeframe {
    Timeframe {
        label: "test".to_string(),
        window_seconds: Some(window),
    }
}

#[test]
fn bucket_span_tiers() {
    // With ample history the tier is decided by the window alone.
    let history: i64 = 1_000_000_000_000;
    assert_eq!(tf(3600).bucket_span_seconds(history), 300);
    assert_eq!(tf(86400).bucket_span_seconds(history), 300);
    assert_eq!(tf(86401).bucket_span_seconds(history), 3600);
    assert_eq!(tf(7 * 86400).bucket_span_seconds(history), 3600);
    assert_eq!(tf(7 * 86400 + 1).bucket_span_seconds(history), 86400);
    assert_eq!(tf(60 * 86400).bucket_span_seconds(history), 86400);
    assert_eq!(tf(61 * 86400).bucket_span_seconds(history), 2 * 86400);
}

#[test]
fn bucket_span_all_time_follows_the_history() {
    let all = Timeframe {
        label: "all_time".to_string(),
        window_seconds: None,
    };
    assert_eq!(all.bucket_span_seconds(600), 300);
    assert_eq!(all.bucket_span_seconds(100 * 86400), 3 * 86400);
    // A window wider than the history buckets exactly as the history does,
    // so the all-time window is never finer than a narrower request.
    assert_eq!(tf(330 * 86400).bucket_span_seconds(100 * 86400), 3 * 86400);
}

#[test]
fn bucket_span_never_finer_for_longer_windows() {
    let history: i64 = 1_000_000_000;
    let windows = [
        1, 3600, 86400, 86401, 604800, 604801, 5184000, 5184001, 10000000, 100000000, 1000000000,
    ];
    let mut prev = 0;
    for w in windows {
        let span = tf(w).bucket_span_seconds(history);
        assert!(span >= prev, "window {w} got finer bucket {span} than {prev}");
        prev = span;
    }
    // The all-time window counts as the widest and is never finer.
    let all = Timeframe {
        label: "all_time".to_string(),
        window_seconds: None,
    };
    assert!(all.bucket_span_seconds(history) >= prev);
}

#[test]
fn history_extent_spans_both_tables() {
    let mut store = SampleStore::new();
    assert_eq!(store.history_extent_seconds(), 0);
    store.insert_battery(battery(100, Some(1), None, None)).unwrap();
    store.insert_battery(battery(400, Some(2), None, None)).unwrap();
    assert_eq!(store.history_extent_seconds(), 300);
    let m = symmetri::sample::MetricSample {
        ts: 50,
        kind: symmetri::sample::MetricKind::CpuUsage,
        source: "cpu".to_string(),
        value_milli: None,
        unit: None,
        details: vec![],
    };
    store.insert_metric(m).unwrap();
    assert_eq!(store.history_extent_seconds(), 350);
}

#[test]
fn bucket_start_floors_in_local_time() {
    assert_eq!(bucket_start(1000, 300, 0), 900);
    assert_eq!(bucket_start(1000, 300, 60), 840);
    assert_eq!(bucket_start(-100, 300, 0), -300);
    let ts = 1_700_000_123;
    let r = bucket_start_local(ts, 300);
    assert!(r <= ts && ts - r < 300);
}

#[test]
fn store_roundtrip_single_sample() {
    let mut store = SampleStore::new();
    let s = battery(42, Some(5550), Some("charging"), Some(1234));
    store.insert_battery(s).unwrap();
    let rows = store.fetch_battery(None);
    assert_eq!(rows.len(), 1);
    assert_eq!(rows[0].ts, 42);
    assert_eq!(rows[0].percentage, Some(5550));
    assert_eq!(rows[0].status.as_deref(), Some("charging"));
    assert_eq!(rows[0].power_mw, Some(1234));
}

#[test]
fn store_orders_and_filters_by_timestamp() {
    let mut store = SampleStore::new();
    store.insert_battery(battery(30, Some(1), None, None)).unwrap();
    store.insert_battery(battery(10, Some(2), None, None)).unwrap();
    store.insert_battery(battery(20, Some(3), None, None)).unwrap();
    let rows = store.fetch_battery(None);
    assert_eq!(rows.iter().map(|r| r.ts).collect::<Vec<_>>(), vec![10, 20, 30]);
    let rows = store.fetch_battery(Some(15));
    assert_eq!(rows.iter().map(|r| r.ts).collect::<Vec<_>>(), vec![20, 30]);
    assert_eq!(store.count_battery(None), 3);
    assert_eq!(store.count_battery(Some(15)), 2);
    assert_eq!(store.count_battery(Some(31)), 0);
}

#[test]
fn store_rejects_out_of_range_sample() {
    let mut store = SampleStore::new();
    let bad = battery(1, Some(20000), None, None);
    assert_eq!(store.insert_battery(bad), Err(StorageError::InvalidSample));
    assert_eq!(store.count_battery(None), 0);
}

#[test]
fn metric_fetch_caps_to_most_recent() {
    let mut store = SampleStore::new();
    for ts in [100, 200, 300] {
        let m = symmetri::sample::MetricSample {
            ts,
            kind: symmetri::sample::MetricKind::CpuUsage,
            source: "cpu".to_string(),
            value_milli: Some(ts * 10),
            unit: Some("%".to_string()),
            details: vec![],
        };
        store.insert_metric(m).unwrap();
    }
    let rows = store.fetch_metric(None, Some(2));
    assert_eq!(rows.iter().map(|r| r.ts).collect::<Vec<_>>(), vec![200, 300]);
    let rows = store.fetch_metric(None, None);
    assert_eq!(rows.len(), 3);
    let rows = store.fetch_metric(Some(250), None);
    assert_eq!(rows.iter().map(|r| r.ts).collect::<Vec<_>>(), vec![300]);
}

#[test]
fn end_to_end_discharge_report() {
    let mut store = SampleStore::new();
    store
        .insert_battery(battery(0, Some(8000), Some("discharging"), Some(-5000)))
        .unwrap();
    store
        .insert_battery(battery(300, Some(7900), Some("discharging"), Some(-5000)))
        .unwrap();
    store
        .insert_battery(battery(600, Some(7800), Some("discharging"), Some(-5000)))
        .unwrap();

    let tf = build_timeframe(6, 0, 0, true).unwrap();
    let since = tf.since_timestamp(Some(600));
    assert_eq!(since, None);

    let raw = store.fetch_battery(since);
    assert_eq!(raw.len(), 3);
    let merged = aggregate_samples_by_timestamp(&raw);
    assert_eq!(merged.len(), 3);
    let rates = average_rates(&merged);
    assert_eq!(rates.discharge_mw, Some(5000));
    assert_eq!(rates.charge_mw, None);

    let est = estimate_runtime_millihours(rates.discharge_mw, merged.last().unwrap());
    assert_eq!(est, Some(15600));
    assert!(est.unwrap() > 0);
}

#[test]
fn empty_store_reports_no_data() {
    let store = SampleStore::new();
    let battery_total = store.count_battery(None);
    let metric_total = store.count_metric(None);
    let status = symmetri::report::report_status(battery_total, metric_total, 0, 0);
    assert_eq!(status, symmetri::report::ReportStatus::NoRecords);
    let status = symmetri::report::report_status(3, 0, 0, 0);
    assert_eq!(status, symmetri::report::ReportStatus::EmptyWindow);
    let status = symmetri::report::report_status(3, 0, 1, 0);
    assert_eq!(status, symmetri::report::ReportStatus::Ready);
}

#[test]
fn runtime_estimate_needs_discharge_and_percentage() {
    let latest = battery(0, Some(7800), None, None);
    assert_eq!(estimate_runtime_millihours(None, &latest), None);
    assert_eq!(estimate_runtime_millihours(Some(0), &latest), None);
    assert_eq!(estimate_runtime_millihours(Some(-100), &latest), None);
    let blank = battery(0, None, None, None);
    assert_eq!(estimate_runtime_millihours(Some(5000), &blank), None);
    assert_eq!(estimate_runtime_millihours(Some(5000), &latest), Some(15600));
}

#[test]
fn normalization_clamps_and_converts() {
    let s = normalize_battery(10, Some(15000), Some("charging".to_string()), Some(-5_250_000));
    assert_eq!(s.percentage, Some(10000));
    assert_eq!(s.power_mw, Some(-5250));
    assert_eq!(s.status.as_deref(), Some("charging"));
    let s = normalize_battery(10, Some(4321), None, Some(7_999_999));
    assert_eq!(s.percentage, Some(4321));
    assert_eq!(s.power_mw, Some(7999));
}

#[test]
fn tick_isolates_failed_sensors() {
    let mut store = SampleStore::new();
    let readings: Vec<Result<RawReading, SensorError>> = vec![
        Ok(RawReading::Battery {
            percentage_centi: Some(9000),
            status: Some("discharging".to_string()),
            power_microwatts: Some(-4_000_000),
        }),
        Err(SensorError {
            source: "thermal".to_string(),
            message: "probe missing".to_string(),
        }),
        Ok(RawReading::Metric {
            kind: symmetri::sample::MetricKind::CpuUsage,
            source: "cpu".to_string(),
            value_milli: Some(53_200),
            unit: Some("%".to_string()),
            details: vec![],
        }),
    ];
    let stored = process_tick(&mut store, 1000, readings);
    assert_eq!(stored, 2);
    assert_eq!(tick_exit_code(stored), 0);
    assert_eq!(store.count_battery(None), 1);
    assert_eq!(store.count_metric(None), 1);
    let stored_battery = store.fetch_battery(None);
    assert_eq!(stored_battery[0].ts, 1000);
    assert_eq!(stored_battery[0].percentage, Some(9000));
    assert_eq!(stored_battery[0].status.as_deref(), Some("discharging"));
    assert_eq!(stored_battery[0].power_mw, Some(-4000));
    let stored_metric = store.fetch_metric(None, None);
    assert_eq!(stored_metric[0].ts, 1000);
    assert_eq!(stored_metric[0].source, "cpu");
    assert_eq!(stored_metric[0].value_milli, Some(53_200));

    let mut empty_store = SampleStore::new();
    let all_failed: Vec<Result<RawReading, SensorError>> = vec![Err(SensorError {
        source: "battery".to_string(),
        message: "unreadable".to_string(),
    })];
    let stored = process_tick(&mut empty_store, 1000, all_failed);
    assert_eq!(stored, 0);
    assert_ne!(tick_exit_code(stored), 0);
}
