use symmetri::report::{
    format_bytes, format_metric_details, format_metric_value, format_opt_bytes, format_power,
    format_runtime, kind_label, latest_metrics,
};
use symmetri::sample::{MetricKind, MetricSample};
use symmetri::report::pct_stats;
use symmetri::strutil::{chars_eq, fixed_to_string, str_lex_le, u64_to_string};
use symmetri::timeframe::{bucket_label_style, BucketStyle};

fn metric(
    ts: i64,
    kind: MetricKind,
    source: &str,
    value_milli: Option<i64>,
    unit: Option<&str>,
    details: Vec<(&str, i64)>,
) -> MetricSample {
    MetricSample {
        ts,
        kind,
        source: source.to_string(),
        value_milli,
        unit: unit.map(|u| u.to_string()),
        details: details.into_iter().map(|(k, v)| (k.to_string(), v)).collect(),
    }
}

#[test]
fn decimal_rendering() {
    assert_eq!(u64_to_string(0), "0");
    assert_eq!(u64_to_string(7), "7");
    assert_eq!(u64_to_string(1234567890), "1234567890");
}

#[test]
fn fixed_point_rendering_rounds_half_up() {
    assert_eq!(fixed_to_string(5000, 2), "5.00");
    assert_eq!(fixed_to_string(5049, 1), "5.0");
    assert_eq!(fixed_to_string(5050, 1), "5.1");
    assert_eq!(fixed_to_string(-1234, 2), "-1.23");
    assert_eq!(fixed_to_string(999, 0), "1");
    assert_eq!(fixed_to_string(53200, 1), "53.2");
}

#[test]
fn string_order_and_equality() {
    assert!(str_lex_le("charging", "discharging"));
    assert!(!str_lex_le("full", "discharging"));
    assert!(str_lex_le("abc", "abcd"));
    assert!(!str_lex_le("abcd", "abc"));
    assert!(str_lex_le("same", "same"));
    assert!(chars_eq("unknown", "unknown"));
    assert!(!chars_eq("unknown", "unknow"));
}

#[test]
fn power_and_runtime_rendering() {
    assert_eq!(format_power(Some(5000)), "5.00W");
    assert_eq!(format_power(Some(-1250)), "-1.25W");
    assert_eq!(format_power(None), "--");
    assert_eq!(format_runtime(Some(15600)), "15.6h");
    assert_eq!(format_runtime(None), "--");
}

#[test]
fn byte_rendering_picks_binary_units() {
    assert_eq!(format_bytes(0), "0B");
    assert_eq!(format_bytes(512), "512B");
    assert_eq!(format_bytes(1536), "1.5KiB");
    assert_eq!(format_bytes(1048576), "1.0MiB");
    assert_eq!(format_bytes(-2048), "-2.0KiB");
    assert_eq!(format_bytes(1073741824), "1.0GiB");
    assert_eq!(format_bytes(1649267441664), "1.5TiB");
    assert_eq!(format_opt_bytes(None), "--");
}

#[test]
fn kind_labels() {
    assert_eq!(kind_label(&MetricKind::CpuUsage), "CPU usage");
    assert_eq!(kind_label(&MetricKind::CpuFrequency), "CPU freq");
    assert_eq!(kind_label(&MetricKind::GpuUsage), "GPU usage");
    assert_eq!(kind_label(&MetricKind::GpuFrequency), "GPU freq");
    assert_eq!(kind_label(&MetricKind::NetworkBytes), "Network");
    assert_eq!(kind_label(&MetricKind::MemoryUsage), "Memory");
    assert_eq!(kind_label(&MetricKind::DiskUsage), "Disk");
    assert_eq!(kind_label(&MetricKind::Temperature), "Temperature");
    assert_eq!(kind_label(&MetricKind::PowerDraw), "Power draw");
}

#[test]
fn metric_value_rendering_by_unit() {
    let m = metric(1, MetricKind::CpuUsage, "cpu", Some(53_200), Some("%"), vec![]);
    assert_eq!(format_metric_value(&m), "53.2%");
    let m = metric(1, MetricKind::CpuFrequency, "cpu0", Some(2_400_000), Some("MHz"), vec![]);
    assert_eq!(format_metric_value(&m), "2400MHz");
    let m = metric(1, MetricKind::PowerDraw, "pkg", Some(12_340), Some("W"), vec![]);
    assert_eq!(format_metric_value(&m), "12.34W");
    let m = metric(1, MetricKind::Temperature, "cpu", Some(45_500), Some("C"), vec![]);
    assert_eq!(format_metric_value(&m), "45.5C");
    let m = metric(1, MetricKind::DiskUsage, "/", Some(1_048_576_000), Some("bytes"), vec![]);
    assert_eq!(format_metric_value(&m), "1.0MiB");
    let m = metric(1, MetricKind::CpuUsage, "cpu", Some(1_500), Some("rpm"), vec![]);
    assert_eq!(format_metric_value(&m), "1.50rpm");
    let m = metric(1, MetricKind::CpuUsage, "cpu", Some(1_500), None, vec![]);
    assert_eq!(format_metric_value(&m), "1.50");
    let m = metric(1, MetricKind::CpuUsage, "cpu", None, Some("%"), vec![]);
    assert_eq!(format_metric_value(&m), "--");
}

#[test]
fn metric_details_rendering_by_kind() {
    let m = metric(
        1,
        MetricKind::NetworkBytes,
        "eth0",
        None,
        Some("bytes"),
        vec![("rx_bytes", 1536), ("tx_bytes", 512)],
    );
    assert_eq!(format_metric_details(&m), "rx 1.5KiB, tx 512B");

    let m = metric(
        1,
        MetricKind::MemoryUsage,
        "ram",
        Some(1_073_741_824_000),
        Some("bytes"),
        vec![
            ("used_bytes", 1073741824),
            ("total_bytes", 2147483648),
            ("available_bytes", 1073741824),
        ],
    );
    assert_eq!(
        format_metric_details(&m),
        "used 1.0GiB / 2.0GiB (avail 1.0GiB)"
    );

    let m = metric(
        1,
        MetricKind::DiskUsage,
        "/",
        Some(1_073_741_824_000),
        Some("bytes"),
        vec![("total_bytes", 2147483648), ("available_bytes", 1073741824)],
    );
    assert_eq!(
        format_metric_details(&m),
        "1.0GiB used of 2.0GiB (avail 1.0GiB)"
    );

    let m = metric(1, MetricKind::CpuUsage, "cpu", Some(1000), Some("%"), vec![]);
    assert_eq!(format_metric_details(&m), "--");
}

#[test]
fn latest_metrics_keeps_newest_per_series() {
    let samples = vec![
        metric(100, MetricKind::CpuUsage, "cpu", Some(10_000), Some("%"), vec![]),
        metric(300, MetricKind::CpuUsage, "cpu", Some(30_000), Some("%"), vec![]),
        metric(200, MetricKind::CpuUsage, "cpu", Some(20_000), Some("%"), vec![]),
        metric(100, MetricKind::Temperature, "cpu", Some(40_000), Some("C"), vec![]),
    ];
    let latest = latest_metrics(&samples);
    assert_eq!(latest.len(), 2);
    let cpu = latest
        .iter()
        .find(|m| m.kind == MetricKind::CpuUsage)
        .unwrap();
    assert_eq!(cpu.ts, 300);
    assert_eq!(cpu.value_milli, Some(30_000));
    let temp = latest
        .iter()
        .find(|m| m.kind == MetricKind::Temperature)
        .unwrap();
    assert_eq!(temp.ts, 100);
}

#[test]
fn latest_metrics_tells_sources_apart() {
    let samples = vec![
        metric(2, MetricKind::DiskUsage, "/home", Some(2), Some("bytes"), vec![]),
        metric(1, MetricKind::DiskUsage, "/", Some(1), Some("bytes"), vec![]),
    ];
    let latest = latest_metrics(&samples);
    assert_eq!(latest.len(), 2);
    assert_eq!(latest[0].source, "/");
    assert_eq!(latest[1].source, "/home");
}

#[test]
fn latest_metrics_keeps_the_first_of_equal_timestamps() {
    let samples = vec![
        metric(100, MetricKind::CpuUsage, "cpu", Some(1_000), Some("%"), vec![]),
        metric(100, MetricKind::CpuUsage, "cpu", Some(2_000), Some("%"), vec![]),
    ];
    let latest = latest_metrics(&samples);
    assert_eq!(latest.len(), 1);
    assert_eq!(latest[0].value_milli, Some(1_000));
}

#[test]
fn latest_metrics_orders_by_kind_then_source() {
    let samples = vec![
        metric(1, MetricKind::Temperature, "cpu", Some(1), Some("C"), vec![]),
        metric(2, MetricKind::CpuUsage, "cpu", Some(2), Some("%"), vec![]),
        metric(3, MetricKind::DiskUsage, "/", Some(3), Some("bytes"), vec![]),
    ];
    let latest = latest_metrics(&samples);
    let kinds: Vec<MetricKind> = latest.iter().map(|m| m.kind).collect();
    assert_eq!(
        kinds,
        vec![MetricKind::CpuUsage, MetricKind::DiskUsage, MetricKind::Temperature]
    );
}

#[test]
fn pct_stats_min_mean_max() {
    let (lo, mean, hi) = pct_stats(&vec![8000, 7900, 7800]);
    assert_eq!(lo, "78.0%");
    assert_eq!(mean, "79.0%");
    assert_eq!(hi, "80.0%");
    let (lo, mean, hi) = pct_stats(&vec![]);
    assert_eq!(lo, "--");
    assert_eq!(mean, "--");
    assert_eq!(hi, "--");
    let (lo, mean, hi) = pct_stats(&vec![5555]);
    assert_eq!(lo, "55.6%");
    assert_eq!(mean, "55.6%");
    assert_eq!(hi, "55.6%");
}

#[test]
fn bucket_styles() {
    assert_eq!(bucket_label_style(300), BucketStyle::Minute);
    assert_eq!(bucket_label_style(3600), BucketStyle::Hour);
    assert_eq!(bucket_label_style(86400), BucketStyle::Day);
    assert_eq!(bucket_label_style(3 * 86400), BucketStyle::MultiDay(3));
}
