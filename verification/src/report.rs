use vstd::prelude::*;

use crate::sample::{wf_metric, MetricKind, MetricSample, MetricSampleV};
use crate::strutil::{chars_eq, dec_rep, fixed_rep, fixed_to_string, u64_to_string};

verus! {

/// What a report can say about the store before rendering anything.
#[derive(Clone, Copy, Debug, PartialEq, Eq, Structural)]
pub enum ReportStatus {
    /// The store has never held a row: collect data first.
    NoRecords,
    /// The store has rows, but none inside the requested window.
    EmptyWindow,
    /// There is something to report.
    Ready,
}

/// Decides what the report path may render: a store that never held a row
/// is told apart from a window that merely misses every row.
pub fn report_status(
    battery_total: usize,
    metric_total: usize,
    window_battery: usize,
    window_metric: usize,
) -> (r: ReportStatus)
    ensures
        r == ReportStatus::NoRecords <==> battery_total == 0 && metric_total == 0,
        r == ReportStatus::EmptyWindow <==> (battery_total > 0 || metric_total > 0)
            && window_battery == 0 && window_metric == 0,
        r == ReportStatus::Ready <==> (battery_total > 0 || metric_total > 0) && (window_battery
            > 0 || window_metric > 0),
{
    if battery_total == 0 && metric_total == 0 {
        ReportStatus::NoRecords
    } else if window_battery == 0 && window_metric == 0 {
        ReportStatus::EmptyWindow
    } else {
        ReportStatus::Ready
    }
}

/// The placeholder shown for an absent value.
pub open spec fn dashes() -> Seq<char> {
    "--"@
}

/// A power value in milliwatts rendered with two decimals and a unit,
/// the placeholder when absent.
pub open spec fn power_rep(mw: Option<int>) -> Seq<char> {
    match mw {
        Some(v) => fixed_rep(v, 2) + "W"@,
        None => dashes(),
    }
}

/// Renders an average power in milliwatts.
pub fn format_power(mw: Option<i64>) -> (r: String)
    requires
        match mw {
            Some(v) => -0x4000_0000_0000_0000 < v < 0x4000_0000_0000_0000,
            None => true,
        },
    ensures
        r@ == power_rep(match mw {
            Some(v) => Some(v as int),
            None => None,
        }),
{
    match mw {
        Some(v) => {
            let mut s = fixed_to_string(v, 2);
            proof {
                reveal_strlit("W");
            }
            s.append("W");
            s
        },
        None => {
            proof {
                reveal_strlit("--");
            }
            String::from_str("--")
        },
    }
}

/// A runtime estimate in thousandths of an hour rendered with one decimal
/// and a unit, the placeholder when absent.
pub open spec fn runtime_rep(millihours: Option<int>) -> Seq<char> {
    match millihours {
        Some(v) => fixed_rep(v, 1) + "h"@,
        None => dashes(),
    }
}

/// Renders a runtime estimate.
pub fn format_runtime(millihours: Option<u64>) -> (r: String)
    requires
        match millihours {
            Some(v) => v < 0x4000_0000_0000_0000,
            None => true,
        },
    ensures
        r@ == runtime_rep(
            match millihours {
                Some(v) => Some(v as int),
                None => None,
            },
        ),
{
    match millihours {
        Some(v) => {
            let mut s = fixed_to_string(v as i64, 1);
            proof {
                reveal_strlit("h");
            }
            s.append("h");
            s
        },
        None => {
            proof {
                reveal_strlit("--");
            }
            String::from_str("--")
        },
    }
}

/// A byte count rendered against binary units: whole bytes below one
/// kibibyte, otherwise one decimal of the largest unit that keeps the
/// magnitude below 1024, capped at tebibytes.
pub open spec fn bytes_rep(v: int) -> Seq<char> {
    let a = if v < 0 {
        -v
    } else {
        v
    };
    let sign = if v < 0 {
        seq!['-']
    } else {
        Seq::<char>::empty()
    };
    if a < 1024 {
        sign + dec_rep(a as nat) + "B"@
    } else if a < 0x100000 {
        sign + fixed_rep(a * 1000 / 1024, 1) + "KiB"@
    } else if a < 0x40000000 {
        sign + fixed_rep(a * 1000 / 0x100000, 1) + "MiB"@
    } else if a < 0x10000000000 {
        sign + fixed_rep(a * 1000 / 0x40000000, 1) + "GiB"@
    } else {
        sign + fixed_rep(a * 1000 / 0x10000000000, 1) + "TiB"@
    }
}

/// Renders a byte count.
pub fn format_bytes(v: i64) -> (r: String)
    requires
        -crate::sample::MAX_VALUE_MILLI <= v <= crate::sample::MAX_VALUE_MILLI,
    ensures
        r@ == bytes_rep(v as int),
{
    let a: i64 = if v < 0 {
        -v
    } else {
        v
    };
    let mut s = if v < 0 {
        proof {
            reveal_strlit("-");
        }
        let t = String::from_str("-");
        proof {
            assert(t@ =~= seq!['-']);
        }
        t
    } else {
        let t = String::new();
        proof {
            assert(t@ =~= Seq::<char>::empty());
        }
        t
    };
    if a < 1024 {
        let d = u64_to_string(a as u64);
        s.append(d.as_str());
        proof {
            reveal_strlit("B");
        }
        s.append("B");
    } else if a < 0x100000 {
        let d = fixed_to_string(a * 1000 / 1024, 1);
        s.append(d.as_str());
        proof {
            reveal_strlit("KiB");
        }
        s.append("KiB");
    } else if a < 0x40000000 {
        let d = fixed_to_string(a * 1000 / 0x100000, 1);
        s.append(d.as_str());
        proof {
            reveal_strlit("MiB");
        }
        s.append("MiB");
    } else if a < 0x10000000000 {
        let d = fixed_to_string(a * 1000 / 0x40000000, 1);
        s.append(d.as_str());
        proof {
            reveal_strlit("GiB");
        }
        s.append("GiB");
    } else {
        let d = fixed_to_string(
            a / 0x10000000000 * 1000 + a % 0x10000000000 * 1000 / 0x10000000000,
            1,
        );
        proof {
            assert(a / 0x10000000000 * 1000 + a % 0x10000000000 * 1000 / 0x10000000000 == a * 1000
                / 0x10000000000) by (nonlinear_arith)
                requires
                    0x10000000000 <= a <= crate::sample::MAX_VALUE_MILLI,
            ;
        }
        s.append(d.as_str());
        proof {
            reveal_strlit("TiB");
        }
        s.append("TiB");
    }
    s
}

/// A byte count rendered as `format_bytes`, the placeholder when absent.
pub open spec fn opt_bytes_rep(v: Option<int>) -> Seq<char> {
    match v {
        Some(x) => bytes_rep(x),
        None => dashes(),
    }
}

/// Renders an optional byte count.
pub fn format_opt_bytes(v: Option<i64>) -> (r: String)
    requires
        match v {
            Some(x) => -crate::sample::MAX_VALUE_MILLI <= x <= crate::sample::MAX_VALUE_MILLI,
            None => true,
        },
    ensures
        r@ == opt_bytes_rep(
            match v {
                Some(x) => Some(x as int),
                None => None,
            },
        ),
{
    match v {
        Some(x) => format_bytes(x),
        None => {
            proof {
                reveal_strlit("--");
            }
            String::from_str("--")
        },
    }
}

/// The first detail number stored under `key`, if any.
pub open spec fn detail_lookup(details: Seq<(Seq<char>, int)>, key: Seq<char>) -> Option<int>
    decreases details.len(),
{
    if details.len() == 0 {
        None
    } else if details[0].0 == key {
        Some(details[0].1)
    } else {
        detail_lookup(details.skip(1), key)
    }
}

proof fn lemma_detail_lookup_skip(details: Seq<(Seq<char>, int)>, key: Seq<char>, i: int)
    requires
        0 <= i <= details.len(),
        forall|j: int| 0 <= j < i ==> (#[trigger] details[j]).0 != key,
    ensures
        detail_lookup(details, key) == detail_lookup(details.skip(i), key),
    decreases i,
{
    if i > 0 {
        assert(details.len() > 0);
        assert(details[0].0 != key);
        let t = details.skip(1);
        assert forall|j: int| 0 <= j < i - 1 implies (#[trigger] t[j]).0 != key by {
            assert(t[j] == details[j + 1]);
        }
        lemma_detail_lookup_skip(t, key, i - 1);
        assert(t.skip(i - 1) =~= details.skip(i));
    } else {
        assert(details.skip(0) =~= details);
    }
}

/// Looks a kind-specific auxiliary number up by name.
pub fn number_from_details(sample: &MetricSample, key: &str) -> (r: Option<i64>)
    ensures
        match r {
            Some(x) => detail_lookup(sample@.details, key@) == Some(x as int),
            None => detail_lookup(sample@.details, key@) is None,
        },
{
    let n: usize = sample.details.len();
    let mut i: usize = 0;
    while i < n
        invariant
            i <= n,
            n == sample.details.len(),
            forall|j: int| 0 <= j < i ==> (#[trigger] sample@.details[j]).0 != key@,
        decreases n - i,
    {
        if chars_eq(sample.details[i].0.as_str(), key) {
            proof {
                lemma_detail_lookup_skip(sample@.details, key@, i as int);
                assert(sample@.details.skip(i as int)[0] == sample@.details[i as int]);
            }
            return Some(sample.details[i].1);
        }
        proof {
            assert(sample@.details[i as int].0 == sample.details@[i as int].0@);
        }
        i += 1;
    }
    proof {
        lemma_detail_lookup_skip(sample@.details, key@, n as int);
        assert(sample@.details.skip(n as int) =~= Seq::<(Seq<char>, int)>::empty());
    }
    None
}

/// The table heading for a metric kind.
pub open spec fn kind_label_rep(kind: MetricKind) -> Seq<char> {
    match kind {
        MetricKind::CpuUsage => "CPU usage"@,
        MetricKind::CpuFrequency => "CPU freq"@,
        MetricKind::GpuUsage => "GPU usage"@,
        MetricKind::GpuFrequency => "GPU freq"@,
        MetricKind::NetworkBytes => "Network"@,
        MetricKind::MemoryUsage => "Memory"@,
        MetricKind::DiskUsage => "Disk"@,
        MetricKind::Temperature => "Temperature"@,
        MetricKind::PowerDraw => "Power draw"@,
    }
}

/// The table heading for a metric kind.
pub fn kind_label(kind: &MetricKind) -> (r: &'static str)
    ensures
        r@ == kind_label_rep(*kind),
{
    match kind {
        MetricKind::CpuUsage => "CPU usage",
        MetricKind::CpuFrequency => "CPU freq",
        MetricKind::GpuUsage => "GPU usage",
        MetricKind::GpuFrequency => "GPU freq",
        MetricKind::NetworkBytes => "Network",
        MetricKind::MemoryUsage => "Memory",
        MetricKind::DiskUsage => "Disk",
        MetricKind::Temperature => "Temperature",
        MetricKind::PowerDraw => "Power draw",
    }
}

/// A reading in thousandths reduced to whole units, toward zero.
pub open spec fn milli_to_unit(x: int) -> int {
    if x >= 0 {
        x / 1000
    } else {
        -((-x) / 1000)
    }
}

/// A metric's primary reading rendered against its unit tag: binary units
/// for bytes, one decimal for percentages and temperatures, whole numbers
/// for frequencies, two decimals otherwise; the placeholder when absent.
pub open spec fn metric_value_rep(v: MetricSampleV) -> Seq<char> {
    match (v.value_milli, v.unit) {
        (Some(x), Some(u)) => if u == "bytes"@ {
            bytes_rep(milli_to_unit(x))
        } else if u == "%"@ {
            fixed_rep(x, 1) + "%"@
        } else if u == "MHz"@ {
            fixed_rep(x, 0) + "MHz"@
        } else if u == "W"@ {
            fixed_rep(x, 2) + "W"@
        } else if u == "C"@ {
            fixed_rep(x, 1) + "C"@
        } else {
            fixed_rep(x, 2) + u
        },
        (Some(x), None) => fixed_rep(x, 2),
        _ => dashes(),
    }
}

/// Renders a metric's primary reading.
pub fn format_metric_value(sample: &MetricSample) -> (r: String)
    requires
        wf_metric(sample@),
    ensures
        r@ == metric_value_rep(sample@),
{
    match (&sample.value_milli, &sample.unit) {
        (Some(x), Some(u)) => {
            let x = *x;
            if chars_eq(u.as_str(), "bytes") {
                let b: i64 = if x >= 0 {
                    x / 1000
                } else {
                    -((-x) / 1000)
                };
                format_bytes(b)
            } else if chars_eq(u.as_str(), "%") {
                let mut s = fixed_to_string(x, 1);
                proof {
                    reveal_strlit("%");
                }
                s.append("%");
                s
            } else if chars_eq(u.as_str(), "MHz") {
                let mut s = fixed_to_string(x, 0);
                proof {
                    reveal_strlit("MHz");
                }
                s.append("MHz");
                s
            } else if chars_eq(u.as_str(), "W") {
                let mut s = fixed_to_string(x, 2);
                proof {
                    reveal_strlit("W");
                }
                s.append("W");
                s
            } else if chars_eq(u.as_str(), "C") {
                let mut s = fixed_to_string(x, 1);
                proof {
                    reveal_strlit("C");
                }
                s.append("C");
                s
            } else {
                let mut s = fixed_to_string(x, 2);
                s.append(u.as_str());
                s
            }
        },
        (Some(x), None) => fixed_to_string(*x, 2),
        _ => {
            proof {
                reveal_strlit("--");
            }
            String::from_str("--")
        },
    }
}

/// The auxiliary column for a metric: receive and transmit totals for
/// network readings, used/total/available for memory, used-of-total for
/// disks, the placeholder for every other kind.
pub open spec fn metric_details_rep(v: MetricSampleV) -> Seq<char> {
    match v.kind {
        MetricKind::NetworkBytes => "rx "@ + opt_bytes_rep(detail_lookup(v.details, "rx_bytes"@))
            + ", tx "@ + opt_bytes_rep(detail_lookup(v.details, "tx_bytes"@)),
        MetricKind::MemoryUsage => "used "@ + opt_bytes_rep(
            detail_lookup(v.details, "used_bytes"@),
        ) + " / "@ + opt_bytes_rep(detail_lookup(v.details, "total_bytes"@)) + " (avail "@
            + opt_bytes_rep(detail_lookup(v.details, "available_bytes"@)) + ")"@,
        MetricKind::DiskUsage => metric_value_rep(v) + " used of "@ + opt_bytes_rep(
            detail_lookup(v.details, "total_bytes"@),
        ) + " (avail "@ + opt_bytes_rep(detail_lookup(v.details, "available_bytes"@)) + ")"@,
        _ => dashes(),
    }
}

/// Renders a metric's auxiliary column.
pub fn format_metric_details(sample: &MetricSample) -> (r: String)
    requires
        wf_metric(sample@),
    ensures
        r@ == metric_details_rep(sample@),
{
    match sample.kind {
        MetricKind::NetworkBytes => {
            let rx = format_opt_bytes(checked_detail(sample, "rx_bytes"));
            let tx = format_opt_bytes(checked_detail(sample, "tx_bytes"));
            proof {
                reveal_strlit("rx ");
                reveal_strlit(", tx ");
            }
            let mut s = String::from_str("rx ");
            s.append(rx.as_str());
            s.append(", tx ");
            s.append(tx.as_str());
            s
        },
        MetricKind::MemoryUsage => {
            let used = format_opt_bytes(checked_detail(sample, "used_bytes"));
            let total = format_opt_bytes(checked_detail(sample, "total_bytes"));
            let avail = format_opt_bytes(checked_detail(sample, "available_bytes"));
            proof {
                reveal_strlit("used ");
                reveal_strlit(" / ");
                reveal_strlit(" (avail ");
                reveal_strlit(")");
            }
            let mut s = String::from_str("used ");
            s.append(used.as_str());
            s.append(" / ");
            s.append(total.as_str());
            s.append(" (avail ");
            s.append(avail.as_str());
            s.append(")");
            s
        },
        MetricKind::DiskUsage => {
            let total = format_opt_bytes(checked_detail(sample, "total_bytes"));
            let avail = format_opt_bytes(checked_detail(sample, "available_bytes"));
            proof {
                reveal_strlit(" used of ");
                reveal_strlit(" (avail ");
                reveal_strlit(")");
            }
            let mut s = format_metric_value(sample);
            s.append(" used of ");
            s.append(total.as_str());
            s.append(" (avail ");
            s.append(avail.as_str());
            s.append(")");
            s
        },
        _ => {
            proof {
                reveal_strlit("--");
            }
            String::from_str("--")
        },
    }
}

/// Looks a detail number up on a sample whose numbers are in range.
fn checked_detail(sample: &MetricSample, key: &str) -> (r: Option<i64>)
    requires
        wf_metric(sample@),
    ensures
        (match r {
            Some(x) => Some(x as int),
            None => None,
        }) == detail_lookup(sample@.details, key@),
        match r {
            Some(x) => -crate::sample::MAX_VALUE_MILLI <= x <= crate::sample::MAX_VALUE_MILLI,
            None => true,
        },
{
    let r = number_from_details(sample, key);
    proof {
        if detail_lookup(sample@.details, key@) is Some {
            lemma_detail_lookup_in_range(sample@.details, key@);
        }
    }
    r
}

proof fn lemma_detail_lookup_in_range(details: Seq<(Seq<char>, int)>, key: Seq<char>)
    requires
        detail_lookup(details, key) is Some,
    ensures
        exists|j: int|
            0 <= j < details.len() && #[trigger] details[j].1 == detail_lookup(details, key)->0,
    decreases details.len(),
{
    if details.len() > 0 && details[0].0 != key {
        lemma_detail_lookup_in_range(details.skip(1), key);
        let j = choose|j: int|
            0 <= j < details.skip(1).len() && #[trigger] details.skip(1)[j].1 == detail_lookup(
                details.skip(1),
                key,
            )->0;
        assert(details[j + 1].1 == detail_lookup(details, key)->0);
    }
}

/// The smallest percentage in a bucket, in hundredths of a percent.
pub open spec fn pct_min(s: Seq<u64>) -> int
    decreases s.len(),
{
    if s.len() <= 1 {
        if s.len() == 0 {
            0
        } else {
            s[0] as int
        }
    } else if s.last() as int <= pct_min(s.drop_last()) {
        s.last() as int
    } else {
        pct_min(s.drop_last())
    }
}

/// The largest percentage in a bucket.
pub open spec fn pct_max(s: Seq<u64>) -> int
    decreases s.len(),
{
    if s.len() <= 1 {
        if s.len() == 0 {
            0
        } else {
            s[0] as int
        }
    } else if s.last() as int >= pct_max(s.drop_last()) {
        s.last() as int
    } else {
        pct_max(s.drop_last())
    }
}

/// The sum of the percentages in a bucket.
pub open spec fn pct_total(s: Seq<u64>) -> int
    decreases s.len(),
{
    if s.len() == 0 {
        0
    } else {
        pct_total(s.drop_last()) + s.last() as int
    }
}

/// The smallest, mean and largest percentage of a bucket, each rendered
/// with one decimal and a percent sign; placeholders for an empty bucket.
/// The values are in hundredths of a percent, at most a full charge.
pub fn pct_stats(values: &Vec<u64>) -> (r: (String, String, String))
    requires
        values@.len() <= crate::sample::MAX_ROWS,
        forall|j: int| 0 <= j < values@.len() ==> #[trigger] values@[j] <= 10000,
    ensures
        values@.len() == 0 ==> r.0@ == dashes() && r.1@ == dashes() && r.2@ == dashes(),
        values@.len() > 0 ==> {
            &&& r.0@ == fixed_rep(pct_min(values@) * 10, 1) + "%"@
            &&& r.1@ == fixed_rep(pct_total(values@) / values@.len() as int * 10, 1) + "%"@
            &&& r.2@ == fixed_rep(pct_max(values@) * 10, 1) + "%"@
        },
{
    let n: usize = values.len();
    if n == 0 {
        proof {
            reveal_strlit("--");
        }
        return (String::from_str("--"), String::from_str("--"), String::from_str("--"));
    }
    let mut lo: u64 = values[0];
    let mut hi: u64 = values[0];
    let mut total: u64 = values[0];
    let mut i: usize = 1;
    proof {
        assert(values@.take(1).drop_last() =~= Seq::<u64>::empty());
        assert(values@.take(1).last() == values@[0]);
        assert(pct_total(Seq::<u64>::empty()) == 0);
    }
    while i < n
        invariant
            1 <= i <= n,
            n == values@.len(),
            n <= crate::sample::MAX_ROWS,
            forall|j: int| 0 <= j < values@.len() ==> #[trigger] values@[j] <= 10000,
            lo == pct_min(values@.take(i as int)),
            hi == pct_max(values@.take(i as int)),
            total == pct_total(values@.take(i as int)),
            lo <= 10000,
            hi <= 10000,
            total <= (i as int) * 10000,
        decreases n - i,
    {
        proof {
            assert(values@.take(i + 1).drop_last() =~= values@.take(i as int));
            assert(values@.take(i + 1).last() == values@[i as int]);
            assert(values@.take(i + 1).len() > 1);
        }
        let v = values[i];
        if v < lo {
            lo = v;
        }
        if v > hi {
            hi = v;
        }
        total += v;
        i += 1;
    }
    proof {
        assert(values@.take(n as int) =~= values@);
    }
    let mean: u64 = total / (n as u64);
    proof {
        reveal_strlit("%");
    }
    let mut a = fixed_to_string((lo * 10) as i64, 1);
    a.append("%");
    let mut b = fixed_to_string((mean * 10) as i64, 1);
    b.append("%");
    let mut c = fixed_to_string((hi * 10) as i64, 1);
    c.append("%");
    (a, b, c)
}

/// Two metric rows describe the same series: same kind, same source.
pub open spec fn same_key(a: MetricSampleV, b: MetricSampleV) -> bool {
    a.kind == b.kind && a.source == b.source
}

/// Some row of `s` describes the same series as `x`.
pub open spec fn has_key(s: Seq<MetricSampleV>, x: MetricSampleV) -> bool {
    exists|a: int| 0 <= a < s.len() && same_key(#[trigger] s[a], x)
}

/// `x` stands somewhere in `s` with no earlier row of its series reaching
/// its timestamp: `x` is the first row of its series to do so, so a later
/// row replaces it only when strictly newer.
pub open spec fn first_of_series(s: Seq<MetricSampleV>, x: MetricSampleV) -> bool {
    exists|j: int|
        0 <= j < s.len() && #[trigger] s[j] == x && (forall|k: int|
            0 <= k < j && same_key(#[trigger] s[k], x) ==> s[k].ts < x.ts)
}

/// Position of a kind in the report ordering, which follows the
/// lexicographic order of the kinds' tag names.
pub open spec fn kind_rank(k: MetricKind) -> int {
    match k {
        MetricKind::CpuFrequency => 0,
        MetricKind::CpuUsage => 1,
        MetricKind::DiskUsage => 2,
        MetricKind::GpuFrequency => 3,
        MetricKind::GpuUsage => 4,
        MetricKind::MemoryUsage => 5,
        MetricKind::NetworkBytes => 6,
        MetricKind::PowerDraw => 7,
        MetricKind::Temperature => 8,
    }
}

/// `a`'s series sorts strictly before `b`'s: by kind first, then by the
/// source name's characters.
pub open spec fn key_lt(a: MetricSampleV, b: MetricSampleV) -> bool {
    ||| kind_rank(a.kind) < kind_rank(b.kind)
    ||| (a.kind == b.kind && a.source != b.source && crate::strutil::lex_le(a.source, b.source))
}

fn kind_rank_of(k: MetricKind) -> (r: u32)
    ensures
        r == kind_rank(k),
{
    match k {
        MetricKind::CpuFrequency => 0,
        MetricKind::CpuUsage => 1,
        MetricKind::DiskUsage => 2,
        MetricKind::GpuFrequency => 3,
        MetricKind::GpuUsage => 4,
        MetricKind::MemoryUsage => 5,
        MetricKind::NetworkBytes => 6,
        MetricKind::PowerDraw => 7,
        MetricKind::Temperature => 8,
    }
}

fn key_lt_exec(a: &MetricSample, b: &MetricSample) -> (r: bool)
    ensures
        r == key_lt(a@, b@),
{
    let ra = kind_rank_of(a.kind);
    let rb = kind_rank_of(b.kind);
    if ra < rb {
        true
    } else if ra > rb {
        false
    } else {
        let eq = chars_eq(a.source.as_str(), b.source.as_str());
        let le = crate::strutil::str_lex_le(a.source.as_str(), b.source.as_str());
        !eq && le
    }
}

/// Two series keys that neither coincide nor sort one way sort the other.
proof fn lemma_key_total(a: MetricSampleV, b: MetricSampleV)
    requires
        !key_lt(a, b),
        !same_key(a, b),
    ensures
        key_lt(b, a),
{
    if kind_rank(b.kind) == kind_rank(a.kind) {
        assert(a.kind == b.kind);
        crate::strutil::lemma_lex_le_total(a.source, b.source);
    }
}

/// The series order is transitive.
proof fn lemma_key_trans(a: MetricSampleV, b: MetricSampleV, c: MetricSampleV)
    requires
        key_lt(a, b),
        key_lt(b, c),
    ensures
        key_lt(a, c),
{
    if a.kind == b.kind && b.kind == c.kind {
        crate::strutil::lemma_lex_le_trans(a.source, b.source, c.source);
        if a.source == c.source {
            crate::strutil::lemma_lex_le_antisym(a.source, b.source);
        }
    }
}

/// Orders rows with pairwise distinct series keys by kind, then source.
/// The result holds exactly the input's rows.
fn sort_by_key(items: Vec<MetricSample>) -> (out: Vec<MetricSample>)
    requires
        forall|a: int, b: int|
            0 <= a < b < items@.len() ==> !same_key(
                #[trigger] crate::store::metric_rows_of(items@)[a],
                #[trigger] crate::store::metric_rows_of(items@)[b],
            ),
    ensures
        out@.len() == items@.len(),
        forall|x: int|
            0 <= x < out@.len() ==> crate::store::metric_rows_of(items@).contains(
                #[trigger] crate::store::metric_rows_of(out@)[x],
            ),
        forall|j: int|
            0 <= j < items@.len() ==> crate::store::metric_rows_of(out@).contains(
                #[trigger] crate::store::metric_rows_of(items@)[j],
            ),
        forall|a: int, b: int|
            0 <= a < b < out@.len() ==> key_lt(
                #[trigger] crate::store::metric_rows_of(out@)[a],
                #[trigger] crate::store::metric_rows_of(out@)[b],
            ),
{
    let n: usize = items.len();
    let mut out: Vec<MetricSample> = Vec::new();
    let mut i: usize = 0;
    while i < n
        invariant
            i <= n,
            n == items@.len(),
            out@.len() == i,
            forall|a: int, b: int|
                0 <= a < b < items@.len() ==> !same_key(
                    #[trigger] crate::store::metric_rows_of(items@)[a],
                    #[trigger] crate::store::metric_rows_of(items@)[b],
                ),
            forall|x: int|
                0 <= x < out@.len() ==> crate::store::metric_rows_of(items@).take(i as int).contains(
                    #[trigger] crate::store::metric_rows_of(out@)[x],
                ),
            forall|j: int|
                0 <= j < i ==> crate::store::metric_rows_of(out@).contains(
                    #[trigger] crate::store::metric_rows_of(items@)[j],
                ),
            forall|a: int, b: int|
                0 <= a < b < out@.len() ==> key_lt(
                    #[trigger] crate::store::metric_rows_of(out@)[a],
                    #[trigger] crate::store::metric_rows_of(out@)[b],
                ),
        decreases n - i,
    {
        let ghost iv = crate::store::metric_rows_of(items@);
        let ghost ov = crate::store::metric_rows_of(out@);
        let ghost s = iv[i as int];
        let m: usize = out.len();
        let mut p: usize = 0;
        while p < m && key_lt_exec(&out[p], &items[i])
            invariant
                p <= m,
                m == out@.len(),
                ov == crate::store::metric_rows_of(out@),
                i < n,
                n == items@.len(),
                iv == crate::store::metric_rows_of(items@),
                s == iv[i as int],
                forall|q: int| 0 <= q < p ==> key_lt(#[trigger] ov[q], s),
            decreases m - p,
        {
            p += 1;
        }
        proof {
            // No element of out shares the new row's key.
            assert forall|q: int| 0 <= q < ov.len() implies !same_key(#[trigger] ov[q], s) by {
                assert(iv.take(i as int).contains(ov[q]));
                let j = choose|j: int|
                    0 <= j < iv.take(i as int).len() && iv.take(i as int)[j] == ov[q];
                assert(iv[j] == ov[q]);
                assert(!same_key(iv[j], iv[i as int]));
            }
            if p < m {
                lemma_key_total(ov[p as int], s);
                assert forall|q: int| p <= q < ov.len() implies key_lt(s, #[trigger] ov[q]) by {
                    if q > p {
                        lemma_key_trans(s, ov[p as int], ov[q]);
                    }
                }
            }
        }
        let d = items[i].duplicate();
        proof {
            assert(crate::store::metric_rows_of(out@.insert(p as int, d)) =~= ov.insert(
                p as int,
                s,
            ));
        }
        out.insert(p, d);
        proof {
            let nv = crate::store::metric_rows_of(out@);
            assert(nv == ov.insert(p as int, s));
            assert(iv.contains(s)) by {
                assert(iv[i as int] == s);
            }
            assert forall|a: int, b: int| 0 <= a < b < nv.len() implies key_lt(
                #[trigger] nv[a],
                #[trigger] nv[b],
            ) by {
                if a < p {
                    assert(nv[a] == ov[a]);
                }
                if b < p {
                    assert(nv[b] == ov[b]);
                }
                if a > p {
                    assert(nv[a] == ov[a - 1]);
                }
                if b > p {
                    assert(nv[b] == ov[b - 1]);
                }
            }
            assert forall|x: int| 0 <= x < nv.len() implies iv.take(i + 1).contains(
                #[trigger] nv[x],
            ) by {
                if x == p {
                    assert(iv.take(i + 1)[i as int] == s);
                } else {
                    let y = if x < p {
                        x
                    } else {
                        x - 1
                    };
                    assert(nv[x] == ov[y]);
                    assert(iv.take(i as int).contains(ov[y]));
                    let j = choose|j: int|
                        0 <= j < iv.take(i as int).len() && iv.take(i as int)[j] == ov[y];
                    assert(iv.take(i + 1)[j] == ov[y]);
                }
            }
            assert forall|j: int| 0 <= j < i + 1 implies nv.contains(#[trigger] iv[j]) by {
                if j == i {
                    assert(nv[p as int] == iv[j]);
                } else {
                    assert(ov.contains(iv[j]));
                    let x = choose|x: int| 0 <= x < ov.len() && ov[x] == iv[j];
                    if x < p {
                        assert(nv[x] == iv[j]);
                    } else {
                        assert(nv[x + 1] == iv[j]);
                    }
                }
            }
        }
        i += 1;
    }
    proof {
        assert(crate::store::metric_rows_of(items@).take(n as int) =~= crate::store::metric_rows_of(
            items@,
        ));
        assert forall|x: int| 0 <= x < out@.len() implies crate::store::metric_rows_of(
            items@,
        ).contains(#[trigger] crate::store::metric_rows_of(out@)[x]) by {
            let iv = crate::store::metric_rows_of(items@);
            assert(iv.take(n as int).contains(crate::store::metric_rows_of(out@)[x]));
            let j = choose|j: int|
                0 <= j < iv.take(n as int).len() && iv.take(n as int)[j]
                    == crate::store::metric_rows_of(out@)[x];
            assert(iv[j] == crate::store::metric_rows_of(out@)[x]);
        }
    }
    out
}

/// The most recent sample of every (kind, source) series, one row per
/// series, each row taken unchanged from the input, ordered by kind and
/// then by source name.
pub fn latest_metrics(samples: &Vec<MetricSample>) -> (out: Vec<MetricSample>)
    ensures
        forall|a: int, b: int|
            0 <= a < b < out@.len() ==> !same_key(
                #[trigger] crate::store::metric_rows_of(out@)[a],
                #[trigger] crate::store::metric_rows_of(out@)[b],
            ),
        forall|a: int|
            0 <= a < out@.len() ==> crate::store::metric_rows_of(samples@).contains(
                #[trigger] crate::store::metric_rows_of(out@)[a],
            ),
        forall|a: int, k: int|
            0 <= a < out@.len() && 0 <= k < samples@.len() && same_key(
                #[trigger] crate::store::metric_rows_of(samples@)[k],
                #[trigger] crate::store::metric_rows_of(out@)[a],
            ) ==> crate::store::metric_rows_of(samples@)[k].ts <= crate::store::metric_rows_of(
                out@,
            )[a].ts,
        forall|k: int|
            0 <= k < samples@.len() ==> has_key(
                crate::store::metric_rows_of(out@),
                #[trigger] crate::store::metric_rows_of(samples@)[k],
            ),
        forall|a: int, b: int|
            0 <= a < b < out@.len() ==> key_lt(
                #[trigger] crate::store::metric_rows_of(out@)[a],
                #[trigger] crate::store::metric_rows_of(out@)[b],
            ),
        forall|a: int|
            0 <= a < out@.len() ==> first_of_series(
                crate::store::metric_rows_of(samples@),
                #[trigger] crate::store::metric_rows_of(out@)[a],
            ),
{
    let ghost rows = crate::store::metric_rows_of(samples@);
    let n: usize = samples.len();
    let mut out: Vec<MetricSample> = Vec::new();
    let mut i: usize = 0;
    while i < n
        invariant
            i <= n,
            n == samples@.len(),
            rows == crate::store::metric_rows_of(samples@),
            forall|a: int, b: int|
                0 <= a < b < out@.len() ==> !same_key(
                    #[trigger] crate::store::metric_rows_of(out@)[a],
                    #[trigger] crate::store::metric_rows_of(out@)[b],
                ),
            forall|a: int|
                0 <= a < out@.len() ==> crate::store::metric_rows_of(samples@).contains(
                    #[trigger] crate::store::metric_rows_of(out@)[a],
                ),
            forall|a: int, k: int|
                0 <= a < out@.len() && 0 <= k < i && same_key(
                    #[trigger] crate::store::metric_rows_of(samples@)[k],
                    #[trigger] crate::store::metric_rows_of(out@)[a],
                ) ==> crate::store::metric_rows_of(samples@)[k].ts <= crate::store::metric_rows_of(out@)[a].ts,
            forall|k: int|
                0 <= k < i ==> has_key(
                    crate::store::metric_rows_of(out@),
                    #[trigger] crate::store::metric_rows_of(samples@)[k],
                ),
            forall|a: int|
                0 <= a < out@.len() ==> first_of_series(
                    crate::store::metric_rows_of(samples@),
                    #[trigger] crate::store::metric_rows_of(out@)[a],
                ),
        decreases n - i,
    {
        let ghost ov = crate::store::metric_rows_of(out@);
        let m: usize = out.len();
        let mut p: usize = 0;
        let mut found: bool = false;
        while p < m && !found
            invariant
                p <= m,
                m == out@.len(),
                ov == crate::store::metric_rows_of(out@),
                i < n,
                n == samples@.len(),
                rows == crate::store::metric_rows_of(samples@),
                !found ==> forall|q: int| 0 <= q < p ==> !same_key(#[trigger] ov[q], crate::store::metric_rows_of(samples@)[i as int]),
                found ==> p < m && same_key(ov[p as int], crate::store::metric_rows_of(samples@)[i as int]),
            decreases m - p + (if found {
                0int
            } else {
                1int
            }),
        {
            let k_eq = out[p].kind == samples[i].kind;
            let s_eq = chars_eq(out[p].source.as_str(), samples[i].source.as_str());
            if k_eq && s_eq {
                found = true;
            } else {
                p += 1;
            }
        }
        if found {
            if samples[i].ts > out[p].ts {
                let d = samples[i].duplicate();
                proof {
                    assert(crate::store::metric_rows_of(out@.update(p as int, d)) =~= ov.update(
                        p as int,
                        crate::store::metric_rows_of(samples@)[i as int],
                    ));
                    assert(crate::store::metric_rows_of(samples@).contains(crate::store::metric_rows_of(samples@)[i as int])) by {
                        assert(crate::store::metric_rows_of(samples@)[i as int] == crate::store::metric_rows_of(samples@)[i as int]);
                    }
                }
                out[p] = d;
                proof {
                    let nv = crate::store::metric_rows_of(out@);
                    assert(same_key(ov[p as int], crate::store::metric_rows_of(samples@)[i as int]));
                    assert forall|a: int, b: int| 0 <= a < b < nv.len() implies !same_key(
                        #[trigger] nv[a],
                        #[trigger] nv[b],
                    ) by {
                        if a != p {
                            assert(nv[a] == ov[a]);
                        }
                        if b != p {
                            assert(nv[b] == ov[b]);
                        }
                    }
                    assert forall|k: int| 0 <= k < i + 1 implies has_key(
                        nv,
                        #[trigger] crate::store::metric_rows_of(samples@)[k],
                    ) by {
                        if k < i {
                            let a = choose|a: int|
                                0 <= a < ov.len() && same_key(#[trigger] ov[a], crate::store::metric_rows_of(samples@)[k]);
                            if a == p {
                                assert(same_key(nv[p as int], crate::store::metric_rows_of(samples@)[k]));
                            } else {
                                assert(nv[a] == ov[a]);
                                assert(same_key(nv[a], crate::store::metric_rows_of(samples@)[k]));
                            }
                        } else {
                            assert(same_key(nv[p as int], crate::store::metric_rows_of(samples@)[k]));
                        }
                    }
                    assert forall|a: int, k: int|
                        0 <= a < nv.len() && 0 <= k < i + 1 && same_key(
                            #[trigger] crate::store::metric_rows_of(samples@)[k],
                            #[trigger] nv[a],
                        ) implies crate::store::metric_rows_of(samples@)[k].ts <= nv[a].ts by {
                        if a == p {
                            if k < i {
                                assert(same_key(crate::store::metric_rows_of(samples@)[k], ov[p as int]));
                                assert(crate::store::metric_rows_of(samples@)[k].ts <= ov[p as int].ts);
                            }
                        } else {
                            assert(nv[a] == ov[a]);
                            if k == i {
                                assert(!same_key(ov[a], ov[p as int]) || a == p);
                                assert(same_key(crate::store::metric_rows_of(samples@)[k], ov[p as int]));
                            }
                        }
                    }
                    assert forall|a: int| 0 <= a < nv.len() implies first_of_series(
                        crate::store::metric_rows_of(samples@),
                        #[trigger] nv[a],
                    ) by {
                        if a == p {
                            assert forall|k: int|
                                0 <= k < i && same_key(
                                    #[trigger] crate::store::metric_rows_of(samples@)[k],
                                    nv[p as int],
                                ) implies crate::store::metric_rows_of(samples@)[k].ts
                                < nv[p as int].ts by {
                                assert(same_key(crate::store::metric_rows_of(samples@)[k], ov[p as int]));
                                assert(crate::store::metric_rows_of(samples@)[k].ts <= ov[p as int].ts);
                            }
                            assert(crate::store::metric_rows_of(samples@)[i as int] == nv[p as int]);
                        } else {
                            assert(nv[a] == ov[a]);
                            assert(first_of_series(crate::store::metric_rows_of(samples@), ov[a]));
                        }
                    }
                }
            } else {
                proof {
                    assert(same_key(crate::store::metric_rows_of(samples@)[i as int], ov[p as int]));
                    assert forall|k: int| 0 <= k < i + 1 implies has_key(
                        ov,
                        #[trigger] crate::store::metric_rows_of(samples@)[k],
                    ) by {
                        if k == i {
                            assert(same_key(ov[p as int], crate::store::metric_rows_of(samples@)[k]));
                        }
                    }
                    assert forall|a: int, k: int|
                        0 <= a < ov.len() && 0 <= k < i + 1 && same_key(
                            #[trigger] crate::store::metric_rows_of(samples@)[k],
                            #[trigger] ov[a],
                        ) implies crate::store::metric_rows_of(samples@)[k].ts <= ov[a].ts by {
                        if k == i && a != p {
                            assert(same_key(ov[a], ov[p as int]));
                        }
                    }
                }
            }
        } else {
            let d = samples[i].duplicate();
            proof {
                assert(crate::store::metric_rows_of(out@.push(d)) =~= ov.push(crate::store::metric_rows_of(samples@)[i as int]));
                assert(crate::store::metric_rows_of(samples@).contains(crate::store::metric_rows_of(samples@)[i as int])) by {
                    assert(crate::store::metric_rows_of(samples@)[i as int] == crate::store::metric_rows_of(samples@)[i as int]);
                }
                assert forall|k: int|
                    0 <= k < i && same_key(crate::store::metric_rows_of(samples@)[k], crate::store::metric_rows_of(samples@)[i as int]) implies false by {
                    let a = choose|a: int|
                        0 <= a < ov.len() && same_key(#[trigger] ov[a], crate::store::metric_rows_of(samples@)[k]);
                    assert(same_key(ov[a], crate::store::metric_rows_of(samples@)[i as int]));
                }
            }
            out.push(d);
            proof {
                let nv = crate::store::metric_rows_of(out@);
                assert(nv =~= ov.push(crate::store::metric_rows_of(samples@)[i as int]));
                assert(nv == ov.push(crate::store::metric_rows_of(samples@)[i as int]));
                assert forall|a: int, b: int| 0 <= a < b < nv.len() implies !same_key(
                    #[trigger] nv[a],
                    #[trigger] nv[b],
                ) by {
                    if b < ov.len() {
                        assert(nv[a] == ov[a]);
                        assert(nv[b] == ov[b]);
                    } else {
                        assert(nv[a] == ov[a]);
                        assert(nv[b] == crate::store::metric_rows_of(samples@)[i as int]);
                    }
                }
                assert forall|k: int| 0 <= k < i + 1 implies has_key(
                    nv,
                    #[trigger] crate::store::metric_rows_of(samples@)[k],
                ) by {
                    if k < i {
                        let a = choose|a: int|
                            0 <= a < ov.len() && same_key(#[trigger] ov[a], crate::store::metric_rows_of(samples@)[k]);
                        assert(nv[a] == ov[a]);
                        assert(same_key(nv[a], crate::store::metric_rows_of(samples@)[k]));
                    } else {
                        assert(nv[ov.len() as int] == crate::store::metric_rows_of(samples@)[i as int]);
                        assert(same_key(nv[ov.len() as int], crate::store::metric_rows_of(samples@)[k]));
                    }
                }
                assert forall|a: int, k: int|
                    0 <= a < nv.len() && 0 <= k < i + 1 && same_key(
                        #[trigger] crate::store::metric_rows_of(samples@)[k],
                        #[trigger] nv[a],
                    ) implies crate::store::metric_rows_of(samples@)[k].ts <= nv[a].ts by {
                    if a < ov.len() {
                        assert(nv[a] == ov[a]);
                        if k == i {
                            assert(same_key(ov[a], crate::store::metric_rows_of(samples@)[i as int]));
                        }
                    } else {
                        assert(nv[a] == crate::store::metric_rows_of(samples@)[i as int]);
                        if k < i {
                            assert(same_key(crate::store::metric_rows_of(samples@)[k], crate::store::metric_rows_of(samples@)[i as int]));
                        }
                    }
                }
                assert forall|a: int| 0 <= a < nv.len() implies first_of_series(
                    crate::store::metric_rows_of(samples@),
                    #[trigger] nv[a],
                ) by {
                    if a < ov.len() {
                        assert(nv[a] == ov[a]);
                        assert(first_of_series(crate::store::metric_rows_of(samples@), ov[a]));
                    } else {
                        assert(nv[a] == crate::store::metric_rows_of(samples@)[i as int]);
                        assert forall|k: int|
                            0 <= k < i && same_key(
                                #[trigger] crate::store::metric_rows_of(samples@)[k],
                                nv[a],
                            ) implies crate::store::metric_rows_of(samples@)[k].ts < nv[a].ts by {
                            assert(same_key(crate::store::metric_rows_of(samples@)[k], crate::store::metric_rows_of(samples@)[i as int]));
                        }
                    }
                }
            }
        }
        i += 1;
    }
    let sorted = sort_by_key(out);
    proof {
        let mv = crate::store::metric_rows_of(out@);
        let sv = crate::store::metric_rows_of(sorted@);
        assert forall|a: int, b: int| 0 <= a < b < sv.len() implies !same_key(
            #[trigger] sv[a],
            #[trigger] sv[b],
        ) by {
            assert(key_lt(sv[a], sv[b]));
        }
        assert forall|x: int| 0 <= x < sv.len() implies crate::store::metric_rows_of(
            samples@,
        ).contains(#[trigger] sv[x]) by {
            assert(mv.contains(sv[x]));
            let j = choose|j: int| 0 <= j < mv.len() && mv[j] == sv[x];
            assert(crate::store::metric_rows_of(samples@).contains(mv[j]));
        }
        assert forall|x: int, k: int|
            0 <= x < sv.len() && 0 <= k < samples@.len() && same_key(
                #[trigger] crate::store::metric_rows_of(samples@)[k],
                #[trigger] sv[x],
            ) implies crate::store::metric_rows_of(samples@)[k].ts <= sv[x].ts by {
            assert(mv.contains(sv[x]));
            let j = choose|j: int| 0 <= j < mv.len() && mv[j] == sv[x];
            assert(same_key(crate::store::metric_rows_of(samples@)[k], mv[j]));
        }
        assert forall|x: int| 0 <= x < sv.len() implies first_of_series(
            crate::store::metric_rows_of(samples@),
            #[trigger] sv[x],
        ) by {
            assert(mv.contains(sv[x]));
            let j = choose|j: int| 0 <= j < mv.len() && mv[j] == sv[x];
            assert(first_of_series(crate::store::metric_rows_of(samples@), mv[j]));
        }
        assert forall|k: int| 0 <= k < samples@.len() implies has_key(
            sv,
            #[trigger] crate::store::metric_rows_of(samples@)[k],
        ) by {
            assert(has_key(mv, crate::store::metric_rows_of(samples@)[k]));
            let a = choose|a: int|
                0 <= a < mv.len() && same_key(
                    #[trigger] mv[a],
                    crate::store::metric_rows_of(samples@)[k],
                );
            assert(sv.contains(mv[a]));
            let x = choose|x: int| 0 <= x < sv.len() && sv[x] == mv[a];
            assert(same_key(sv[x], crate::store::metric_rows_of(samples@)[k]));
        }
    }
    sorted
}

} // verus!
