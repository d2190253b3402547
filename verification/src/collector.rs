use vstd::prelude::*;

use crate::sample::{
    details_view, wf_battery, wf_metric, BatterySample, MetricKind, MetricSample,
    MAX_PERCENT_CENTI, MAX_POWER_MILLIWATTS, MAX_ROWS, MAX_TIMESTAMP, MAX_VALUE_MILLI,
};
use crate::store::{SampleStore, StorageError};

verus! {

/// One sensor's failure: logged and isolated, never fatal to a tick.
pub struct SensorError {
    pub source: String,
    pub message: String,
}

/// One source's raw output, before normalization into a sample.
pub enum RawReading {
    /// A battery probe's registers: charge in hundredths of a percent,
    /// a status tag, and instantaneous power in microwatts, signed as the
    /// sample's power is.
    Battery {
        percentage_centi: Option<u64>,
        status: Option<String>,
        power_microwatts: Option<i64>,
    },
    /// A generic probe's reading, already in thousandths of its unit.
    Metric {
        kind: MetricKind,
        source: String,
        value_milli: Option<i64>,
        unit: Option<String>,
        details: Vec<(String, i64)>,
    },
}

/// `v` clamped into `[lo, hi]`.
pub open spec fn clamp(v: int, lo: int, hi: int) -> int {
    if v < lo {
        lo
    } else if v > hi {
        hi
    } else {
        v
    }
}

/// Microwatts reduced to whole milliwatts, toward zero.
pub open spec fn microwatts_to_milliwatts(uw: int) -> int {
    if uw >= 0 {
        uw / 1000
    } else {
        -((-uw) / 1000)
    }
}

/// Normalizes a raw battery reading taken at `ts` into a storable sample:
/// the percentage is clamped to a full charge, the power register is
/// converted from microwatts to milliwatts and clamped to the machine
/// bound, and the status is carried through untouched.
pub fn normalize_battery(
    ts: i64,
    percentage_centi: Option<u64>,
    status: Option<String>,
    power_microwatts: Option<i64>,
) -> (s: BatterySample)
    requires
        -MAX_TIMESTAMP <= ts <= MAX_TIMESTAMP,
    ensures
        wf_battery(s@),
        s@ == normalized_battery_v(ts as int, percentage_centi, status, power_microwatts),
        s@.ts == ts,
        s@.percentage == match percentage_centi {
            Some(p) => Some(clamp(p as int, 0, MAX_PERCENT_CENTI as int)),
            None => None::<int>,
        },
        s@.status == match status {
            Some(t) => Some(t@),
            None => None::<Seq<char>>,
        },
        s@.power_mw == match power_microwatts {
            Some(p) => Some(
                clamp(
                    microwatts_to_milliwatts(p as int),
                    -MAX_POWER_MILLIWATTS as int,
                    MAX_POWER_MILLIWATTS as int,
                ),
            ),
            None => None::<int>,
        },
{
    let percentage = match percentage_centi {
        Some(p) => Some(
            if p > MAX_PERCENT_CENTI {
                MAX_PERCENT_CENTI
            } else {
                p
            },
        ),
        None => None,
    };
    let power_mw = match power_microwatts {
        Some(p) => {
            let w: i128 = p as i128;
            let mw: i128 = if w >= 0 {
                w / 1000
            } else {
                -((-w) / 1000)
            };
            Some(
                if mw > MAX_POWER_MILLIWATTS as i128 {
                    MAX_POWER_MILLIWATTS
                } else if mw < -MAX_POWER_MILLIWATTS as i128 {
                    -MAX_POWER_MILLIWATTS
                } else {
                    mw as i64
                },
            )
        },
        None => None,
    };
    BatterySample { ts, percentage, status, power_mw }
}

/// Normalizes a raw metric reading taken at `ts` into a storable sample:
/// the reading and every detail number are clamped to the machine bound.
pub fn normalize_metric(
    ts: i64,
    kind: MetricKind,
    source: String,
    value_milli: Option<i64>,
    unit: Option<String>,
    details: Vec<(String, i64)>,
) -> (s: MetricSample)
    requires
        -MAX_TIMESTAMP <= ts <= MAX_TIMESTAMP,
    ensures
        wf_metric(s@),
        s@ == normalized_metric_v(ts as int, kind, source, value_milli, unit, details),
        s@.ts == ts,
        s@.kind == kind,
        s@.source == source@,
        s@.value_milli == match value_milli {
            Some(v) => Some(clamp(v as int, -MAX_VALUE_MILLI as int, MAX_VALUE_MILLI as int)),
            None => None::<int>,
        },
        s@.unit == match unit {
            Some(u) => Some(u@),
            None => None::<Seq<char>>,
        },
        s@.details.len() == details@.len(),
        forall|j: int|
            0 <= j < details@.len() ==> #[trigger] s@.details[j] == (
            details_view(details@)[j].0,
            clamp(details_view(details@)[j].1, -MAX_VALUE_MILLI as int, MAX_VALUE_MILLI as int),
        ),
{
    let value = match value_milli {
        Some(v) => Some(clamp_value(v)),
        None => None,
    };
    let mut clamped: Vec<(String, i64)> = Vec::new();
    let mut i: usize = 0;
    while i < details.len()
        invariant
            i <= details@.len(),
            clamped@.len() == i,
            forall|j: int|
                0 <= j < i ==> #[trigger] details_view(clamped@)[j] == (
                details_view(details@)[j].0,
                clamp(
                    details_view(details@)[j].1,
                    -MAX_VALUE_MILLI as int,
                    MAX_VALUE_MILLI as int,
                ),
            ),
        decreases details.len() - i,
    {
        let entry = (details[i].0.clone(), clamp_value(details[i].1));
        proof {
            assert(details_view(clamped@.push(entry))[i as int] == (entry.0@, entry.1 as int));
            assert(forall|j: int|
                0 <= j < i ==> #[trigger] details_view(clamped@.push(entry))[j] == details_view(
                    clamped@,
                )[j]);
        }
        clamped.push(entry);
        i += 1;
    }
    let s = MetricSample { ts, kind, source, value_milli: value, unit, details: clamped };
    proof {
        assert(s@.details =~= clamped_details(details_view(details@)));
    }
    s
}

fn clamp_value(v: i64) -> (r: i64)
    ensures
        r as int == clamp(v as int, -MAX_VALUE_MILLI as int, MAX_VALUE_MILLI as int),
{
    if v > MAX_VALUE_MILLI {
        MAX_VALUE_MILLI
    } else if v < -MAX_VALUE_MILLI {
        -MAX_VALUE_MILLI
    } else {
        v
    }
}

/// The sample a raw battery reading taken at `ts` normalizes to.
pub open spec fn normalized_battery_v(
    ts: int,
    percentage_centi: Option<u64>,
    status: Option<String>,
    power_microwatts: Option<i64>,
) -> crate::sample::BatterySampleV {
    crate::sample::BatterySampleV {
        ts,
        percentage: match percentage_centi {
            Some(p) => Some(clamp(p as int, 0, MAX_PERCENT_CENTI as int)),
            None => None,
        },
        status: match status {
            Some(t) => Some(t@),
            None => None,
        },
        power_mw: match power_microwatts {
            Some(p) => Some(
                clamp(
                    microwatts_to_milliwatts(p as int),
                    -MAX_POWER_MILLIWATTS as int,
                    MAX_POWER_MILLIWATTS as int,
                ),
            ),
            None => None,
        },
    }
}

/// Detail numbers clamped to the machine bound, keys kept.
pub open spec fn clamped_details(d: Seq<(Seq<char>, int)>) -> Seq<(Seq<char>, int)> {
    d.map(
        |i: int, p: (Seq<char>, int)|
            (p.0, clamp(p.1, -MAX_VALUE_MILLI as int, MAX_VALUE_MILLI as int)),
    )
}

/// The sample a raw metric reading taken at `ts` normalizes to.
pub open spec fn normalized_metric_v(
    ts: int,
    kind: MetricKind,
    source: String,
    value_milli: Option<i64>,
    unit: Option<String>,
    details: Vec<(String, i64)>,
) -> crate::sample::MetricSampleV {
    crate::sample::MetricSampleV {
        ts,
        kind,
        source: source@,
        value_milli: match value_milli {
            Some(v) => Some(clamp(v as int, -MAX_VALUE_MILLI as int, MAX_VALUE_MILLI as int)),
            None => None,
        },
        unit: match unit {
            Some(u) => Some(u@),
            None => None,
        },
        details: clamped_details(details_view(details@)),
    }
}

/// The battery table after one tick: each battery reading that arrived is
/// normalized and filed at its sorted position, in reading order.
pub open spec fn tick_batteries(
    rows: Seq<crate::sample::BatterySampleV>,
    ts: int,
    rs: Seq<Result<RawReading, SensorError>>,
) -> Seq<crate::sample::BatterySampleV>
    decreases rs.len(),
{
    if rs.len() == 0 {
        rows
    } else {
        let prev = tick_batteries(rows, ts, rs.drop_last());
        match rs.last() {
            Ok(RawReading::Battery { percentage_centi, status, power_microwatts }) => prev.insert(
                crate::store::insert_pos_battery(prev, ts),
                normalized_battery_v(ts, percentage_centi, status, power_microwatts),
            ),
            _ => prev,
        }
    }
}

/// The metric table after one tick, likewise.
pub open spec fn tick_metrics(
    rows: Seq<crate::sample::MetricSampleV>,
    ts: int,
    rs: Seq<Result<RawReading, SensorError>>,
) -> Seq<crate::sample::MetricSampleV>
    decreases rs.len(),
{
    if rs.len() == 0 {
        rows
    } else {
        let prev = tick_metrics(rows, ts, rs.drop_last());
        match rs.last() {
            Ok(RawReading::Metric { kind, source, value_milli, unit, details }) => prev.insert(
                crate::store::insert_pos_metric(prev, ts),
                normalized_metric_v(ts, kind, source, value_milli, unit, details),
            ),
            _ => prev,
        }
    }
}

/// How many readings in a tick came back at all.
pub open spec fn ok_count(rs: Seq<Result<RawReading, SensorError>>) -> int
    decreases rs.len(),
{
    if rs.len() == 0 {
        0
    } else {
        ok_count(rs.drop_last()) + if rs.last() is Ok {
            1int
        } else {
            0int
        }
    }
}

/// How many of them were battery readings.
pub open spec fn battery_count(rs: Seq<Result<RawReading, SensorError>>) -> int
    decreases rs.len(),
{
    if rs.len() == 0 {
        0
    } else {
        battery_count(rs.drop_last()) + match rs.last() {
            Ok(RawReading::Battery { .. }) => 1int,
            _ => 0int,
        }
    }
}

/// How many of them were metric readings.
pub open spec fn metric_count(rs: Seq<Result<RawReading, SensorError>>) -> int
    decreases rs.len(),
{
    if rs.len() == 0 {
        0
    } else {
        metric_count(rs.drop_last()) + match rs.last() {
            Ok(RawReading::Metric { .. }) => 1int,
            _ => 0int,
        }
    }
}

/// Exit code for one collection tick: success when at least one reading of
/// any kind was stored, failure when every reader failed.
pub fn tick_exit_code(stored: usize) -> (r: i32)
    ensures
        r == 0 <==> stored > 0,
{
    if stored > 0 {
        0
    } else {
        1
    }
}

/// Runs the storage half of one tick over the readings the sensors handed
/// back: every reading that arrived is normalized and stored, a failed
/// reading is skipped without disturbing the others, and the count of
/// stored samples comes back (zero meaning every reader failed).
pub fn process_tick(
    store: &mut SampleStore,
    ts: i64,
    readings: Vec<Result<RawReading, SensorError>>,
) -> (stored: usize)
    requires
        old(store).wf(),
        -MAX_TIMESTAMP <= ts <= MAX_TIMESTAMP,
        old(store).battery_rows().len() + readings@.len() <= MAX_ROWS,
        old(store).metric_rows().len() + readings@.len() <= MAX_ROWS,
    ensures
        final(store).wf(),
        stored == ok_count(readings@),
        final(store).battery_rows() == tick_batteries(
            old(store).battery_rows(),
            ts as int,
            readings@,
        ),
        final(store).metric_rows() == tick_metrics(old(store).metric_rows(), ts as int, readings@),
        final(store).battery_rows().len() == old(store).battery_rows().len() + battery_count(
            readings@,
        ),
        final(store).metric_rows().len() == old(store).metric_rows().len() + metric_count(
            readings@,
        ),
{
    let ghost rs = readings@;
    let mut stored: usize = 0;
    let n: usize = readings.len();
    proof {
        assert(rs.take(0) =~= Seq::<Result<RawReading, SensorError>>::empty());
    }
    let mut i: usize = 0;
    while i < n
        invariant
            i <= n,
            n == rs.len(),
            rs == readings@,
            store.wf(),
            -MAX_TIMESTAMP <= ts <= MAX_TIMESTAMP,
            stored == ok_count(rs.take(i as int)),
            stored <= i,
            store.battery_rows().len() == old(store).battery_rows().len() + battery_count(
                rs.take(i as int),
            ),
            store.metric_rows().len() == old(store).metric_rows().len() + metric_count(
                rs.take(i as int),
            ),
            store.battery_rows() == tick_batteries(
                old(store).battery_rows(),
                ts as int,
                rs.take(i as int),
            ),
            store.metric_rows() == tick_metrics(
                old(store).metric_rows(),
                ts as int,
                rs.take(i as int),
            ),
            old(store).battery_rows().len() + rs.len() <= MAX_ROWS,
            old(store).metric_rows().len() + rs.len() <= MAX_ROWS,
        decreases n - i,
    {
        proof {
            assert(rs.take(i + 1).drop_last() =~= rs.take(i as int));
            assert(rs.take(i + 1).last() == rs[i as int]);
            assert(battery_count(rs.take(i as int)) <= i) by {
                count_bounds(rs.take(i as int));
            }
            assert(metric_count(rs.take(i as int)) <= i) by {
                count_bounds(rs.take(i as int));
            }
        }
        match &readings[i] {
            Ok(RawReading::Battery { percentage_centi, status, power_microwatts }) => {
                let st = match status {
                    Some(t) => Some(t.clone()),
                    None => None,
                };
                let ghost gst = st;
                let s = normalize_battery(ts, *percentage_centi, st, *power_microwatts);
                let ghost prev = store.battery_rows();
                let _ = store.insert_battery(s);
                stored += 1;
                proof {
                    assert(gst == *status);
                    assert(s@ == normalized_battery_v(
                        ts as int,
                        *percentage_centi,
                        *status,
                        *power_microwatts,
                    ));
                    assert(store.battery_rows() == tick_batteries(
                        old(store).battery_rows(),
                        ts as int,
                        rs.take(i + 1),
                    ));
                }
            },
            Ok(RawReading::Metric { kind, source, value_milli, unit, details }) => {
                let mut ds: Vec<(String, i64)> = Vec::new();
                let mut k: usize = 0;
                while k < details.len()
                    invariant
                        k <= details@.len(),
                        ds@ == details@.take(k as int),
                    decreases details@.len() - k,
                {
                    let entry = (details[k].0.clone(), details[k].1);
                    proof {
                        assert(entry == details@[k as int]);
                        assert(ds@.push(entry) =~= details@.take(k + 1));
                    }
                    ds.push(entry);
                    k += 1;
                }
                proof {
                    assert(details@.take(details@.len() as int) =~= details@);
                }
                let ghost gds = ds;
                let src = source.clone();
                let ghost gsrc = src;
                let un = match unit {
                    Some(u) => Some(u.clone()),
                    None => None,
                };
                let ghost gun = un;
                let s = normalize_metric(ts, *kind, src, *value_milli, un, ds);
                let ghost prev = store.metric_rows();
                let _ = store.insert_metric(s);
                stored += 1;
                proof {
                    assert(gsrc == *source);
                    assert(gun == *unit);
                    assert(gds@ == details@);
                    assert(s@ == normalized_metric_v(
                        ts as int,
                        *kind,
                        *source,
                        *value_milli,
                        *unit,
                        *details,
                    )) by {
                        assert(s@ == normalized_metric_v(
                            ts as int,
                            *kind,
                            gsrc,
                            *value_milli,
                            gun,
                            gds,
                        ));
                    };
                    assert(store.metric_rows() == tick_metrics(
                        old(store).metric_rows(),
                        ts as int,
                        rs.take(i + 1),
                    ));
                }
            },
            Err(_) => {},
        }
        i += 1;
    }
    proof {
        assert(rs.take(n as int) =~= rs);
    }
    stored
}

proof fn count_bounds(rs: Seq<Result<RawReading, SensorError>>)
    ensures
        0 <= ok_count(rs) <= rs.len(),
        0 <= battery_count(rs) <= rs.len(),
        0 <= metric_count(rs) <= rs.len(),
    decreases rs.len(),
{
    if rs.len() > 0 {
        count_bounds(rs.drop_last());
    }
}

} // verus!
