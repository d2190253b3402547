use vstd::prelude::*;

verus! {

/// A full charge, in hundredths of a percent.
pub const MAX_PERCENT_CENTI: u64 = 10000;

/// Largest power magnitude a sample may carry, in milliwatts (ten megawatts).
pub const MAX_POWER_MILLIWATTS: i64 = 10000000000;

/// Largest metric reading magnitude, in thousandths of the reading's unit.
pub const MAX_VALUE_MILLI: i64 = 1000000000000000000;

/// Largest timestamp magnitude, in seconds since the epoch.
pub const MAX_TIMESTAMP: i64 = 4000000000000;

/// Most rows one store table may hold.
pub const MAX_ROWS: usize = 100000000;

/// The kind of a non-battery metric reading.
#[derive(Clone, Copy, Debug, PartialEq, Eq, Structural)]
pub enum MetricKind {
    CpuUsage,
    CpuFrequency,
    GpuUsage,
    GpuFrequency,
    NetworkBytes,
    MemoryUsage,
    DiskUsage,
    Temperature,
    PowerDraw,
}

/// One reading of the system battery at a timestamp.
///
/// `percentage` is in hundredths of a percent (absent when unreadable),
/// `power_mw` in signed milliwatts: positive while charging, negative while
/// discharging, absent when the sensor exposes no power reading.
pub struct BatterySample {
    pub ts: i64,
    pub percentage: Option<u64>,
    pub status: Option<String>,
    pub power_mw: Option<i64>,
}

/// The mathematical value of a battery sample.
pub struct BatterySampleV {
    pub ts: int,
    pub percentage: Option<int>,
    pub status: Option<Seq<char>>,
    pub power_mw: Option<int>,
}

impl View for BatterySample {
    type V = BatterySampleV;

    open spec fn view(&self) -> BatterySampleV {
        BatterySampleV {
            ts: self.ts as int,
            percentage: match self.percentage {
                Some(p) => Some(p as int),
                None => None,
            },
            status: match self.status {
                Some(s) => Some(s@),
                None => None,
            },
            power_mw: match self.power_mw {
                Some(p) => Some(p as int),
                None => None,
            },
        }
    }
}

/// A battery sample the store accepts: the percentage is at most a full
/// charge, the power magnitude and the timestamp are within machine bounds.
pub open spec fn wf_battery(s: BatterySampleV) -> bool {
    &&& -MAX_TIMESTAMP <= s.ts <= MAX_TIMESTAMP
    &&& match s.percentage {
        Some(p) => 0 <= p <= MAX_PERCENT_CENTI,
        None => true,
    }
    &&& match s.power_mw {
        Some(p) => -MAX_POWER_MILLIWATTS <= p <= MAX_POWER_MILLIWATTS,
        None => true,
    }
}

impl BatterySample {
    /// A field-for-field copy of the sample.
    pub fn duplicate(&self) -> (r: BatterySample)
        ensures
            r@ == self@,
    {
        BatterySample {
            ts: self.ts,
            percentage: self.percentage,
            status: match &self.status {
                Some(s) => Some(s.clone()),
                None => None,
            },
            power_mw: self.power_mw,
        }
    }
}

/// One reading of a non-battery metric.
///
/// `value_milli` is the primary reading in thousandths of `unit`;
/// `details` carries kind-specific auxiliary numbers keyed by name
/// (byte totals for network, memory and disk readings).
pub struct MetricSample {
    pub ts: i64,
    pub kind: MetricKind,
    pub source: String,
    pub value_milli: Option<i64>,
    pub unit: Option<String>,
    pub details: Vec<(String, i64)>,
}

/// The mathematical value of a metric sample.
pub struct MetricSampleV {
    pub ts: int,
    pub kind: MetricKind,
    pub source: Seq<char>,
    pub value_milli: Option<int>,
    pub unit: Option<Seq<char>>,
    pub details: Seq<(Seq<char>, int)>,
}

/// The mathematical value of a detail list.
pub open spec fn details_view(d: Seq<(String, i64)>) -> Seq<(Seq<char>, int)> {
    d.map(|i: int, p: (String, i64)| (p.0@, p.1 as int))
}

impl View for MetricSample {
    type V = MetricSampleV;

    open spec fn view(&self) -> MetricSampleV {
        MetricSampleV {
            ts: self.ts as int,
            kind: self.kind,
            source: self.source@,
            value_milli: match self.value_milli {
                Some(v) => Some(v as int),
                None => None,
            },
            unit: match self.unit {
                Some(u) => Some(u@),
                None => None,
            },
            details: details_view(self.details@),
        }
    }
}

/// A metric sample the store accepts: the timestamp, the reading and every
/// detail number are within machine bounds.
pub open spec fn wf_metric(s: MetricSampleV) -> bool {
    &&& -MAX_TIMESTAMP <= s.ts <= MAX_TIMESTAMP
    &&& match s.value_milli {
        Some(v) => -MAX_VALUE_MILLI <= v <= MAX_VALUE_MILLI,
        None => true,
    }
    &&& forall|i: int| 0 <= i < s.details.len() ==> -MAX_VALUE_MILLI <= #[trigger] s.details[i].1 <= MAX_VALUE_MILLI
}

impl MetricSample {
    /// A field-for-field copy of the sample.
    pub fn duplicate(&self) -> (r: MetricSample)
        ensures
            r@ == self@,
    {
        let mut details: Vec<(String, i64)> = Vec::new();
        let mut i: usize = 0;
        while i < self.details.len()
            invariant
                i <= self.details.len(),
                details@.len() == i,
                details_view(details@) == details_view(self.details@).take(i as int),
            decreases self.details.len() - i,
        {
            let entry = (self.details[i].0.clone(), self.details[i].1);
            proof {
                assert forall|j: int|
                    0 <= j < i + 1 implies #[trigger] details_view(details@.push(entry))[j]
                    == details_view(self.details@).take(i + 1)[j] by {
                    if j < i {
                        assert(details@.push(entry)[j] == details@[j]);
                        assert(details_view(details@)[j] == details_view(self.details@).take(
                            i as int,
                        )[j]);
                    } else {
                        assert(details@.push(entry)[j] == entry);
                    }
                }
                assert(details_view(details@.push(entry)) =~= details_view(self.details@).take(
                    i + 1,
                ));
            }
            details.push(entry);
            i += 1;
        }
        proof {
            assert(details_view(details@) =~= details_view(self.details@));
        }
        let r = MetricSample {
            ts: self.ts,
            kind: self.kind,
            source: self.source.clone(),
            value_milli: self.value_milli,
            unit: match &self.unit {
                Some(u) => Some(u.clone()),
                None => None,
            },
            details,
        };
        proof {
            assert(r@ == self@) by {
                assert(r@.details =~= self@.details);
            }
        }
        r
    }
}

} // verus!
