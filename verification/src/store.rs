use vstd::prelude::*;

use crate::sample::{
    wf_battery, wf_metric, BatterySample, BatterySampleV, MetricSample, MetricSampleV, MAX_ROWS,
};

verus! {

/// Why the store refused to append a record.
#[derive(Clone, Copy, Debug, PartialEq, Eq, Structural)]
pub enum StorageError {
    /// The record breaks a table constraint (a field out of range).
    InvalidSample,
    /// The table already holds as many rows as it may.
    CapacityExceeded,
}

/// Whether a timestamp lies inside a window with the given lower bound;
/// an absent bound admits every timestamp.
pub open spec fn in_window(ts: int, since: Option<int>) -> bool {
    match since {
        Some(s) => ts >= s,
        None => true,
    }
}

/// The mathematical value of a battery table.
pub open spec fn battery_rows_of(v: Seq<BatterySample>) -> Seq<BatterySampleV> {
    v.map(|i: int, s: BatterySample| s@)
}

/// The mathematical value of a metric table.
pub open spec fn metric_rows_of(v: Seq<MetricSample>) -> Seq<MetricSampleV> {
    v.map(|i: int, s: MetricSample| s@)
}

/// Battery rows are ordered by timestamp, ascending.
pub open spec fn sorted_battery(rows: Seq<BatterySampleV>) -> bool {
    forall|i: int, j: int| 0 <= i < j < rows.len() ==> rows[i].ts <= rows[j].ts
}

/// Metric rows are ordered by timestamp, ascending.
pub open spec fn sorted_metric(rows: Seq<MetricSampleV>) -> bool {
    forall|i: int, j: int| 0 <= i < j < rows.len() ==> rows[i].ts <= rows[j].ts
}

/// Where a row with timestamp `ts` is appended inside a sorted battery
/// table: after every row whose timestamp is at most `ts`.
pub open spec fn insert_pos_battery(rows: Seq<BatterySampleV>, ts: int) -> int
    decreases rows.len(),
{
    if rows.len() == 0 {
        0
    } else if rows.last().ts <= ts {
        rows.len() as int
    } else {
        insert_pos_battery(rows.drop_last(), ts)
    }
}

/// Where a row with timestamp `ts` is appended inside a sorted metric table.
pub open spec fn insert_pos_metric(rows: Seq<MetricSampleV>, ts: int) -> int
    decreases rows.len(),
{
    if rows.len() == 0 {
        0
    } else if rows.last().ts <= ts {
        rows.len() as int
    } else {
        insert_pos_metric(rows.drop_last(), ts)
    }
}

/// The battery rows whose timestamps lie inside the window, in table order.
pub open spec fn battery_window(rows: Seq<BatterySampleV>, since: Option<int>) -> Seq<
    BatterySampleV,
>
    decreases rows.len(),
{
    if rows.len() == 0 {
        Seq::empty()
    } else {
        let rest = battery_window(rows.drop_last(), since);
        if in_window(rows.last().ts, since) {
            rest.push(rows.last())
        } else {
            rest
        }
    }
}

/// The metric rows whose timestamps lie inside the window, in table order.
pub open spec fn metric_window(rows: Seq<MetricSampleV>, since: Option<int>) -> Seq<MetricSampleV>
    decreases rows.len(),
{
    if rows.len() == 0 {
        Seq::empty()
    } else {
        let rest = metric_window(rows.drop_last(), since);
        if in_window(rows.last().ts, since) {
            rest.push(rows.last())
        } else {
            rest
        }
    }
}

/// The most recent `limit` rows of a window, still in ascending order;
/// an absent or over-large limit keeps the whole window.
pub open spec fn metric_recent(w: Seq<MetricSampleV>, limit: Option<int>) -> Seq<MetricSampleV> {
    match limit {
        Some(l) => if 0 <= l < w.len() {
            w.skip(w.len() - l)
        } else {
            w
        },
        None => w,
    }
}

proof fn lemma_insert_pos_battery(rows: Seq<BatterySampleV>, ts: int)
    requires
        sorted_battery(rows),
    ensures
        0 <= insert_pos_battery(rows, ts) <= rows.len(),
        forall|j: int| 0 <= j < insert_pos_battery(rows, ts) ==> rows[j].ts <= ts,
        forall|j: int| insert_pos_battery(rows, ts) <= j < rows.len() ==> rows[j].ts > ts,
    decreases rows.len(),
{
    if rows.len() > 0 && rows.last().ts > ts {
        assert(sorted_battery(rows.drop_last()));
        lemma_insert_pos_battery(rows.drop_last(), ts);
        assert forall|j: int|
            insert_pos_battery(rows, ts) <= j < rows.len() implies rows[j].ts > ts by {
            if j < rows.len() - 1 {
                assert(rows.drop_last()[j].ts > ts);
            }
        }
        assert forall|j: int| 0 <= j < insert_pos_battery(rows, ts) implies rows[j].ts <= ts by {
            assert(rows[j] == rows.drop_last()[j]);
        }
    }
}

proof fn lemma_insert_pos_metric(rows: Seq<MetricSampleV>, ts: int)
    requires
        sorted_metric(rows),
    ensures
        0 <= insert_pos_metric(rows, ts) <= rows.len(),
        forall|j: int| 0 <= j < insert_pos_metric(rows, ts) ==> rows[j].ts <= ts,
        forall|j: int| insert_pos_metric(rows, ts) <= j < rows.len() ==> rows[j].ts > ts,
    decreases rows.len(),
{
    if rows.len() > 0 && rows.last().ts > ts {
        assert(sorted_metric(rows.drop_last()));
        lemma_insert_pos_metric(rows.drop_last(), ts);
        assert forall|j: int|
            insert_pos_metric(rows, ts) <= j < rows.len() implies rows[j].ts > ts by {
            if j < rows.len() - 1 {
                assert(rows.drop_last()[j].ts > ts);
            }
        }
        assert forall|j: int| 0 <= j < insert_pos_metric(rows, ts) implies rows[j].ts <= ts by {
            assert(rows[j] == rows.drop_last()[j]);
        }
    }
}

/// A windowed read of a sorted table of acceptable rows is itself sorted,
/// holds only acceptable rows inside the window, and is no longer than the
/// table.
pub proof fn lemma_battery_window_props(rows: Seq<BatterySampleV>, since: Option<int>)
    ensures
        battery_window(rows, since).len() <= rows.len(),
        sorted_battery(rows) ==> sorted_battery(battery_window(rows, since)),
        forall|j: int|
            0 <= j < battery_window(rows, since).len() ==> #[trigger] rows.contains(
                battery_window(rows, since)[j],
            ) && in_window(battery_window(rows, since)[j].ts, since),
        (forall|j: int| 0 <= j < rows.len() ==> wf_battery(#[trigger] rows[j])) ==> (forall|j: int|
            0 <= j < battery_window(rows, since).len() ==> wf_battery(
                #[trigger] battery_window(rows, since)[j],
            )),
    decreases rows.len(),
{
    if rows.len() > 0 {
        lemma_battery_window_props(rows.drop_last(), since);
        assert forall|j: int| 0 <= j < rows.drop_last().len() implies rows.contains(
            #[trigger] rows.drop_last()[j],
        ) by {
            assert(rows[j] == rows.drop_last()[j]);
        }
        assert forall|j: int|
            0 <= j < battery_window(rows, since).len() implies #[trigger] rows.contains(
            battery_window(rows, since)[j],
        ) && in_window(battery_window(rows, since)[j].ts, since) by {
            let w = battery_window(rows, since);
            let rest = battery_window(rows.drop_last(), since);
            if j < rest.len() {
                assert(rows.drop_last().contains(rest[j]));
                let k = choose|k: int| 0 <= k < rows.drop_last().len() && rows.drop_last()[k]
                    == rest[j];
                assert(rows[k] == rest[j]);
            } else {
                assert(w[j] == rows.last());
            }
        }
        if sorted_battery(rows) {
            assert(sorted_battery(rows.drop_last()));
            let w = battery_window(rows, since);
            let rest = battery_window(rows.drop_last(), since);
            assert forall|i: int, j: int| 0 <= i < j < w.len() implies w[i].ts <= w[j].ts by {
                if j == w.len() - 1 && in_window(rows.last().ts, since) && w.len() > rest.len() {
                    assert(rows.drop_last().contains(rest[i]));
                    let k = choose|k: int|
                        0 <= k < rows.drop_last().len() && rows.drop_last()[k] == rest[i];
                    assert(rows[k].ts <= rows.last().ts);
                }
            }
        }
    }
}

/// The append-only sample store: two independent tables, each kept in
/// ascending timestamp order, holding only acceptable rows.
pub struct SampleStore {
    battery: Vec<BatterySample>,
    metric: Vec<MetricSample>,
}

impl SampleStore {
    /// The battery table's rows, in table order.
    pub closed spec fn battery_rows(&self) -> Seq<BatterySampleV> {
        battery_rows_of(self.battery@)
    }

    /// The metric table's rows, in table order.
    pub closed spec fn metric_rows(&self) -> Seq<MetricSampleV> {
        metric_rows_of(self.metric@)
    }

    /// The store's invariant: both tables sorted by timestamp, every row
    /// acceptable, neither table over capacity.
    pub open spec fn wf(&self) -> bool {
        &&& sorted_battery(self.battery_rows())
        &&& sorted_metric(self.metric_rows())
        &&& forall|j: int|
            0 <= j < self.battery_rows().len() ==> wf_battery(#[trigger] self.battery_rows()[j])
        &&& forall|j: int|
            0 <= j < self.metric_rows().len() ==> wf_metric(#[trigger] self.metric_rows()[j])
        &&& self.battery_rows().len() <= MAX_ROWS
        &&& self.metric_rows().len() <= MAX_ROWS
    }

    /// An empty store.
    pub fn new() -> (r: SampleStore)
        ensures
            r.wf(),
            r.battery_rows() == Seq::<BatterySampleV>::empty(),
            r.metric_rows() == Seq::<MetricSampleV>::empty(),
    {
        let r = SampleStore { battery: Vec::new(), metric: Vec::new() };
        proof {
            assert(r.battery_rows() =~= Seq::<BatterySampleV>::empty());
            assert(r.metric_rows() =~= Seq::<MetricSampleV>::empty());
        }
        r
    }

    /// Appends one battery record in timestamp order.  A record out of range
    /// is refused, a full table is refused, and a refusal leaves the store
    /// unchanged; nothing is ever dropped silently.
    pub fn insert_battery(&mut self, s: BatterySample) -> (r: Result<(), StorageError>)
        requires
            old(self).wf(),
        ensures
            final(self).wf(),
            final(self).metric_rows() == old(self).metric_rows(),
            !wf_battery(s@) ==> r == Err::<(), StorageError>(StorageError::InvalidSample)
                && *final(self) == *old(self),
            wf_battery(s@) && old(self).battery_rows().len() >= MAX_ROWS ==> r == Err::<
                (),
                StorageError,
            >(StorageError::CapacityExceeded) && *final(self) == *old(self),
            wf_battery(s@) && old(self).battery_rows().len() < MAX_ROWS ==> r == Ok::<
                (),
                StorageError,
            >(()) && final(self).battery_rows() == old(self).battery_rows().insert(
                insert_pos_battery(old(self).battery_rows(), s@.ts),
                s@,
            ) && final(self).battery_rows().len() == old(self).battery_rows().len() + 1,
    {
        if !(self.battery_valid(&s)) {
            return Err(StorageError::InvalidSample);
        }
        if self.battery.len() >= MAX_ROWS {
            return Err(StorageError::CapacityExceeded);
        }
        let ghost rows = self.battery_rows();
        let mut idx: usize = self.battery.len();
        proof {
            assert(rows.take(idx as int) =~= rows);
        }
        while idx > 0 && self.battery[idx - 1].ts > s.ts
            invariant
                idx <= self.battery.len(),
                rows == self.battery_rows(),
                insert_pos_battery(rows, s@.ts) == insert_pos_battery(
                    rows.take(idx as int),
                    s@.ts,
                ),
            decreases idx,
        {
            proof {
                assert(rows.take(idx as int).last() == rows[idx - 1]);
                assert(rows.take(idx as int).drop_last() =~= rows.take(idx - 1));
            }
            idx -= 1;
        }
        proof {
            if idx > 0 {
                assert(rows.take(idx as int).last() == rows[idx - 1]);
            }
            assert(insert_pos_battery(rows, s@.ts) == idx);
            lemma_insert_pos_battery(rows, s@.ts);
        }
        self.battery.insert(idx, s);
        proof {
            let now = self.battery_rows();
            assert(now =~= rows.insert(idx as int, s@));
            assert forall|i: int, j: int| 0 <= i < j < now.len() implies now[i].ts <= now[j].ts by {
                assert(now == rows.insert(idx as int, s@));
            }
            assert forall|j: int| 0 <= j < now.len() implies wf_battery(#[trigger] now[j]) by {
                assert(now == rows.insert(idx as int, s@));
            }
        }
        Ok(())
    }

    /// Appends one metric record in timestamp order, under the same
    /// constraints as the battery table.
    pub fn insert_metric(&mut self, s: MetricSample) -> (r: Result<(), StorageError>)
        requires
            old(self).wf(),
        ensures
            final(self).wf(),
            final(self).battery_rows() == old(self).battery_rows(),
            !wf_metric(s@) ==> r == Err::<(), StorageError>(StorageError::InvalidSample)
                && *final(self) == *old(self),
            wf_metric(s@) && old(self).metric_rows().len() >= MAX_ROWS ==> r == Err::<
                (),
                StorageError,
            >(StorageError::CapacityExceeded) && *final(self) == *old(self),
            wf_metric(s@) && old(self).metric_rows().len() < MAX_ROWS ==> r == Ok::<
                (),
                StorageError,
            >(()) && final(self).metric_rows() == old(self).metric_rows().insert(
                insert_pos_metric(old(self).metric_rows(), s@.ts),
                s@,
            ) && final(self).metric_rows().len() == old(self).metric_rows().len() + 1,
    {
        if !(self.metric_valid(&s)) {
            return Err(StorageError::InvalidSample);
        }
        if self.metric.len() >= MAX_ROWS {
            return Err(StorageError::CapacityExceeded);
        }
        let ghost rows = self.metric_rows();
        let mut idx: usize = self.metric.len();
        proof {
            assert(rows.take(idx as int) =~= rows);
        }
        while idx > 0 && self.metric[idx - 1].ts > s.ts
            invariant
                idx <= self.metric.len(),
                rows == self.metric_rows(),
                insert_pos_metric(rows, s@.ts) == insert_pos_metric(rows.take(idx as int), s@.ts),
            decreases idx,
        {
            proof {
                assert(rows.take(idx as int).last() == rows[idx - 1]);
                assert(rows.take(idx as int).drop_last() =~= rows.take(idx - 1));
            }
            idx -= 1;
        }
        proof {
            if idx > 0 {
                assert(rows.take(idx as int).last() == rows[idx - 1]);
            }
            assert(insert_pos_metric(rows, s@.ts) == idx);
            lemma_insert_pos_metric(rows, s@.ts);
        }
        self.metric.insert(idx, s);
        proof {
            let now = self.metric_rows();
            assert(now =~= rows.insert(idx as int, s@));
            assert forall|i: int, j: int| 0 <= i < j < now.len() implies now[i].ts <= now[j].ts by {
                assert(now == rows.insert(idx as int, s@));
            }
            assert forall|j: int| 0 <= j < now.len() implies wf_metric(#[trigger] now[j]) by {
                assert(now == rows.insert(idx as int, s@));
            }
        }
        Ok(())
    }

    fn battery_valid(&self, s: &BatterySample) -> (r: bool)
        ensures
            r == wf_battery(s@),
    {
        let ts_ok = -crate::sample::MAX_TIMESTAMP <= s.ts && s.ts <= crate::sample::MAX_TIMESTAMP;
        let pct_ok = match s.percentage {
            Some(p) => p <= crate::sample::MAX_PERCENT_CENTI,
            None => true,
        };
        let power_ok = match s.power_mw {
            Some(p) => -crate::sample::MAX_POWER_MILLIWATTS <= p
                && p <= crate::sample::MAX_POWER_MILLIWATTS,
            None => true,
        };
        ts_ok && pct_ok && power_ok
    }

    fn metric_valid(&self, s: &MetricSample) -> (r: bool)
        ensures
            r == wf_metric(s@),
    {
        let ts_ok = -crate::sample::MAX_TIMESTAMP <= s.ts && s.ts <= crate::sample::MAX_TIMESTAMP;
        let value_ok = match s.value_milli {
            Some(v) => -crate::sample::MAX_VALUE_MILLI <= v && v <= crate::sample::MAX_VALUE_MILLI,
            None => true,
        };
        if !(ts_ok && value_ok) {
            return false;
        }
        let mut i: usize = 0;
        while i < s.details.len()
            invariant
                i <= s.details.len(),
                forall|j: int|
                    0 <= j < i ==> -crate::sample::MAX_VALUE_MILLI <= #[trigger] s@.details[j].1
                        <= crate::sample::MAX_VALUE_MILLI,
            decreases s.details.len() - i,
        {
            let v = s.details[i].1;
            if !(-crate::sample::MAX_VALUE_MILLI <= v && v <= crate::sample::MAX_VALUE_MILLI) {
                proof {
                    assert(s@.details[i as int].1 == v as int);
                }
                return false;
            }
            proof {
                assert(s@.details[i as int].1 == v as int);
            }
            i += 1;
        }
        true
    }

    /// How many battery rows lie inside the window.
    pub fn count_battery(&self, since: Option<i64>) -> (n: usize)
        requires
            self.wf(),
        ensures
            n == battery_window(self.battery_rows(), since_view(since)).len(),
    {
        let ghost rows = self.battery_rows();
        let mut n: usize = 0;
        let mut i: usize = 0;
        proof {
            assert(rows.take(0) =~= Seq::<BatterySampleV>::empty());
        }
        while i < self.battery.len()
            invariant
                self.wf(),
                rows == self.battery_rows(),
                i <= self.battery.len(),
                n <= i,
                n == battery_window(rows.take(i as int), since_view(since)).len(),
            decreases self.battery.len() - i,
        {
            proof {
                assert(rows.take(i + 1).drop_last() =~= rows.take(i as int));
                assert(rows.take(i + 1).last() == rows[i as int]);
            }
            let hit = match since {
                Some(b) => self.battery[i].ts >= b,
                None => true,
            };
            if hit {
                n += 1;
            }
            i += 1;
        }
        proof {
            assert(rows.take(i as int) =~= rows);
        }
        n
    }

    /// How many metric rows lie inside the window.
    pub fn count_metric(&self, since: Option<i64>) -> (n: usize)
        requires
            self.wf(),
        ensures
            n == metric_window(self.metric_rows(), since_view(since)).len(),
    {
        let ghost rows = self.metric_rows();
        let mut n: usize = 0;
        let mut i: usize = 0;
        proof {
            assert(rows.take(0) =~= Seq::<MetricSampleV>::empty());
        }
        while i < self.metric.len()
            invariant
                self.wf(),
                rows == self.metric_rows(),
                i <= self.metric.len(),
                n <= i,
                n == metric_window(rows.take(i as int), since_view(since)).len(),
            decreases self.metric.len() - i,
        {
            proof {
                assert(rows.take(i + 1).drop_last() =~= rows.take(i as int));
                assert(rows.take(i + 1).last() == rows[i as int]);
            }
            let hit = match since {
                Some(b) => self.metric[i].ts >= b,
                None => true,
            };
            if hit {
                n += 1;
            }
            i += 1;
        }
        proof {
            assert(rows.take(i as int) =~= rows);
        }
        n
    }

    /// The battery rows inside the window, ascending by timestamp.
    pub fn fetch_battery(&self, since: Option<i64>) -> (out: Vec<BatterySample>)
        requires
            self.wf(),
        ensures
            battery_rows_of(out@) == battery_window(self.battery_rows(), since_view(since)),
    {
        let ghost rows = self.battery_rows();
        let mut out: Vec<BatterySample> = Vec::new();
        let mut i: usize = 0;
        proof {
            assert(rows.take(0) =~= Seq::<BatterySampleV>::empty());
            assert(battery_rows_of(out@) =~= Seq::<BatterySampleV>::empty());
        }
        while i < self.battery.len()
            invariant
                self.wf(),
                rows == self.battery_rows(),
                i <= self.battery.len(),
                battery_rows_of(out@) == battery_window(rows.take(i as int), since_view(since)),
            decreases self.battery.len() - i,
        {
            proof {
                assert(rows.take(i + 1).drop_last() =~= rows.take(i as int));
                assert(rows.take(i + 1).last() == rows[i as int]);
            }
            let hit = match since {
                Some(b) => self.battery[i].ts >= b,
                None => true,
            };
            if hit {
                let d = self.battery[i].duplicate();
                proof {
                    assert(battery_rows_of(out@.push(d)) =~= battery_rows_of(out@).push(
                        rows[i as int],
                    ));
                }
                out.push(d);
            }
            i += 1;
        }
        proof {
            assert(rows.take(i as int) =~= rows);
        }
        out
    }

    /// The metric rows inside the window, ascending by timestamp; when a
    /// limit is given, only the most recent `limit` of them are kept.
    /// How many seconds of history the store covers, from its earliest to
    /// its latest timestamp across both tables; zero for an empty store.
    pub fn history_extent_seconds(&self) -> (r: i64)
        requires
            self.wf(),
        ensures
            r == history_extent_spec(self.battery_rows(), self.metric_rows()),
            0 <= r <= 2 * crate::sample::MAX_TIMESTAMP,
    {
        let nb: usize = self.battery.len();
        let nm: usize = self.metric.len();
        proof {
            if nb > 0 {
                assert(wf_battery(self.battery_rows()[0]));
                assert(wf_battery(self.battery_rows()[nb - 1]));
                assert(self.battery_rows()[0] == self.battery@[0]@);
                assert(self.battery_rows()[nb - 1] == self.battery@[nb - 1]@);
            }
            if nm > 0 {
                assert(wf_metric(self.metric_rows()[0]));
                assert(wf_metric(self.metric_rows()[nm - 1]));
                assert(self.metric_rows()[0] == self.metric@[0]@);
                assert(self.metric_rows()[nm - 1] == self.metric@[nm - 1]@);
            }
        }
        if nb == 0 && nm == 0 {
            0
        } else if nm == 0 {
            self.battery[nb - 1].ts - self.battery[0].ts
        } else if nb == 0 {
            self.metric[nm - 1].ts - self.metric[0].ts
        } else {
            let lo: i64 = if self.battery[0].ts <= self.metric[0].ts {
                self.battery[0].ts
            } else {
                self.metric[0].ts
            };
            let hi: i64 = if self.battery[nb - 1].ts >= self.metric[nm - 1].ts {
                self.battery[nb - 1].ts
            } else {
                self.metric[nm - 1].ts
            };
            hi - lo
        }
    }

    pub fn fetch_metric(&self, since: Option<i64>, limit: Option<usize>) -> (out: Vec<MetricSample>)
        requires
            self.wf(),
        ensures
            metric_rows_of(out@) == metric_recent(
                metric_window(self.metric_rows(), since_view(since)),
                limit_view(limit),
            ),
    {
        let ghost rows = self.metric_rows();
        let mut full: Vec<MetricSample> = Vec::new();
        let mut i: usize = 0;
        proof {
            assert(rows.take(0) =~= Seq::<MetricSampleV>::empty());
            assert(metric_rows_of(full@) =~= Seq::<MetricSampleV>::empty());
        }
        while i < self.metric.len()
            invariant
                self.wf(),
                rows == self.metric_rows(),
                i <= self.metric.len(),
                metric_rows_of(full@) == metric_window(rows.take(i as int), since_view(since)),
            decreases self.metric.len() - i,
        {
            proof {
                assert(rows.take(i + 1).drop_last() =~= rows.take(i as int));
                assert(rows.take(i + 1).last() == rows[i as int]);
            }
            let hit = match since {
                Some(b) => self.metric[i].ts >= b,
                None => true,
            };
            if hit {
                let d = self.metric[i].duplicate();
                proof {
                    assert(metric_rows_of(full@.push(d)) =~= metric_rows_of(full@).push(
                        rows[i as int],
                    ));
                }
                full.push(d);
            }
            i += 1;
        }
        proof {
            assert(rows.take(i as int) =~= rows);
        }
        let ghost w = metric_window(rows, since_view(since));
        let start: usize = match limit {
            Some(l) => if l < full.len() {
                full.len() - l
            } else {
                0
            },
            None => 0,
        };
        if start == 0 {
            proof {
                assert(w.skip(0) =~= w);
                assert(metric_rows_of(full@) == metric_recent(w, limit_view(limit)));
            }
            return full;
        }
        let mut out: Vec<MetricSample> = Vec::new();
        let mut j: usize = start;
        proof {
            assert(metric_rows_of(out@) =~= metric_rows_of(full@).subrange(
                start as int,
                start as int,
            ));
        }
        while j < full.len()
            invariant
                start <= j <= full.len(),
                metric_rows_of(full@) == w,
                metric_rows_of(out@) == metric_rows_of(full@).subrange(start as int, j as int),
            decreases full.len() - j,
        {
            let d = full[j].duplicate();
            proof {
                assert(metric_rows_of(out@.push(d)) =~= metric_rows_of(out@).push(d@));
                assert(metric_rows_of(out@).push(d@) =~= metric_rows_of(full@).subrange(
                    start as int,
                    j + 1,
                ));
            }
            out.push(d);
            j += 1;
        }
        proof {
            assert(metric_rows_of(full@).subrange(start as int, full@.len() as int) =~= w.skip(
                start as int,
            ));
        }
        out
    }
}

/// The stretch from the earliest to the latest timestamp across two
/// sorted tables; zero when both are empty.
pub open spec fn history_extent_spec(b: Seq<BatterySampleV>, m: Seq<MetricSampleV>) -> int {
    if b.len() == 0 && m.len() == 0 {
        0
    } else if m.len() == 0 {
        b.last().ts - b[0].ts
    } else if b.len() == 0 {
        m.last().ts - m[0].ts
    } else {
        let lo = if b[0].ts <= m[0].ts {
            b[0].ts
        } else {
            m[0].ts
        };
        let hi = if b.last().ts >= m.last().ts {
            b.last().ts
        } else {
            m.last().ts
        };
        hi - lo
    }
}

/// The window bound as a mathematical value.
pub open spec fn since_view(since: Option<i64>) -> Option<int> {
    match since {
        Some(s) => Some(s as int),
        None => None,
    }
}

/// The row limit as a mathematical value.
pub open spec fn limit_view(limit: Option<usize>) -> Option<int> {
    match limit {
        Some(l) => Some(l as int),
        None => None,
    }
}

/// Law: a sample inserted into an empty store and then fetched with no lower
/// bound comes back unchanged as the sole row: the empty table's insertion
/// point is the front, and an unbounded window keeps the single row as it is.
pub proof fn lemma_insert_then_fetch_roundtrip(s: BatterySampleV)
    ensures
        insert_pos_battery(Seq::<BatterySampleV>::empty(), s.ts) == 0,
        Seq::<BatterySampleV>::empty().insert(0, s) == seq![s],
        battery_window(seq![s], None) == seq![s],
{
    assert(Seq::<BatterySampleV>::empty().insert(0, s) =~= seq![s]);
    assert(seq![s].drop_last() =~= Seq::<BatterySampleV>::empty());
    assert(battery_window(Seq::<BatterySampleV>::empty(), None)
        == Seq::<BatterySampleV>::empty());
    assert(battery_window(seq![s], None) =~= seq![s]);
}

} // verus!
