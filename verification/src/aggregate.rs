use vstd::prelude::*;

use crate::sample::{wf_battery, BatterySample, BatterySampleV, MAX_ROWS};
use crate::store::{battery_rows_of, sorted_battery};
use crate::strutil::{chars_eq, lex_le, str_lex_le};

verus! {

/// The status tag that never wins a merge.
pub open spec fn unknown_chars() -> Seq<char> {
    "unknown"@
}

/// Sum of the present percentages in a group.
pub open spec fn pct_sum(g: Seq<BatterySampleV>) -> int
    decreases g.len(),
{
    if g.len() == 0 {
        0
    } else {
        pct_sum(g.drop_last()) + match g.last().percentage {
            Some(p) => p,
            None => 0,
        }
    }
}

/// How many percentages are present in a group.
pub open spec fn pct_cnt(g: Seq<BatterySampleV>) -> int
    decreases g.len(),
{
    if g.len() == 0 {
        0
    } else {
        pct_cnt(g.drop_last()) + match g.last().percentage {
            Some(p) => 1int,
            None => 0int,
        }
    }
}

/// Sum of the present power readings in a group.
pub open spec fn power_sum(g: Seq<BatterySampleV>) -> int
    decreases g.len(),
{
    if g.len() == 0 {
        0
    } else {
        power_sum(g.drop_last()) + match g.last().power_mw {
            Some(p) => p,
            None => 0,
        }
    }
}

/// How many power readings are present in a group.
pub open spec fn power_cnt(g: Seq<BatterySampleV>) -> int
    decreases g.len(),
{
    if g.len() == 0 {
        0
    } else {
        power_cnt(g.drop_last()) + match g.last().power_mw {
            Some(p) => 1int,
            None => 0int,
        }
    }
}

/// The lexicographically-last status among the present, non-unknown statuses
/// of a group, walking the group left to right.
pub open spec fn status_best(g: Seq<BatterySampleV>) -> Option<Seq<char>>
    decreases g.len(),
{
    if g.len() == 0 {
        None
    } else {
        let rest = status_best(g.drop_last());
        match g.last().status {
            Some(t) => if t != unknown_chars() && (rest is None || lex_le(rest->0, t)) {
                Some(t)
            } else {
                rest
            },
            None => rest,
        }
    }
}

/// Whether any status at all is present in a group.
pub open spec fn any_status(g: Seq<BatterySampleV>) -> bool
    decreases g.len(),
{
    if g.len() == 0 {
        false
    } else {
        any_status(g.drop_last()) || g.last().status is Some
    }
}

/// One representative row for a group of rows sharing a timestamp: the mean
/// of the present percentages, the sum of the present power readings (total
/// system battery power), and the lexicographically-last non-unknown status
/// (the unknown tag when statuses are present but all unknown).
pub open spec fn merge_group(g: Seq<BatterySampleV>) -> BatterySampleV
    recommends
        g.len() > 0,
{
    BatterySampleV {
        ts: g[0].ts,
        percentage: if pct_cnt(g) > 0 {
            Some(pct_sum(g) / pct_cnt(g))
        } else {
            None
        },
        status: match status_best(g) {
            Some(t) => Some(t),
            None => if any_status(g) {
                Some(unknown_chars())
            } else {
                None
            },
        },
        power_mw: if power_cnt(g) > 0 {
            Some(power_sum(g))
        } else {
            None
        },
    }
}

/// How many leading rows share the first row's timestamp.
pub open spec fn run_len(s: Seq<BatterySampleV>) -> int
    decreases s.len(),
{
    if s.len() == 0 {
        0
    } else if s.len() == 1 {
        1
    } else if s[1].ts == s[0].ts {
        1 + run_len(s.skip(1))
    } else {
        1
    }
}

proof fn lemma_run_len_bounds(s: Seq<BatterySampleV>)
    requires
        s.len() > 0,
    ensures
        1 <= run_len(s) <= s.len(),
    decreases s.len(),
{
    if s.len() > 1 && s[1].ts == s[0].ts {
        lemma_run_len_bounds(s.skip(1));
    }
}

/// The leading run is exactly the rows up to the first timestamp change.
proof fn lemma_run_len_eq(s: Seq<BatterySampleV>, k: int)
    requires
        s.len() > 0,
        1 <= k <= s.len(),
        forall|x: int| 0 <= x < k ==> #[trigger] s[x].ts == s[0].ts,
        k < s.len() ==> s[k].ts != s[0].ts,
    ensures
        run_len(s) == k,
    decreases s.len(),
{
    if s.len() == 1 {
    } else if s[1].ts == s[0].ts {
        assert(k >= 2) by {
            if k == 1 {
                assert(s[1].ts != s[0].ts);
            }
        }
        let t = s.skip(1);
        assert forall|x: int| 0 <= x < k - 1 implies #[trigger] t[x].ts == t[0].ts by {
            assert(t[x] == s[x + 1]);
            assert(t[0] == s[1]);
        }
        if k - 1 < t.len() {
            assert(t[k - 1] == s[k]);
        }
        lemma_run_len_eq(t, k - 1);
    } else {
        assert(k == 1) by {
            if k >= 2 {
                assert(s[1].ts == s[0].ts);
            }
        }
    }
}

/// The merged table: one representative row per leading run, in order.
pub open spec fn aggregate_spec(s: Seq<BatterySampleV>) -> Seq<BatterySampleV>
    decreases s.len(),
    via aggregate_spec_decreases
{
    if s.len() == 0 {
        Seq::empty()
    } else {
        seq![merge_group(s.take(run_len(s)))] + aggregate_spec(s.skip(run_len(s)))
    }
}

#[via_fn]
proof fn aggregate_spec_decreases(s: Seq<BatterySampleV>) {
    if s.len() > 0 {
        lemma_run_len_bounds(s);
    }
}

/// Merges rows that share a timestamp into one representative row per
/// timestamp, walking the table in order.  On a table sorted by timestamp
/// the result has exactly one row per distinct timestamp.
pub fn aggregate_samples_by_timestamp(samples: &Vec<BatterySample>) -> (out: Vec<BatterySample>)
    requires
        samples@.len() <= MAX_ROWS,
        forall|j: int| 0 <= j < samples@.len() ==> wf_battery(#[trigger] battery_rows_of(samples@)[j]),
    ensures
        battery_rows_of(out@) == aggregate_spec(battery_rows_of(samples@)),
{
    let ghost rows = battery_rows_of(samples@);
    let n: usize = samples.len();
    let mut out: Vec<BatterySample> = Vec::new();
    let mut i: usize = 0;
    proof {
        assert(battery_rows_of(out@) =~= Seq::<BatterySampleV>::empty());
        assert(rows.skip(0) =~= rows);
        assert(battery_rows_of(out@) + aggregate_spec(rows) =~= aggregate_spec(rows));
    }
    while i < n
        invariant
            i <= n,
            n == samples@.len(),
            n <= MAX_ROWS,
            rows == battery_rows_of(samples@),
            forall|j: int| 0 <= j < rows.len() ==> wf_battery(#[trigger] rows[j]),
            aggregate_spec(rows) == battery_rows_of(out@) + aggregate_spec(rows.skip(i as int)),
        decreases n - i,
    {
        let ts: i64 = samples[i].ts;
        let mut j: usize = i;
        let mut psum: u64 = 0;
        let mut pcnt: u64 = 0;
        let mut wsum: i64 = 0;
        let mut wcnt: u64 = 0;
        let mut best: Option<String> = None;
        let mut any: bool = false;
        proof {
            assert(rows.subrange(i as int, i as int) =~= Seq::<BatterySampleV>::empty());
        }
        while j < n && samples[j].ts == ts
            invariant
                i <= j <= n,
                n == samples@.len(),
                n <= MAX_ROWS,
                rows == battery_rows_of(samples@),
                forall|k: int| 0 <= k < rows.len() ==> wf_battery(#[trigger] rows[k]),
                ts == rows[i as int].ts,
                i < n,
                forall|k: int| i <= k < j ==> #[trigger] rows[k].ts == ts,
                psum == pct_sum(rows.subrange(i as int, j as int)),
                pcnt == pct_cnt(rows.subrange(i as int, j as int)),
                wsum == power_sum(rows.subrange(i as int, j as int)),
                wcnt == power_cnt(rows.subrange(i as int, j as int)),
                psum <= (j - i) * 10000,
                pcnt <= (j - i),
                wcnt <= (j - i),
                -((j - i) as int) * 10000000000 <= wsum <= ((j - i) as int) * 10000000000,
                match best {
                    Some(b) => status_best(rows.subrange(i as int, j as int)) == Some(b@),
                    None => status_best(rows.subrange(i as int, j as int)) is None,
                },
                any == any_status(rows.subrange(i as int, j as int)),
            decreases n - j,
        {
            let ghost g = rows.subrange(i as int, j as int);
            let ghost g2 = rows.subrange(i as int, j + 1);
            proof {
                assert(g2.drop_last() =~= g);
                assert(g2.last() == rows[j as int]);
            }
            match samples[j].percentage {
                Some(p) => {
                    psum += p;
                    pcnt += 1;
                },
                None => {},
            }
            match samples[j].power_mw {
                Some(p) => {
                    wsum += p;
                    wcnt += 1;
                },
                None => {},
            }
            match &samples[j].status {
                Some(s) => {
                    any = true;
                    if !chars_eq(s.as_str(), "unknown") {
                        let take = match &best {
                            None => true,
                            Some(b) => str_lex_le(b.as_str(), s.as_str()),
                        };
                        if take {
                            best = Some(s.clone());
                        }
                    }
                },
                None => {},
            }
            j += 1;
        }
        let ghost g = rows.subrange(i as int, j as int);
        proof {
            let t = rows.skip(i as int);
            assert forall|x: int| 0 <= x < j - i implies #[trigger] t[x].ts == t[0].ts by {
                assert(t[x] == rows[i + x]);
                assert(rows[i + x].ts == ts);
            }
            if j < n {
                assert(t[j - i] == rows[j as int]);
            }
            lemma_run_len_eq(t, j - i);
            assert(t.take(j - i) =~= g);
            assert(t.skip(j - i) =~= rows.skip(j as int));
        }
        let merged = BatterySample {
            ts,
            percentage: if pcnt > 0 {
                Some(psum / pcnt)
            } else {
                None
            },
            status: match best {
                Some(b) => Some(b),
                None => if any {
                    Some(String::from_str("unknown"))
                } else {
                    None
                },
            },
            power_mw: if wcnt > 0 {
                Some(wsum)
            } else {
                None
            },
        };
        proof {
            assert(g[0] == rows[i as int]);
            assert(merged@ == merge_group(g));
            assert(battery_rows_of(out@.push(merged)) =~= battery_rows_of(out@).push(merged@));
            assert(battery_rows_of(out@).push(merge_group(g)) + aggregate_spec(rows.skip(j as int))
                =~= battery_rows_of(out@) + (seq![merge_group(g)] + aggregate_spec(
                rows.skip(j as int),
            )));
        }
        out.push(merged);
        i = j;
    }
    proof {
        assert(rows.skip(n as int) =~= Seq::<BatterySampleV>::empty());
        assert(aggregate_spec(Seq::<BatterySampleV>::empty()) == Seq::<BatterySampleV>::empty());
        assert(battery_rows_of(out@) + Seq::<BatterySampleV>::empty() =~= battery_rows_of(out@));
    }
    out
}

/// The leading run's rows all share the first timestamp, and the row after
/// the run, if any, differs.
proof fn lemma_run_break(s: Seq<BatterySampleV>)
    requires
        s.len() > 0,
    ensures
        forall|x: int| 0 <= x < run_len(s) ==> #[trigger] s[x].ts == s[0].ts,
        run_len(s) < s.len() ==> s[run_len(s)].ts != s[0].ts,
    decreases s.len(),
{
    lemma_run_len_bounds(s);
    if s.len() > 1 && s[1].ts == s[0].ts {
        let t = s.skip(1);
        lemma_run_len_bounds(t);
        lemma_run_break(t);
        assert forall|x: int| 0 <= x < run_len(s) implies #[trigger] s[x].ts == s[0].ts by {
            if x > 0 {
                assert(t[x - 1].ts == t[0].ts);
                assert(t[x - 1] == s[x]);
            }
        }
        if run_len(s) < s.len() {
            assert(t[run_len(t)] == s[run_len(s)]);
        }
    }
}

/// Law: merging a table sorted by timestamp leaves exactly one row per
/// distinct timestamp: the merged timestamps are strictly increasing, and
/// the first merged row sits at the first input timestamp.
pub proof fn lemma_aggregate_distinct_timestamps(s: Seq<BatterySampleV>)
    requires
        sorted_battery(s),
    ensures
        forall|a: int, b: int|
            0 <= a < b < aggregate_spec(s).len() ==> #[trigger] aggregate_spec(s)[a].ts
                < #[trigger] aggregate_spec(s)[b].ts,
        s.len() > 0 ==> aggregate_spec(s).len() >= 1 && aggregate_spec(s)[0].ts == s[0].ts,
        forall|a: int|
            0 <= a < aggregate_spec(s).len() ==> s.len() > 0 && #[trigger] aggregate_spec(s)[a].ts
                >= s[0].ts,
    decreases s.len(),
{
    if s.len() > 0 {
        lemma_run_len_bounds(s);
        lemma_run_break(s);
        let k = run_len(s);
        let g = s.take(k);
        let rest = s.skip(k);
        assert(sorted_battery(rest)) by {
            assert forall|a: int, b: int| 0 <= a < b < rest.len() implies rest[a].ts
                <= rest[b].ts by {
                assert(rest[a] == s[k + a]);
                assert(rest[b] == s[k + b]);
            }
        }
        lemma_aggregate_distinct_timestamps(rest);
        assert(g[0] == s[0]);
        assert(merge_group(g).ts == s[0].ts);
        if rest.len() > 0 {
            assert(rest[0] == s[k as int]);
            assert(rest[0].ts > s[0].ts);
        }
        let w = aggregate_spec(s);
        assert(w == seq![merge_group(g)] + aggregate_spec(rest));
        assert forall|a: int, b: int| 0 <= a < b < w.len() implies #[trigger] w[a].ts
            < #[trigger] w[b].ts by {
            assert(w[b] == aggregate_spec(rest)[b - 1]);
            if a > 0 {
                assert(w[a] == aggregate_spec(rest)[a - 1]);
            }
        }
        assert forall|a: int| 0 <= a < w.len() implies #[trigger] w[a].ts >= s[0].ts by {
            if a > 0 {
                assert(w[a] == aggregate_spec(rest)[a - 1]);
            }
        }
    }
}

/// Law: rows sharing one timestamp merge into exactly one row, whose
/// percentage is the mean of the present percentages (absent when none is).
pub proof fn lemma_aggregate_single_timestamp(s: Seq<BatterySampleV>)
    requires
        s.len() > 0,
        forall|i: int| 0 <= i < s.len() ==> #[trigger] s[i].ts == s[0].ts,
    ensures
        aggregate_spec(s).len() == 1,
        aggregate_spec(s)[0] == merge_group(s),
        aggregate_spec(s)[0].ts == s[0].ts,
        pct_cnt(s) > 0 ==> aggregate_spec(s)[0].percentage == Some(pct_sum(s) / pct_cnt(s)),
        pct_cnt(s) == 0 ==> aggregate_spec(s)[0].percentage is None,
{
    lemma_run_len_eq(s, s.len() as int);
    assert(s.take(s.len() as int) =~= s);
    assert(s.skip(s.len() as int) =~= Seq::<BatterySampleV>::empty());
    assert(aggregate_spec(Seq::<BatterySampleV>::empty()) == Seq::<BatterySampleV>::empty());
    assert(aggregate_spec(s) == seq![merge_group(s)] + Seq::<BatterySampleV>::empty());
    assert(aggregate_spec(s) =~= seq![merge_group(s)]);
}

/// Sum of the present percentages among the rows at timestamp `t`.
pub open spec fn pct_sum_at(s: Seq<BatterySampleV>, t: int) -> int
    decreases s.len(),
{
    if s.len() == 0 {
        0
    } else {
        pct_sum_at(s.drop_last(), t) + if s.last().ts == t {
            match s.last().percentage {
                Some(p) => p,
                None => 0,
            }
        } else {
            0
        }
    }
}

/// How many percentages are present among the rows at timestamp `t`.
pub open spec fn pct_cnt_at(s: Seq<BatterySampleV>, t: int) -> int
    decreases s.len(),
{
    if s.len() == 0 {
        0
    } else {
        pct_cnt_at(s.drop_last(), t) + if s.last().ts == t {
            match s.last().percentage {
                Some(p) => 1int,
                None => 0int,
            }
        } else {
            0
        }
    }
}

proof fn lemma_at_of_uniform(g: Seq<BatterySampleV>, t: int)
    requires
        forall|x: int| 0 <= x < g.len() ==> #[trigger] g[x].ts == t,
    ensures
        pct_sum_at(g, t) == pct_sum(g),
        pct_cnt_at(g, t) == pct_cnt(g),
    decreases g.len(),
{
    if g.len() > 0 {
        assert forall|x: int| 0 <= x < g.drop_last().len() implies #[trigger] g.drop_last()[x].ts
            == t by {
            assert(g.drop_last()[x] == g[x]);
        }
        lemma_at_of_uniform(g.drop_last(), t);
    }
}

proof fn lemma_at_of_absent(g: Seq<BatterySampleV>, t: int)
    requires
        forall|x: int| 0 <= x < g.len() ==> #[trigger] g[x].ts != t,
    ensures
        pct_sum_at(g, t) == 0,
        pct_cnt_at(g, t) == 0,
    decreases g.len(),
{
    if g.len() > 0 {
        assert forall|x: int| 0 <= x < g.drop_last().len() implies #[trigger] g.drop_last()[x].ts
            != t by {
            assert(g.drop_last()[x] == g[x]);
        }
        lemma_at_of_absent(g.drop_last(), t);
    }
}

proof fn lemma_at_concat(a: Seq<BatterySampleV>, b: Seq<BatterySampleV>, t: int)
    ensures
        pct_sum_at(a + b, t) == pct_sum_at(a, t) + pct_sum_at(b, t),
        pct_cnt_at(a + b, t) == pct_cnt_at(a, t) + pct_cnt_at(b, t),
    decreases b.len(),
{
    if b.len() == 0 {
        assert(a + b =~= a);
    } else {
        assert((a + b).drop_last() =~= a + b.drop_last());
        assert((a + b).last() == b.last());
        lemma_at_concat(a, b.drop_last(), t);
    }
}

/// Law: merging drops no timestamp and invents none: every input row's
/// timestamp appears among the merged rows, and every merged row's
/// timestamp is some input row's.
pub proof fn lemma_aggregate_ts_coverage(s: Seq<BatterySampleV>)
    ensures
        forall|k: int|
            0 <= k < s.len() ==> exists|a: int|
                0 <= a < aggregate_spec(s).len() && #[trigger] aggregate_spec(s)[a].ts
                    == #[trigger] s[k].ts,
        forall|a: int|
            0 <= a < aggregate_spec(s).len() ==> exists|k: int|
                0 <= k < s.len() && #[trigger] aggregate_spec(s)[a].ts == s[k].ts,
    decreases s.len(),
{
    if s.len() > 0 {
        lemma_run_len_bounds(s);
        lemma_run_break(s);
        let kk = run_len(s);
        let g = s.take(kk);
        let rest = s.skip(kk);
        let w = aggregate_spec(s);
        lemma_aggregate_ts_coverage(rest);
        assert(w == seq![merge_group(g)] + aggregate_spec(rest));
        assert(g[0] == s[0]);
        assert(w[0].ts == s[0].ts);
        assert forall|k: int| 0 <= k < s.len() implies exists|a: int|
            0 <= a < w.len() && #[trigger] w[a].ts == #[trigger] s[k].ts by {
            if k < kk {
                assert(w[0].ts == s[k].ts);
            } else {
                assert(s[k] == rest[k - kk]);
                let a = choose|a: int|
                    0 <= a < aggregate_spec(rest).len() && #[trigger] aggregate_spec(rest)[a].ts
                        == rest[k - kk].ts;
                assert(w[a + 1].ts == s[k].ts);
            }
        }
        assert forall|a: int| 0 <= a < w.len() implies exists|k: int|
            0 <= k < s.len() && #[trigger] w[a].ts == s[k].ts by {
            if a > 0 {
                assert(w[a] == aggregate_spec(rest)[a - 1]);
                let k = choose|k: int|
                    0 <= k < rest.len() && #[trigger] aggregate_spec(rest)[a - 1].ts == rest[k].ts;
                assert(w[a].ts == s[kk + k].ts);
            }
        }
    }
}

/// Law: over a table sorted by timestamp, the merged row at a timestamp
/// carries the mean of the present percentages of precisely the input rows
/// at that timestamp, absent when none is present.
#[verifier::rlimit(60)]
pub proof fn lemma_aggregate_means_per_timestamp(s: Seq<BatterySampleV>)
    requires
        sorted_battery(s),
    ensures
        forall|a: int|
            0 <= a < aggregate_spec(s).len() ==> #[trigger] aggregate_spec(s)[a].percentage == (
            if pct_cnt_at(s, aggregate_spec(s)[a].ts) > 0 {
                Some(
                    pct_sum_at(s, aggregate_spec(s)[a].ts) / pct_cnt_at(
                        s,
                        aggregate_spec(s)[a].ts,
                    ),
                )
            } else {
                None::<int>
            }),
    decreases s.len(),
{
    if s.len() > 0 {
        lemma_run_len_bounds(s);
        lemma_run_break(s);
        let kk = run_len(s);
        let g = s.take(kk);
        let rest = s.skip(kk);
        let t0 = s[0].ts;
        let w = aggregate_spec(s);
        assert(sorted_battery(rest)) by {
            assert forall|a: int, b: int| 0 <= a < b < rest.len() implies rest[a].ts
                <= rest[b].ts by {
                assert(rest[a] == s[kk + a]);
                assert(rest[b] == s[kk + b]);
            }
        }
        lemma_aggregate_means_per_timestamp(rest);
        lemma_aggregate_distinct_timestamps(rest);
        assert(s =~= g + rest);
        assert forall|x: int| 0 <= x < g.len() implies #[trigger] g[x].ts == t0 by {
            assert(g[x] == s[x]);
        }
        assert forall|x: int| 0 <= x < rest.len() implies #[trigger] rest[x].ts > t0 by {
            assert(rest[x] == s[kk + x]);
            assert(s[kk as int].ts != t0);
            assert(s[kk as int].ts >= t0);
            assert(s[kk + x].ts >= s[kk as int].ts);
        }
        assert(w == seq![merge_group(g)] + aggregate_spec(rest));
        assert(w[0] == merge_group(g));
        assert(merge_group(g).ts == t0) by {
            assert(g[0] == s[0]);
        }
        lemma_at_of_uniform(g, t0);
        lemma_at_of_absent(rest, t0);
        lemma_at_concat(g, rest, t0);
        assert(pct_sum_at(s, t0) == pct_sum(g));
        assert(pct_cnt_at(s, t0) == pct_cnt(g));
        assert forall|a: int| 1 <= a < w.len() implies #[trigger] w[a].percentage == (
        if pct_cnt_at(s, w[a].ts) > 0 {
            Some(pct_sum_at(s, w[a].ts) / pct_cnt_at(s, w[a].ts))
        } else {
            None::<int>
        }) by {
            assert(w[a] == aggregate_spec(rest)[a - 1]);
            let t = w[a].ts;
            assert(rest.len() > 0);
            assert(t >= rest[0].ts);
            assert forall|x: int| 0 <= x < g.len() implies #[trigger] g[x].ts != t by {}
            lemma_at_of_absent(g, t);
            lemma_at_concat(g, rest, t);
        }
    }
}

/// Average charge and discharge power over a window, in milliwatts,
/// each absent when its partition is empty.
pub struct Rates {
    pub discharge_mw: Option<i64>,
    pub charge_mw: Option<i64>,
}

/// Sum of the magnitudes of the negative power readings in a group.
pub open spec fn dis_sum(g: Seq<BatterySampleV>) -> int
    decreases g.len(),
{
    if g.len() == 0 {
        0
    } else {
        dis_sum(g.drop_last()) + match g.last().power_mw {
            Some(p) => if p < 0 {
                -p
            } else {
                0
            },
            None => 0,
        }
    }
}

/// How many negative power readings a group holds.
pub open spec fn dis_cnt(g: Seq<BatterySampleV>) -> int
    decreases g.len(),
{
    if g.len() == 0 {
        0
    } else {
        dis_cnt(g.drop_last()) + match g.last().power_mw {
            Some(p) => if p < 0 {
                1int
            } else {
                0int
            },
            None => 0int,
        }
    }
}

/// Sum of the positive power readings in a group.
pub open spec fn chg_sum(g: Seq<BatterySampleV>) -> int
    decreases g.len(),
{
    if g.len() == 0 {
        0
    } else {
        chg_sum(g.drop_last()) + match g.last().power_mw {
            Some(p) => if p > 0 {
                p
            } else {
                0
            },
            None => 0,
        }
    }
}

/// How many positive power readings a group holds.
pub open spec fn chg_cnt(g: Seq<BatterySampleV>) -> int
    decreases g.len(),
{
    if g.len() == 0 {
        0
    } else {
        chg_cnt(g.drop_last()) + match g.last().power_mw {
            Some(p) => if p > 0 {
                1int
            } else {
                0int
            },
            None => 0int,
        }
    }
}

/// Partitions the samples by the sign of their power reading and averages
/// the magnitudes within each partition: the discharge rate is the mean of
/// the negative readings' magnitudes, the charge rate the mean of the
/// positive readings, and a partition with no members yields no rate —
/// never a zero.  Samples with no power reading are excluded.
pub fn average_rates(samples: &Vec<BatterySample>) -> (r: Rates)
    requires
        samples@.len() <= MAX_ROWS,
        forall|j: int| 0 <= j < samples@.len() ==> wf_battery(#[trigger] battery_rows_of(samples@)[j]),
    ensures
        ({
            let rows = battery_rows_of(samples@);
            &&& (dis_cnt(rows) == 0 <==> r.discharge_mw is None)
            &&& dis_cnt(rows) > 0 ==> r.discharge_mw is Some && r.discharge_mw->0 == dis_sum(rows)
                / dis_cnt(rows)
            &&& (chg_cnt(rows) == 0 <==> r.charge_mw is None)
            &&& chg_cnt(rows) > 0 ==> r.charge_mw is Some && r.charge_mw->0 == chg_sum(rows)
                / chg_cnt(rows)
        }),
{
    let ghost rows = battery_rows_of(samples@);
    let n: usize = samples.len();
    let mut dsum: i64 = 0;
    let mut dcnt: u64 = 0;
    let mut csum: i64 = 0;
    let mut ccnt: u64 = 0;
    let mut i: usize = 0;
    proof {
        assert(rows.take(0) =~= Seq::<BatterySampleV>::empty());
    }
    while i < n
        invariant
            i <= n,
            n == samples@.len(),
            n <= MAX_ROWS,
            rows == battery_rows_of(samples@),
            forall|k: int| 0 <= k < rows.len() ==> wf_battery(#[trigger] rows[k]),
            dsum == dis_sum(rows.take(i as int)),
            dcnt == dis_cnt(rows.take(i as int)),
            csum == chg_sum(rows.take(i as int)),
            ccnt == chg_cnt(rows.take(i as int)),
            dcnt <= i,
            ccnt <= i,
            0 <= dsum <= (i as int) * 10000000000,
            0 <= csum <= (i as int) * 10000000000,
        decreases n - i,
    {
        proof {
            assert(rows.take(i + 1).drop_last() =~= rows.take(i as int));
            assert(rows.take(i + 1).last() == rows[i as int]);
        }
        match samples[i].power_mw {
            Some(p) => {
                if p < 0 {
                    dsum += -p;
                    dcnt += 1;
                } else if p > 0 {
                    csum += p;
                    ccnt += 1;
                }
            },
            None => {},
        }
        i += 1;
    }
    proof {
        assert(rows.take(n as int) =~= rows);
    }
    Rates {
        discharge_mw: if dcnt > 0 {
            Some(dsum / (dcnt as i64))
        } else {
            None
        },
        charge_mw: if ccnt > 0 {
            Some(csum / (ccnt as i64))
        } else {
            None
        },
    }
}

/// Estimated hours until an empty battery, in thousandths of an hour: the
/// remaining percentage is treated as a linear proxy for stored energy and
/// drained at the given capacity-normalized discharge rate.  Absent unless
/// the discharge rate is present and positive and the latest sample carries
/// a percentage; never negative.
pub fn estimate_runtime_millihours(discharge_mw: Option<i64>, latest: &BatterySample) -> (r: Option<
    u64,
>)
    requires
        wf_battery(latest@),
    ensures
        match (discharge_mw, latest@.percentage) {
            (Some(d), Some(p)) => if d > 0 {
                r is Some && r->0 == p * 10000 / (d as int)
            } else {
                r is None
            },
            _ => r is None,
        },
{
    match (discharge_mw, latest.percentage) {
        (Some(d), Some(p)) => if d > 0 {
            Some(p * 10000 / (d as u64))
        } else {
            None
        },
        _ => None,
    }
}

} // verus!
