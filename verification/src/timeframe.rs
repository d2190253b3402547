use vstd::prelude::*;

use crate::clock::{local_offset_seconds, now_epoch_seconds};
use crate::sample::MAX_TIMESTAMP;
use crate::strutil::{dec_rep, u64_to_string};

verus! {

/// Seconds in one hour.
pub const HOUR_SECONDS: i64 = 3600;

/// Seconds in one day.
pub const DAY_SECONDS: i64 = 86400;

/// Seconds in one report month, deliberately approximated as thirty days.
pub const MONTH_SECONDS: i64 = 2592000;

/// The widest window a timeframe may carry, in seconds.
pub const MAX_WINDOW_SECONDS: i64 = 4000000000000000000;

/// Why a window request was refused.
#[derive(Clone, Copy, Debug, PartialEq, Eq, Structural)]
pub enum TimeframeError {
    /// No unit was selected with a positive magnitude.
    EmptyWindow,
    /// The selected magnitude does not fit the machine's window bound.
    WindowTooLarge,
}

/// A resolved query window: a human-readable label, and the window's
/// length in seconds, absent when the whole history is requested.
#[derive(Debug, PartialEq, Eq)]
pub struct Timeframe {
    pub label: String,
    pub window_seconds: Option<i64>,
}

impl Timeframe {
    /// A timeframe the engine hands out: a present window is positive and
    /// within the machine bound.
    pub open spec fn wf(&self) -> bool {
        match self.window_seconds {
            Some(w) => 0 < w <= MAX_WINDOW_SECONDS,
            None => true,
        }
    }

    /// The window's lower bound: absent for an all-time window, else the
    /// reference instant minus the window length, clamped to the machine's
    /// integer range.  The reference defaults to the clock's reading when
    /// not supplied; supplying it is solely for deterministic callers.
    pub fn since_timestamp(&self, now: Option<i64>) -> (r: Option<i64>)
        ensures
            self.window_seconds is None ==> r is None,
            match (self.window_seconds, now) {
                (Some(w), Some(n)) => r is Some && r->0 == clamp_i64(n - w),
                (Some(w), None) => r is Some,
                (None, _) => r is None,
            },
    {
        match self.window_seconds {
            None => None,
            Some(w) => {
                let n: i64 = match now {
                    Some(n) => n,
                    None => now_epoch_seconds(),
                };
                let d: i128 = n as i128 - w as i128;
                if d < i64::MIN as i128 {
                    Some(i64::MIN)
                } else if d > i64::MAX as i128 {
                    Some(i64::MAX)
                } else {
                    Some(d as i64)
                }
            },
        }
    }

    /// The resampling granularity for this window, in seconds, given how
    /// many seconds of history the store covers: the tier policy is applied
    /// to the window's effective length, so the all-time window (the whole
    /// history) always buckets at least as coarsely as any narrower window.
    pub fn bucket_span_seconds(&self, history_seconds: i64) -> (r: i64)
        requires
            self.wf(),
            0 <= history_seconds <= MAX_WINDOW_SECONDS,
        ensures
            r == span_for_window(
                effective_window(
                    match self.window_seconds {
                        Some(w) => Some(w as int),
                        None => None,
                    },
                    history_seconds as int,
                ),
            ),
            300 <= r <= MAX_WINDOW_SECONDS,
    {
        let w: i64 = match self.window_seconds {
            None => history_seconds,
            Some(w) => if w <= history_seconds {
                w
            } else {
                history_seconds
            },
        };
        if w <= DAY_SECONDS {
            300
        } else if w <= 7 * DAY_SECONDS {
            3600
        } else if w <= 60 * DAY_SECONDS {
            86400
        } else {
            let days: i64 = (w + (DAY_SECONDS - 1)) / DAY_SECONDS;
            proof {
                vstd::arithmetic::div_mod::lemma_div_is_ordered(
                    0,
                    w + (DAY_SECONDS - 1) as int,
                    DAY_SECONDS as int,
                );
            }
            86400 * ((days + 44) / 45)
        }
    }
}

/// The stretch of window that data can actually fill: a window wider than
/// the recorded history shows exactly the rows a window as wide as the
/// history shows, and the all-time window shows exactly the history.
pub open spec fn effective_window(window: Option<int>, history: int) -> int {
    match window {
        Some(w) => if w <= history {
            w
        } else {
            history
        },
        None => history,
    }
}

/// One window is at most as wide as another; an absent width means the
/// whole history and counts as the widest.
pub open spec fn window_le(w1: Option<int>, w2: Option<int>) -> bool {
    match (w1, w2) {
        (_, None) => true,
        (Some(a), Some(b)) => a <= b,
        (None, Some(_)) => false,
    }
}

/// An integer clamped to the machine's signed range.
pub open spec fn clamp_i64(x: int) -> int {
    if x < i64::MIN {
        i64::MIN as int
    } else if x > i64::MAX {
        i64::MAX as int
    } else {
        x
    }
}

/// The bucket granularity, in seconds, for a window `w` seconds long:
/// five minutes up to one day, an hour up to seven days, a day up to sixty
/// days, and beyond that as many whole days as keep the bucket count
/// roughly constant.
pub open spec fn span_for_window(w: int) -> int {
    if w <= 86400 {
        300
    } else if w <= 604800 {
        3600
    } else if w <= 5184000 {
        86400
    } else {
        86400 * (((w + 86399) / 86400 + 44) / 45)
    }
}

/// Law: a wider window never gets a finer bucket, the all-time window
/// counting as the widest, whatever history the store holds.
pub proof fn lemma_bucket_span_monotone_all_time(w1: Option<int>, w2: Option<int>, history: int)
    requires
        window_le(w1, w2),
        0 <= history,
    ensures
        span_for_window(effective_window(w1, history)) <= span_for_window(
            effective_window(w2, history),
        ),
{
    lemma_bucket_span_monotone(effective_window(w1, history), effective_window(w2, history));
}

/// Law: a longer window never gets a finer bucket.
pub proof fn lemma_bucket_span_monotone(w1: int, w2: int)
    requires
        w1 <= w2,
    ensures
        span_for_window(w1) <= span_for_window(w2),
{
    if 5184000 < w1 {
        vstd::arithmetic::div_mod::lemma_div_is_ordered(w1 + 86399, w2 + 86399, 86400);
        vstd::arithmetic::div_mod::lemma_div_is_ordered(
            (w1 + 86399) / 86400 + 44,
            (w2 + 86399) / 86400 + 44,
            45,
        );
        vstd::arithmetic::mul::lemma_mul_inequality(
            ((w1 + 86399) / 86400 + 44) / 45,
            ((w2 + 86399) / 86400 + 44) / 45,
            86400,
        );
    } else if 5184000 < w2 {
        vstd::arithmetic::div_mod::lemma_div_is_ordered(5270400int, w2 + 86399, 86400);
        vstd::arithmetic::div_mod::lemma_div_is_ordered(105, (w2 + 86399) / 86400 + 44, 45);
        vstd::arithmetic::mul::lemma_mul_inequality(2, ((w2 + 86399) / 86400 + 44) / 45, 86400);
    }
}

/// How a bucket should be titled, by the bucket's width.
#[derive(Clone, Copy, Debug, PartialEq, Eq, Structural)]
pub enum BucketStyle {
    /// Narrower than an hour: month, day, hour and minute.
    Minute,
    /// Narrower than a day: month, day and the whole hour.
    Hour,
    /// Exactly one day.
    Day,
    /// Several whole days, with the count.
    MultiDay(u64),
}

/// How a bucket of the given width is titled.
pub fn bucket_label_style(bucket_seconds: i64) -> (r: BucketStyle)
    requires
        0 < bucket_seconds,
    ensures
        r == (if bucket_seconds < 3600 {
            BucketStyle::Minute
        } else if bucket_seconds < 86400 {
            BucketStyle::Hour
        } else if bucket_seconds / 86400 <= 1 {
            BucketStyle::Day
        } else {
            BucketStyle::MultiDay((bucket_seconds / 86400) as u64)
        }),
{
    if bucket_seconds < 3600 {
        BucketStyle::Minute
    } else if bucket_seconds < 86400 {
        BucketStyle::Hour
    } else {
        let days = bucket_seconds / 86400;
        if days <= 1 {
            BucketStyle::Day
        } else {
            BucketStyle::MultiDay(days as u64)
        }
    }
}

/// The instant, in seconds since the epoch, at which the bucket holding the
/// local time `ts + off` begins: the local time is floored to a whole
/// multiple of the bucket width and mapped back to universal time.
pub open spec fn bucket_start_spec(ts: int, bucket: int, off: int) -> int
    recommends
        bucket > 0,
{
    ts - ((ts + off) % bucket)
}

/// Floors a timestamp to its bucket boundary, aligned to the wall clock of
/// a time zone `off` seconds east of universal time.
pub fn bucket_start(ts: i64, bucket_seconds: i64, utc_offset: i32) -> (r: i64)
    requires
        0 < bucket_seconds <= MAX_WINDOW_SECONDS,
        -MAX_TIMESTAMP <= ts <= MAX_TIMESTAMP,
        -86400 < utc_offset < 86400,
    ensures
        r == bucket_start_spec(ts as int, bucket_seconds as int, utc_offset as int),
        r <= ts,
        ts - r < bucket_seconds,
{
    let local: i64 = ts + utc_offset as i64;
    let m: i64 = if local >= 0 {
        local % bucket_seconds
    } else {
        let neg: i64 = -local;
        let m2: i64 = neg % bucket_seconds;
        proof {
            let b = bucket_seconds as int;
            let q = neg as int / b;
            vstd::arithmetic::div_mod::lemma_fundamental_div_mod(neg as int, b);
            vstd::arithmetic::div_mod::lemma_mod_bound(neg as int, b);
            if m2 == 0 {
                assert(local as int == b * (-q) + 0) by (nonlinear_arith)
                    requires
                        local as int == -(b * q + m2 as int),
                        m2 == 0,
                ;
                vstd::arithmetic::div_mod::lemma_fundamental_div_mod_converse(
                    local as int,
                    b,
                    -q,
                    0,
                );
            } else {
                assert(local as int == b * (-q - 1) + (b - m2 as int)) by (nonlinear_arith)
                    requires
                        local as int == -(b * q + m2 as int),
                ;
                vstd::arithmetic::div_mod::lemma_fundamental_div_mod_converse(
                    local as int,
                    b,
                    -q - 1,
                    b - m2 as int,
                );
            }
        }
        if m2 == 0 {
            0
        } else {
            bucket_seconds - m2
        }
    };
    proof {
        vstd::arithmetic::div_mod::lemma_mod_bound(local as int, bucket_seconds as int);
    }
    ts - m
}

/// Floors a timestamp to its bucket boundary on this machine's wall clock.
/// The start lies at most one bucket width before the timestamp, whatever
/// offset the machine's time zone reports.
pub fn bucket_start_local(ts: i64, bucket_seconds: i64) -> (r: i64)
    requires
        0 < bucket_seconds <= MAX_WINDOW_SECONDS,
        -MAX_TIMESTAMP <= ts <= MAX_TIMESTAMP,
    ensures
        exists|off: int|
            -86400 < off < 86400 && r == bucket_start_spec(ts as int, bucket_seconds as int, off),
        r <= ts,
        ts - r < bucket_seconds,
{
    let off = local_offset_seconds(ts);
    let r = bucket_start(ts, bucket_seconds, off);
    proof {
        let o: int = off as int;
        assert(-86400 < o < 86400 && r == bucket_start_spec(ts as int, bucket_seconds as int, o));
    }
    r
}

/// Resolves a window request into a timeframe.  Precedence: the whole
/// history wins over months, months over days, days over hours; the winning
/// unit's magnitude must be positive, and months are thirty days each.
pub fn build_timeframe(hours: i64, days: i64, months: i64, all_time: bool) -> (r: Result<
    Timeframe,
    TimeframeError,
>)
    ensures
        match r {
            Ok(t) => {
                &&& t.wf()
                &&& all_time ==> t.window_seconds is None && t.label@ == "all_time"@
                &&& !all_time && months > 0 ==> t.window_seconds == Some(
                    (months * MONTH_SECONDS) as i64,
                ) && t.label@ == dec_rep(months as nat) + "_months"@
                &&& !all_time && months <= 0 && days > 0 ==> t.window_seconds == Some(
                    (days * DAY_SECONDS) as i64,
                ) && t.label@ == dec_rep(days as nat) + "_days"@
                &&& !all_time && months <= 0 && days <= 0 ==> hours > 0 && t.window_seconds
                    == Some((hours * HOUR_SECONDS) as i64) && t.label@ == dec_rep(hours as nat)
                    + "_hours"@
            },
            Err(e) => {
                &&& !all_time
                &&& e == TimeframeError::EmptyWindow <==> (months <= 0 && days <= 0 && hours <= 0)
                &&& e == TimeframeError::WindowTooLarge <==> {
                    ||| (months > 0 && months * MONTH_SECONDS > MAX_WINDOW_SECONDS)
                    ||| (months <= 0 && days > 0 && days * DAY_SECONDS > MAX_WINDOW_SECONDS)
                    ||| (months <= 0 && days <= 0 && hours > 0 && hours * HOUR_SECONDS
                        > MAX_WINDOW_SECONDS)
                }
            },
        },
        r is Err <==> (!all_time && ((months <= 0 && days <= 0 && hours <= 0) || (months > 0
            && months * MONTH_SECONDS > MAX_WINDOW_SECONDS) || (months <= 0 && days > 0 && days
            * DAY_SECONDS > MAX_WINDOW_SECONDS) || (months <= 0 && days <= 0 && hours > 0 && hours
            * HOUR_SECONDS > MAX_WINDOW_SECONDS))),
{
    if all_time {
        proof {
            reveal_strlit("all_time");
        }
        Ok(Timeframe { label: String::from_str("all_time"), window_seconds: None })
    } else if months > 0 {
        if months > MAX_WINDOW_SECONDS / MONTH_SECONDS {
            proof {
                mul_gt_of_div(months as int, MONTH_SECONDS as int, MAX_WINDOW_SECONDS as int);
            }
            return Err(TimeframeError::WindowTooLarge);
        }
        proof {
            mul_le_of_div(months as int, MONTH_SECONDS as int, MAX_WINDOW_SECONDS as int);
        }
        let mut label = u64_to_string(months as u64);
        proof {
            reveal_strlit("_months");
        }
        label.append("_months");
        Ok(Timeframe { label, window_seconds: Some(months * MONTH_SECONDS) })
    } else if days > 0 {
        if days > MAX_WINDOW_SECONDS / DAY_SECONDS {
            proof {
                mul_gt_of_div(days as int, DAY_SECONDS as int, MAX_WINDOW_SECONDS as int);
            }
            return Err(TimeframeError::WindowTooLarge);
        }
        proof {
            mul_le_of_div(days as int, DAY_SECONDS as int, MAX_WINDOW_SECONDS as int);
        }
        let mut label = u64_to_string(days as u64);
        proof {
            reveal_strlit("_days");
        }
        label.append("_days");
        Ok(Timeframe { label, window_seconds: Some(days * DAY_SECONDS) })
    } else if hours > 0 {
        if hours > MAX_WINDOW_SECONDS / HOUR_SECONDS {
            proof {
                mul_gt_of_div(hours as int, HOUR_SECONDS as int, MAX_WINDOW_SECONDS as int);
            }
            return Err(TimeframeError::WindowTooLarge);
        }
        proof {
            mul_le_of_div(hours as int, HOUR_SECONDS as int, MAX_WINDOW_SECONDS as int);
        }
        let mut label = u64_to_string(hours as u64);
        proof {
            reveal_strlit("_hours");
        }
        label.append("_hours");
        Ok(Timeframe { label, window_seconds: Some(hours * HOUR_SECONDS) })
    } else {
        Err(TimeframeError::EmptyWindow)
    }
}

proof fn mul_le_of_div(n: int, unit: int, cap: int)
    requires
        0 < unit,
        0 < n,
        0 <= cap,
        n <= cap / unit,
    ensures
        n * unit <= cap,
        0 < n * unit,
{
    vstd::arithmetic::mul::lemma_mul_inequality(n, cap / unit, unit);
    vstd::arithmetic::div_mod::lemma_fundamental_div_mod(cap, unit);
    vstd::arithmetic::mul::lemma_mul_is_commutative(n, unit);
    vstd::arithmetic::mul::lemma_mul_is_commutative(cap / unit, unit);
    vstd::arithmetic::div_mod::lemma_mod_bound(cap, unit);
    vstd::arithmetic::mul::lemma_mul_strictly_positive(n, unit);
}

proof fn mul_gt_of_div(n: int, unit: int, cap: int)
    requires
        0 < unit,
        0 < n,
        0 <= cap,
        n > cap / unit,
    ensures
        n * unit > cap,
{
    vstd::arithmetic::mul::lemma_mul_inequality(cap / unit + 1, n, unit);
    vstd::arithmetic::div_mod::lemma_fundamental_div_mod(cap, unit);
    vstd::arithmetic::mul::lemma_mul_is_commutative(n, unit);
    vstd::arithmetic::mul::lemma_mul_is_distributive_add_other_way(unit, cap / unit, 1);
    vstd::arithmetic::mul::lemma_mul_is_commutative(cap / unit, unit);
    vstd::arithmetic::div_mod::lemma_mod_bound(cap, unit);
}

} // verus!
