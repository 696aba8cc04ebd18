use vstd::prelude::*;

use crate::number::{decimal, i128_to_decimal};

verus! {

/// An instant as Unix time: whole seconds since the epoch and the
/// nanoseconds past that second.
#[derive(Clone, Copy, Debug, PartialEq, Eq, Structural)]
pub struct Timestamp {
    pub secs: i64,
    pub nanos: u32,
}

/// Seconds in the "year" the labels count: twelve thirty-day months.
pub const SECS_PER_YEAR: i128 = 31104000;
/// Seconds in a thirty-day month.
pub const SECS_PER_MONTH: i128 = 2592000;
/// Seconds in a week.
pub const SECS_PER_WEEK: i128 = 604800;
/// Seconds in a day.
pub const SECS_PER_DAY: i128 = 86400;
/// Seconds in an hour.
pub const SECS_PER_HOUR: i128 = 3600;
/// Seconds in a minute.
pub const SECS_PER_MINUTE: i128 = 60;

/// The Japanese "… ago" label for an age of `secs` seconds: the largest unit
/// that the age strictly exceeds, counted down to whole units; plain seconds
/// otherwise (also for an age that is zero or negative).
pub open spec fn elapsed_label(secs: int) -> Seq<char> {
    if secs > SECS_PER_YEAR {
        decimal(secs / SECS_PER_YEAR as int) + seq!['年', '前']
    } else if secs > SECS_PER_MONTH {
        decimal(secs / SECS_PER_MONTH as int) + seq!['ヶ', '月', '前']
    } else if secs > SECS_PER_WEEK {
        decimal(secs / SECS_PER_WEEK as int) + seq!['週', '間', '前']
    } else if secs > SECS_PER_DAY {
        decimal(secs / SECS_PER_DAY as int) + seq!['日', '前']
    } else if secs > SECS_PER_HOUR {
        decimal(secs / SECS_PER_HOUR as int) + seq!['時', '間', '前']
    } else if secs > SECS_PER_MINUTE {
        decimal(secs / SECS_PER_MINUTE as int) + seq!['分', '前']
    } else {
        decimal(secs) + seq!['秒', '前']
    }
}

fn with_suffix(n: i128, suffix: &str) -> (s: String)
    ensures
        s@ == decimal(n as int) + suffix@,
{
    let mut s = i128_to_decimal(n);
    s.append(suffix);
    s
}

/// The label for an age of `secs` seconds.
pub fn elapsed_label_of(secs: i128) -> (s: String)
    ensures
        s@ == elapsed_label(secs as int),
{
    if secs > SECS_PER_YEAR {
        proof { reveal_strlit("年前"); }
        with_suffix(secs / SECS_PER_YEAR, "年前")
    } else if secs > SECS_PER_MONTH {
        proof { reveal_strlit("ヶ月前"); }
        with_suffix(secs / SECS_PER_MONTH, "ヶ月前")
    } else if secs > SECS_PER_WEEK {
        proof { reveal_strlit("週間前"); }
        with_suffix(secs / SECS_PER_WEEK, "週間前")
    } else if secs > SECS_PER_DAY {
        proof { reveal_strlit("日前"); }
        with_suffix(secs / SECS_PER_DAY, "日前")
    } else if secs > SECS_PER_HOUR {
        proof { reveal_strlit("時間前"); }
        with_suffix(secs / SECS_PER_HOUR, "時間前")
    } else if secs > SECS_PER_MINUTE {
        proof { reveal_strlit("分前"); }
        with_suffix(secs / SECS_PER_MINUTE, "分前")
    } else {
        proof { reveal_strlit("秒前"); }
        with_suffix(secs, "秒前")
    }
}

/// The current time (`chrono::Utc::now()`, as Unix seconds and the
/// nanoseconds past them). It depends on the clock, so nothing is stated of
/// it.
#[verifier::external_body]
pub(crate) fn now_timestamp() -> (t: Timestamp) {
    let now = chrono::Utc::now();
    Timestamp { secs: now.timestamp(), nanos: now.timestamp_subsec_nanos() }
}

/// The label for how long ago `created` was at the time `now` (in Unix
/// seconds).
pub open spec fn label_at(now: i64, created: Timestamp) -> Seq<char> {
    elapsed_label(now - created.secs)
}

/// The label for how long ago `created` was, at a time `now` (both in Unix
/// seconds).
pub fn age_label(now: i64, created: Timestamp) -> (s: String)
    ensures
        s@ == label_at(now, created),
{
    elapsed_label_of(now as i128 - created.secs as i128)
}

} // verus!
