//! Plain-value forms of the temporal scalars, and the calendar/clock facts the
//! codecs take from `chrono`.

use vstd::prelude::*;

verus! {

/// A wall-clock time with no time zone, as `chrono::NaiveTime` holds it:
/// seconds since midnight and a nanosecond part, which reaches past one second
/// only inside a leap second.
#[derive(Clone, Copy, Debug, PartialEq, Eq)]
pub struct TimeOfDay {
    pub secs: u32,
    pub nanos: u32,
}

/// A UTC date and time: a day number (days from the Common Era, 0001-01-01 is
/// day 1) and a time of day.
#[derive(Clone, Copy, Debug, PartialEq, Eq)]
pub struct DateTimeUtc {
    pub days: i32,
    pub time: TimeOfDay,
}

/// A signed duration, as `chrono::TimeDelta::num_seconds` and
/// `TimeDelta::subsec_nanos` present it: whole seconds truncated toward zero
/// and a sub-second part carrying the same sign.
#[derive(Clone, Copy, Debug, PartialEq, Eq)]
pub struct Duration {
    pub secs: i64,
    pub nanos: i32,
}

pub const NANOS_PER_SEC: i128 = 1_000_000_000;

/// The largest magnitude a `TimeDelta` holds, in nanoseconds (`i64::MAX`
/// milliseconds).
pub const MAX_DURATION_NANOS: i128 = 9_223_372_036_854_775_807_000_000;

/// The largest whole-second count `TimeDelta::seconds` accepts.
pub const MAX_DURATION_SECS: i64 = 9_223_372_036_854_775;

/// `NaiveTime::from_num_seconds_from_midnight_opt(secs, nanos)` succeeds.
pub open spec fn time_of_day_valid(secs: u32, nanos: u32) -> bool {
    &&& secs < 86_400
    &&& nanos < 2_000_000_000
    &&& nanos >= 1_000_000_000 ==> secs % 60 == 59
}

/// The calendar accepts `days` as a day number:
/// `NaiveDate::from_num_days_from_ce_opt(days)` is `Some`, that is the day
/// lies between January 1 of year −262143 and December 31 of year 262142.
pub open spec fn chrono_day_valid(days: i32) -> bool {
    -95_746_129 <= days <= 95_745_399
}

/// The total length of a duration, in nanoseconds.
pub open spec fn duration_total(d: Duration) -> int {
    d.secs * NANOS_PER_SEC + d.nanos
}

/// The parts `num_seconds`/`subsec_nanos` report for a total of `t` nanoseconds.
pub open spec fn duration_of_total(t: int) -> Duration {
    let secs = if t >= 0 {
        t / NANOS_PER_SEC as int
    } else {
        -((-t) / NANOS_PER_SEC as int)
    };
    Duration { secs: secs as i64, nanos: (t - secs * NANOS_PER_SEC) as i32 }
}

/// `d` is a duration `TimeDelta` can hold, in its reported form.
pub open spec fn duration_valid(d: Duration) -> bool {
    &&& -MAX_DURATION_NANOS <= duration_total(d) <= MAX_DURATION_NANOS
    &&& -NANOS_PER_SEC < d.nanos < NANOS_PER_SEC
    &&& d.nanos > 0 ==> d.secs >= 0
    &&& d.nanos < 0 ==> d.secs <= 0
}

/// `TimeDelta::seconds(secs) + TimeDelta::nanoseconds(nanos)` does not panic.
pub open spec fn duration_decodable(secs: i64, nanos: i32) -> bool {
    &&& -MAX_DURATION_SECS <= secs <= MAX_DURATION_SECS
    &&& -MAX_DURATION_NANOS <= secs * NANOS_PER_SEC + nanos <= MAX_DURATION_NANOS
}

/// `chrono::NaiveDate::from_num_days_from_ce_opt`: whether `days` names a
/// date the calendar can represent (years −262143 to 262142).
#[verifier::external_body]
pub(crate) fn day_number_valid(days: i32) -> (b: bool)
    ensures
        b == chrono_day_valid(days),
{
    chrono::NaiveDate::from_num_days_from_ce_opt(days).is_some()
}

/// `chrono::NaiveTime::from_num_seconds_from_midnight_opt`: whether the pair
/// names a time of day (a leap second only at the end of a minute).
#[verifier::external_body]
pub(crate) fn time_of_day_parts_valid(secs: u32, nanos: u32) -> (b: bool)
    ensures
        b == time_of_day_valid(secs, nanos),
{
    chrono::NaiveTime::from_num_seconds_from_midnight_opt(secs, nanos).is_some()
}

/// `chrono::TimeDelta::seconds(secs) + TimeDelta::nanoseconds(nanos)`, reported
/// back through `num_seconds` and `subsec_nanos`.
#[verifier::external_body]
pub(crate) fn time_delta_parts(secs: i64, nanos: i32) -> (d: Duration)
    requires
        duration_decodable(secs, nanos),
    ensures
        d == duration_of_total(secs * NANOS_PER_SEC + nanos),
{
    let delta = chrono::TimeDelta::seconds(secs) + chrono::TimeDelta::nanoseconds(i64::from(nanos));
    Duration { secs: delta.num_seconds(), nanos: delta.subsec_nanos() }
}

/// A duration in its reported form is decodable and reads back unchanged.
pub proof fn lemma_duration_roundtrip(d: Duration)
    requires
        duration_valid(d),
    ensures
        duration_decodable(d.secs, d.nanos),
        duration_of_total(duration_total(d)) == d,
{
    let t = duration_total(d);
    let s = d.secs as int;
    let n = d.nanos as int;
    if t >= 0 {
        assert(s >= 0) by (nonlinear_arith)
            requires
                t == s * 1_000_000_000 + n,
                t >= 0,
                -1_000_000_000 < n < 1_000_000_000,
                n > 0 ==> s >= 0,
                n < 0 ==> s <= 0,
        ;
        assert(n >= 0);
        assert(t / 1_000_000_000 == s && s <= 9_223_372_036_854_775) by (nonlinear_arith)
            requires
                t == s * 1_000_000_000 + n,
                0 <= n < 1_000_000_000,
                t <= 9_223_372_036_854_775_807_000_000,
        ;
    } else {
        assert(s <= 0) by (nonlinear_arith)
            requires
                t == s * 1_000_000_000 + n,
                t < 0,
                -1_000_000_000 < n < 1_000_000_000,
                n > 0 ==> s >= 0,
                n < 0 ==> s <= 0,
        ;
        assert(n <= 0);
        assert((-t) / 1_000_000_000 == -s && s >= -9_223_372_036_854_775) by (nonlinear_arith)
            requires
                -t == (-s) * 1_000_000_000 + (-n),
                0 <= -n < 1_000_000_000,
                -t <= 9_223_372_036_854_775_807_000_000,
        ;
    }
}

} // verus!
