//! Instants on the UTC time line, and reading them from text.
//!
//! An instant is held as an integer key: the whole seconds since
//! 1970-01-01T00:00:00Z times [`KEYS_PER_SECOND`], plus the nanoseconds into
//! that second. A leap second (`23:59:60`) is counted, as in `chrono`, as
//! nanoseconds 1e9 to 2e9 - 1 of the second before it, so keys order instants
//! exactly as `chrono` does. The calendar supports the same range as
//! `chrono`'s date-time type, which does the calendar arithmetic of parsing.

use chrono::{DateTime, NaiveDateTime, TimeZone, Utc};
use vstd::prelude::*;

verus! {

/// Key of an instant (see the module documentation).
pub type Timestamp = i128;

pub const NANOS_PER_SECOND: i128 = 1_000_000_000;

/// Keys per second: the nanoseconds of the second and of a leap second
/// following it.
pub const KEYS_PER_SECOND: i128 = 2_000_000_000;

/// Keys per day of 86 400 seconds.
pub const KEYS_PER_DAY: i128 = 172_800_000_000_000;

/// First representable instant: -262143-01-01T00:00:00Z.
pub const MIN_TIMESTAMP: i128 = -16_669_202_457_600_000_000_000;

/// Last representable instant: +262142-12-31T23:59:60.999999999Z.
pub const MAX_TIMESTAMP: i128 = 16_420_533_753_599_999_999_999;

/// Longest span, in whole days, that a duration can hold.
pub const MAX_SPAN_DAYS: i64 = 106_751_991_167;

pub open spec fn is_valid_instant(t: int) -> bool {
    MIN_TIMESTAMP <= t <= MAX_TIMESTAMP
}

/// Key of the instant `nanos` nanoseconds into second `secs` since the epoch.
pub open spec fn instant_of(secs: int, nanos: int) -> int {
    secs * KEYS_PER_SECOND + nanos
}

/// Where `chrono`'s day arithmetic places an instant: a leap-second instant
/// counts as the same fraction of the second before it (`23:59:60.x` adds
/// like `23:59:59.x`); other instants are unchanged.
pub open spec fn without_leap(t: int) -> int {
    if t % (KEYS_PER_SECOND as int) >= NANOS_PER_SECOND {
        t - NANOS_PER_SECOND
    } else {
        t
    }
}

pub open spec fn is_digit(c: char) -> bool {
    '0' <= c && c <= '9'
}

pub open spec fn digit_value(c: char) -> int {
    c as int - '0' as int
}

/// The number written by the two digits at `s[i]`, `s[i + 1]`.
pub open spec fn two_digits(s: Seq<char>, i: int) -> int {
    10 * digit_value(s[i]) + digit_value(s[i + 1])
}

pub open spec fn is_leap_year(y: int) -> bool {
    (y % 4 == 0 && y % 100 != 0) || y % 400 == 0
}

/// Days in month `m` (1 to 12) of year `y`, in the proleptic Gregorian calendar.
pub open spec fn days_in_month(y: int, m: int) -> int {
    if m == 2 {
        if is_leap_year(y) {
            29
        } else {
            28
        }
    } else if m == 4 || m == 6 || m == 9 || m == 11 {
        30
    } else {
        31
    }
}

/// Days of year `y` before the first of month `m`.
pub open spec fn days_before_month(y: int, m: int) -> int
    decreases m,
{
    if m <= 1 {
        0
    } else {
        days_before_month(y, m - 1) + days_in_month(y, m - 1)
    }
}

/// Days from 1970-01-01 to `y`-`m`-`d` (negative before it): the days of
/// the years from 1 CE on, less those before 1970, plus the days into `y`.
pub open spec fn days_from_epoch(y: int, m: int, d: int) -> int {
    365 * (y - 1) + (y - 1) / 4 - (y - 1) / 100 + (y - 1) / 400 - 719_162 + days_before_month(y, m) + d - 1
}

/// `s` is laid out as `YYYY-MM-DD?HH:MM:SS`, all digits, with `sep` between
/// the date and the time and nothing after.
pub open spec fn in_layout(s: Seq<char>, sep: char) -> bool {
    &&& s.len() == 19
    &&& forall|i: int|
        0 <= i < 19 && i != 4 && i != 7 && i != 10 && i != 13 && i != 16 ==> is_digit(#[trigger] s[i])
    &&& s[4] == '-'
    &&& s[7] == '-'
    &&& s[10] == sep
    &&& s[13] == ':'
    &&& s[16] == ':'
}

/// Seconds since the epoch of the UTC date and time that `s` writes in the
/// layout `YYYY-MM-DD?HH:MM:SS` (separator `sep`), when it is a calendar
/// date and a time of day without leap second; `None` otherwise.
pub open spec fn layout_seconds(s: Seq<char>, sep: char) -> Option<int> {
    let y = 100 * two_digits(s, 0) + two_digits(s, 2);
    let mo = two_digits(s, 5);
    let d = two_digits(s, 8);
    let h = two_digits(s, 11);
    let mi = two_digits(s, 14);
    let sec = two_digits(s, 17);
    if in_layout(s, sep) && 1 <= mo <= 12 && 1 <= d <= days_in_month(y, mo) && h <= 23 && mi <= 59 && sec
        <= 59 {
        Some(days_from_epoch(y, mo, d) * 86_400 + h * 3_600 + mi * 60 + sec)
    } else {
        None
    }
}

proof fn lemma_days_before_month_bounds(y: int, m: int)
    requires
        m <= 12,
    ensures
        0 <= days_before_month(y, m) <= 366,
        m >= 1 ==> days_before_month(y, m) <= 31 * (m - 1),
    decreases m,
{
    if m > 1 {
        lemma_days_before_month_bounds(y, m - 1);
    }
}

/// A time written in the plain layout lies within a few hundred billion
/// seconds of the epoch, well inside the supported range.
proof fn lemma_layout_seconds_bounds(s: Seq<char>, sep: char)
    ensures
        layout_seconds(s, sep) matches Some(t) ==> -100_000_000_000 <= t <= 300_000_000_000,
{
    if layout_seconds(s, sep) is Some {
        assert forall|i: int| 0 <= i < 19 && i != 4 && i != 7 && i != 10 && i != 13 && i != 16 implies 0
            <= #[trigger] digit_value(s[i]) <= 9 by {
            assert(is_digit(s[i]));
        }
        assert(0 <= digit_value(s[0]) <= 9);
        assert(0 <= digit_value(s[1]) <= 9);
        assert(0 <= digit_value(s[2]) <= 9);
        assert(0 <= digit_value(s[3]) <= 9);
        let y = 100 * two_digits(s, 0) + two_digits(s, 2);
        let mo = two_digits(s, 5);
        assert(0 <= y <= 9999);
        lemma_days_before_month_bounds(y, mo);
    }
}

/// The instant that text in one of the two plain layouts
/// (`YYYY-MM-DD HH:MM:SS` or `YYYY-MM-DDTHH:MM:SS`) denotes, read as UTC.
pub open spec fn layout_instant(s: Seq<char>) -> Option<int> {
    match layout_seconds(s, ' ') {
        Some(t) => Some(instant_of(t, 0)),
        None => match layout_seconds(s, 'T') {
            Some(t) => Some(instant_of(t, 0)),
            None => None,
        },
    }
}

/// Result of `chrono`'s RFC 3339 parser on `s`, as whole seconds since the
/// epoch and the nanoseconds within that second (`None` when `s` is not RFC
/// 3339).
pub uninterp spec fn rfc3339_parts(s: Seq<char>) -> Option<(i64, u32)>;

/// Result of `chrono`'s `NaiveDateTime::parse_from_str(s, fmt)` read as UTC,
/// as whole seconds since the epoch and the nanoseconds within that second
/// (`None` when `s` does not match `fmt`).
pub uninterp spec fn naive_utc_parts(s: Seq<char>, fmt: Seq<char>) -> Option<(i64, u32)>;

/// Calls `chrono::DateTime::parse_from_rfc3339` and converts the result to
/// UTC. The contract names the result and states what every
/// `DateTime<Utc>` satisfies: its instant is in the supported range and the
/// sub-second part is below two seconds (a leap second runs past one). It
/// also states that text of exactly `YYYY-MM-DD?HH:MM:SS` is rejected: the
/// parser requires a UTC offset after the time.
#[verifier::external_body]
fn parse_rfc3339(s: &str) -> (r: Option<(i64, u32)>)
    ensures
        r == rfc3339_parts(s@),
        r matches Some((secs, nanos)) ==> nanos < KEYS_PER_SECOND && is_valid_instant(
            secs * KEYS_PER_SECOND,
        ),
        in_layout(s@, ' ') || in_layout(s@, 'T') ==> r is None,
{
    match DateTime::parse_from_rfc3339(s) {
        Ok(dt) => {
            let utc = dt.with_timezone(&Utc);
            Some((utc.timestamp(), utc.timestamp_subsec_nanos()))
        },
        Err(_) => None,
    }
}

/// Calls `chrono::NaiveDateTime::parse_from_str(s, fmt)` and reads the
/// result as UTC (`Utc.from_utc_datetime`). The contract names the result and
/// states what every `DateTime<Utc>` satisfies. For the two formats the
/// library uses it also states the calendar meaning on text written exactly
/// in the format's layout: a calendar date and time of day (no leap second)
/// gives that UTC instant, in whole seconds; and the format with a space
/// rejects text with `T` in its place. Other inputs are left to the name.
#[verifier::external_body]
fn parse_naive_utc(s: &str, fmt: &str) -> (r: Option<(i64, u32)>)
    ensures
        r == naive_utc_parts(s@, fmt@),
        r matches Some((secs, nanos)) ==> nanos < KEYS_PER_SECOND && is_valid_instant(
            secs * KEYS_PER_SECOND,
        ),
        fmt@ == "%Y-%m-%d %H:%M:%S"@ && layout_seconds(s@, ' ') is Some ==> r == Some(
            (layout_seconds(s@, ' ')->0 as i64, 0u32),
        ),
        fmt@ == "%Y-%m-%d %H:%M:%S"@ && in_layout(s@, 'T') ==> r is None,
        fmt@ == "%Y-%m-%dT%H:%M:%S"@ && layout_seconds(s@, 'T') is Some ==> r == Some(
            (layout_seconds(s@, 'T')->0 as i64, 0u32),
        ),
{
    match NaiveDateTime::parse_from_str(s, fmt) {
        Ok(naive) => {
            let utc = Utc.from_utc_datetime(&naive);
            Some((utc.timestamp(), utc.timestamp_subsec_nanos()))
        },
        Err(_) => None,
    }
}

/// Calls `Utc.timestamp_millis_opt(ms).single()`: the instant `ms`
/// milliseconds after the epoch, split into whole seconds and nanoseconds,
/// when that instant is in the supported range; `None` otherwise.
#[verifier::external_body]
fn utc_from_millis(ms: i64) -> (r: Option<(i64, u32)>)
    ensures
        r == if is_valid_instant((ms / 1000) * KEYS_PER_SECOND) {
            Some(((ms / 1000) as i64, ((ms % 1000) * 1_000_000) as u32))
        } else {
            None::<(i64, u32)>
        },
{
    match Utc.timestamp_millis_opt(ms).single() {
        Some(dt) => Some((dt.timestamp(), dt.timestamp_subsec_nanos())),
        None => None,
    }
}

/// Key of the instant `nanos` nanoseconds into second `secs` since the
/// epoch (`nanos` is 1e9 or more during a leap second).
pub fn instant_from_parts(secs: i64, nanos: u32) -> (r: Timestamp)
    ensures
        r == instant_of(secs as int, nanos as int),
{
    (secs as i128) * KEYS_PER_SECOND + (nanos as i128)
}

/// Splits a key into whole seconds since the epoch and the nanoseconds into
/// that second (1e9 or more during a leap second).
pub fn parts_from_instant(t: Timestamp) -> (r: (i64, u32))
    requires
        is_valid_instant(t as int),
    ensures
        r.1 < KEYS_PER_SECOND,
        instant_of(r.0 as int, r.1 as int) == t,
        r.0 == t / KEYS_PER_SECOND,
        r.1 == t % KEYS_PER_SECOND,
{
    let mut secs = t / KEYS_PER_SECOND;
    let mut nanos = t % KEYS_PER_SECOND;
    if nanos < 0 {
        secs = secs - 1;
        nanos = nanos + KEYS_PER_SECOND;
    }
    proof {
        vstd::arithmetic::div_mod::lemma_fundamental_div_mod_converse(
            t as int,
            KEYS_PER_SECOND as int,
            secs as int,
            nanos as int,
        );
    }
    (secs as i64, nanos as u32)
}

/// The key at which `chrono`'s day arithmetic places `t` (see [`without_leap`]).
pub fn strip_leap(t: Timestamp) -> (r: Timestamp)
    requires
        is_valid_instant(t as int),
    ensures
        r == without_leap(t as int),
{
    let (_secs, nanos) = parts_from_instant(t);
    if nanos as i128 >= NANOS_PER_SECOND {
        t - NANOS_PER_SECOND
    } else {
        t
    }
}

/// A key has one split into whole seconds and a sub-second part below
/// [`KEYS_PER_SECOND`]: splitting a key built from such parts gives them back.
pub proof fn lemma_parts_unique(s1: int, n1: int, s2: int, n2: int)
    requires
        0 <= n1 < KEYS_PER_SECOND,
        0 <= n2 < KEYS_PER_SECOND,
        instant_of(s1, n1) == instant_of(s2, n2),
    ensures
        s1 == s2,
        n1 == n2,
{
    if s1 < s2 {
        assert(s1 * KEYS_PER_SECOND + KEYS_PER_SECOND <= s2 * KEYS_PER_SECOND) by (nonlinear_arith)
            requires
                s1 < s2,
        ;
    } else if s2 < s1 {
        assert(s2 * KEYS_PER_SECOND + KEYS_PER_SECOND <= s1 * KEYS_PER_SECOND) by (nonlinear_arith)
            requires
                s2 < s1,
        ;
    }
}

/// Why a bar's time could not be read.
#[derive(Debug, PartialEq, Eq)]
pub enum TimestampError {
    /// The millisecond count lies outside the supported calendar.
    InvalidMillis(i64),
    /// The text matches none of the accepted layouts.
    Unrecognized(String),
    /// Neither a millisecond count nor a text time was given.
    Missing,
}

/// The instant that text `s` denotes: RFC 3339 first, then
/// `YYYY-MM-DD HH:MM:SS`, then `YYYY-MM-DDTHH:MM:SS` (both read as UTC).
pub open spec fn text_instant(s: Seq<char>) -> Option<int> {
    match rfc3339_parts(s) {
        Some((secs, nanos)) => Some(instant_of(secs as int, nanos as int)),
        None => match naive_utc_parts(s, "%Y-%m-%d %H:%M:%S"@) {
            Some((secs, nanos)) => Some(instant_of(secs as int, nanos as int)),
            None => match naive_utc_parts(s, "%Y-%m-%dT%H:%M:%S"@) {
                Some((secs, nanos)) => Some(instant_of(secs as int, nanos as int)),
                None => None,
            },
        },
    }
}

/// Reads a bar's time from a millisecond count (preferred when present) or
/// from text. A leap second in the text (`23:59:60.x`) is kept: its key lies
/// after every instant of `23:59:59` and before the next second.
pub fn parse_timestamp(timestamp: Option<&str>, timestamp_ms: Option<i64>) -> (r: Result<
    Timestamp,
    TimestampError,
>)
    ensures
        match timestamp_ms {
            Some(ms) => if is_valid_instant((ms / 1000) * KEYS_PER_SECOND) {
                r == Ok::<Timestamp, TimestampError>(instant_of(ms / 1000, (ms % 1000) * 1_000_000) as i128)
            } else {
                r == Err::<Timestamp, TimestampError>(TimestampError::InvalidMillis(ms))
            },
            None => match timestamp {
                None => r == Err::<Timestamp, TimestampError>(TimestampError::Missing),
                Some(s) => match text_instant(s@) {
                    Some(t) => r == Ok::<Timestamp, TimestampError>(t as i128),
                    None => r matches Err(TimestampError::Unrecognized(u)) && u@ == s@,
                },
            },
        },
        timestamp_ms is None ==> match timestamp {
            Some(s) => match layout_instant(s@) {
                Some(t) => r == Ok::<Timestamp, TimestampError>(t as i128),
                None => true,
            },
            None => true,
        },
{
    if let Some(ms) = timestamp_ms {
        return match utc_from_millis(ms) {
            Some((secs, nanos)) => Ok(instant_from_parts(secs, nanos)),
            None => Err(TimestampError::InvalidMillis(ms)),
        };
    }
    if let Some(s) = timestamp {
        proof {
            lemma_layout_seconds_bounds(s@, ' ');
            lemma_layout_seconds_bounds(s@, 'T');
        }
        if let Some((secs, nanos)) = parse_rfc3339(s) {
            return Ok(instant_from_parts(secs, nanos));
        }
        if let Some((secs, nanos)) = parse_naive_utc(s, "%Y-%m-%d %H:%M:%S") {
            return Ok(instant_from_parts(secs, nanos));
        }
        if let Some((secs, nanos)) = parse_naive_utc(s, "%Y-%m-%dT%H:%M:%S") {
            return Ok(instant_from_parts(secs, nanos));
        }
        return Err(TimestampError::Unrecognized(s.to_owned()));
    }
    Err(TimestampError::Missing)
}

} // verus!
