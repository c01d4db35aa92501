//! Timestamps and calendar dates.

use chrono::{DateTime, NaiveDate, Timelike, Utc};
use vstd::prelude::*;

verus! {

/// Milliseconds in a day.
pub const DAY_MS: i64 = 86_400_000;

/// Milliseconds in an hour.
pub const HOUR_MS: i64 = 3_600_000;

/// `chrono::Utc::now` as milliseconds since the epoch. The clock decides what comes
/// back, so nothing is claimed of it.
#[verifier::external_body]
pub fn get_current_timestamp_ms() -> (r: i64)
{
    Utc::now().timestamp_millis()
}

/// Rounds a timestamp down to a multiple of the interval.
pub fn round_timestamp_down(ts_ms: i64, interval_ms: i64) -> (r: i64)
    requires
        interval_ms != 0,
        ts_ms - ts_ms as int % interval_ms as int >= i64::MIN,
    ensures
        r == ts_ms - ts_ms as int % interval_ms as int,
        r <= ts_ms,
        r as int % interval_ms as int == 0,
{
    let ghost rest = ts_ms as int % interval_ms as int;
    proof {
        if interval_ms > 0 {
            vstd::arithmetic::div_mod::lemma_mod_bound(ts_ms as int, interval_ms as int);
        } else {
            lemma_negative_divisor(ts_ms as int, interval_ms as int);
        }
        lemma_rest_divides(ts_ms as int, interval_ms as int);
    }
    match ts_ms.checked_rem_euclid(interval_ms) {
        Some(rest) => ts_ms - rest,
        None => ts_ms,
    }
}

/// A remainder is not negative, whatever the sign of the divisor.
proof fn lemma_negative_divisor(x: int, d: int)
    by (nonlinear_arith)
    requires
        d < 0,
    ensures
        0 <= x % d < -d,
{
}

/// Without its remainder a number is a multiple.
proof fn lemma_rest_divides(x: int, d: int)
    by (nonlinear_arith)
    requires
        d != 0,
    ensures
        (x - x % d) % d == 0,
{
}

/// Milliseconds from `now_ms` to five seconds past the next midnight, when the files of
/// the day before are closed.
pub fn until_midnight_cleanup(now_ms: i64) -> (r: i64)
    ensures
        r == 86_400_000 - now_ms as int % 86_400_000 + 5_000,
        5_000 < r <= 86_405_000,
        (now_ms + r) % 86_400_000 == 5_000,
{
    match now_ms.checked_rem_euclid(DAY_MS) {
        Some(past) => DAY_MS - past + 5_000,
        None => 0,
    }
}

/// Milliseconds from `now_ms` to the next full hour.
pub fn until_next_hour(now_ms: i64) -> (r: i64)
    ensures
        r == 3_600_000 - now_ms as int % 3_600_000,
        0 < r <= 3_600_000,
        (now_ms + r) % 3_600_000 == 0,
{
    match now_ms.checked_rem_euclid(HOUR_MS) {
        Some(past) => HOUR_MS - past,
        None => 0,
    }
}

/// A pattern by which times are written.
pub open spec fn is_time_pattern(pattern: Seq<char>) -> bool {
    ||| pattern == "%Y-%m-%d"@
    ||| pattern == "%Y_%m_%d_%H%M%S"@
    ||| pattern == "%Y-%m-%dT%H:%M:%S%.3fZ"@
}

/// What `chrono` writes for a time in UTC, in milliseconds since the epoch, by a
/// pattern; a time that it cannot represent is written as the epoch.
pub uninterp spec fn utc_text(ms: i64, pattern: Seq<char>) -> Seq<char>;

/// `chrono::DateTime::format` of `DateTime::from_timestamp_millis`, the epoch where that
/// is `None`.
#[verifier::external_body]
pub(crate) fn format_utc(ms: i64, pattern: &str) -> (r: String)
    requires
        is_time_pattern(pattern@),
    ensures
        r@ == utc_text(ms, pattern@),
{
    DateTime::<Utc>::from_timestamp_millis(ms).unwrap_or_default().format(pattern).to_string()
}

/// The first millisecond that `chrono` can represent, that of the year -262143.
pub const FIRST_MS: i64 = -8_334_601_228_800_000;

/// The last millisecond that `chrono` can represent, that of the year 262142.
pub const LAST_MS: i64 = 8_210_266_876_799_999;

/// The hour of the day in UTC: the whole hours since midnight. A time that `chrono` cannot
/// represent counts as the epoch.
pub open spec fn hour_of_day(ms: i64) -> int {
    if FIRST_MS <= ms <= LAST_MS {
        (ms as int % 86_400_000) / 3_600_000
    } else {
        0
    }
}

/// `chrono::Timelike::hour` of `DateTime::from_timestamp_millis`, the epoch where that is
/// `None`: the whole hours since midnight, zero outside the years that `chrono` can
/// represent.
#[verifier::external_body]
pub(crate) fn hour_of(ms: i64) -> (r: u32)
    ensures
        r == hour_of_day(ms),
{
    DateTime::<Utc>::from_timestamp_millis(ms).unwrap_or_default().hour()
}

/// What `chrono` writes for a time in milliseconds, in the form of RFC 3339.
pub uninterp spec fn rfc3339_text(ms: i64) -> Seq<char>;

/// `chrono::DateTime::to_rfc3339` of `DateTime::from_timestamp_millis`, the epoch where
/// that is `None`.
#[verifier::external_body]
pub(crate) fn rfc3339(ms: i64) -> (r: String)
    ensures
        r@ == rfc3339_text(ms),
{
    DateTime::<Utc>::from_timestamp_millis(ms).unwrap_or_default().to_rfc3339()
}

/// What `chrono` writes for a time in whole seconds, in the form of RFC 3339; `None` for
/// a time that it cannot represent.
pub uninterp spec fn rfc3339_of_seconds(seconds: i64) -> Option<Seq<char>>;

/// `chrono::DateTime::to_rfc3339` of `DateTime::from_timestamp`.
#[verifier::external_body]
pub(crate) fn rfc3339_seconds(seconds: i64) -> (r: Option<String>)
    ensures
        match r {
            Some(text) => rfc3339_of_seconds(seconds) == Some(text@),
            None => rfc3339_of_seconds(seconds) is None,
        },
{
    DateTime::from_timestamp(seconds, 0).map(|dt| dt.to_rfc3339())
}

/// `chrono` reads the text as a date of the form year, month, day.
pub uninterp spec fn is_date(s: Seq<char>) -> bool;

/// `chrono::NaiveDate::parse_from_str` with the pattern `%Y-%m-%d` succeeds.
#[verifier::external_body]
pub(crate) fn parses_as_date(s: &str) -> (r: bool)
    ensures
        r == is_date(s@),
{
    NaiveDate::parse_from_str(s, "%Y-%m-%d").is_ok()
}

/// Hours follow one another through the day, each for an hour; the day starts with the
/// epoch's.
pub proof fn hours_follow_one_another(ms: i64, within: int)
    requires
        -8_334_601_228_800_000 <= ms,
        ms + 90_000_000 <= 8_210_266_876_799_999,
    ensures
        0 <= hour_of_day(ms) < 24,
        hour_of_day((ms + 3_600_000) as i64) == (if hour_of_day(ms) == 23 {
            0
        } else {
            hour_of_day(ms) + 1
        }),
        hour_of_day((ms + 86_400_000) as i64) == hour_of_day(ms),
        ms as int % 3_600_000 == 0 && 0 <= within < 3_600_000 ==> hour_of_day((ms + within) as i64)
            == hour_of_day(ms),
        hour_of_day(0) == 0,
{
    let x = ms as int;
    let day = x / 86_400_000;
    let hour = (x % 86_400_000) / 3_600_000;
    let rest = (x % 86_400_000) % 3_600_000;
    lemma_hour(x, day, hour, rest);
    lemma_hour(x + 86_400_000, day + 1, hour, rest);
    if hour == 23 {
        lemma_hour(x + 3_600_000, day + 1, 0, rest);
    } else {
        lemma_hour(x + 3_600_000, day, hour + 1, rest);
    }
    if x % 3_600_000 == 0 && 0 <= within < 3_600_000 {
        assert(rest == 0) by {
            assert(x == 3_600_000 * (24 * day + hour) + rest);
        }
        lemma_hour(x + within, day, hour, within);
    }
}

proof fn lemma_hour(x: int, day: int, hour: int, rest: int)
    requires
        x == 86_400_000 * day + 3_600_000 * hour + rest,
        0 <= hour < 24,
        0 <= rest < 3_600_000,
    ensures
        (x % 86_400_000) / 3_600_000 == hour,
{
    let within = 3_600_000 * hour + rest;
    assert(x % 86_400_000 == within) by {
        vstd::arithmetic::div_mod::lemma_fundamental_div_mod_converse(x, 86_400_000, day, within);
    }
    vstd::arithmetic::div_mod::lemma_fundamental_div_mod_converse(within, 3_600_000, hour, rest);
}

} // verus!
