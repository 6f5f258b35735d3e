//! Calendar dates written `YYYY-MM-DD`, counted in days since 1970-01-01.

use crate::text;
use vstd::prelude::*;

verus! {

broadcast use vstd::string::group_string_axioms;

/// The number of seconds of a day.
pub const DAY: i64 = 86400;

/// The first day of the calendar: 1 January of the year -262143.
pub const FIRST_DAY: i64 = -96465292;

/// The last day of the calendar: 31 December of the year 262142.
pub const LAST_DAY: i64 = 95026236;

/// The midnight that begins the date which `chrono::NaiveDate::parse_from_str`
/// reads from a text under a format, in seconds since the epoch.
pub uninterp spec fn midnight(s: Seq<char>, fmt: Seq<char>) -> Option<i64>;

/// The text that `chrono::DateTime::format` writes, under a format, for a time
/// given in seconds since the epoch.
pub uninterp spec fn date_text(secs: i64, fmt: Seq<char>) -> Option<Seq<char>>;

/// Reads a date with `chrono::NaiveDate::parse_from_str` and gives its midnight
/// in seconds since the epoch, or None where the text is no date in that format.
/// A date has no time of day, so the seconds are a whole number of days, and it
/// lies in chrono's calendar.
#[verifier::external_body]
fn read_midnight(s: &str, fmt: &str) -> (r: Option<i64>)
    ensures
        r == midnight(s@, fmt@),
        r matches Some(t) ==> t % DAY == 0 && FIRST_DAY * DAY <= t <= LAST_DAY * DAY,
{
    match chrono::NaiveDate::parse_from_str(s, fmt) {
        Ok(date) => Some(date.and_hms_opt(0, 0, 0).unwrap().and_utc().timestamp()),
        Err(_) => None,
    }
}

/// Writes the date of a time, given in seconds since the epoch, with
/// `chrono::DateTime::from_timestamp` and `chrono::DateTime::format`. None where
/// the time is outside of chrono's calendar. The text of a midnight reads back as
/// that midnight. A format that chrono rejects would make it panic, so only the
/// one in use here is admitted.
#[verifier::external_body]
fn write_date(secs: i64, fmt: &str) -> (r: Option<String>)
    requires
        fmt@ == "%Y-%m-%d"@,
    ensures
        text::opt_str(r) == date_text(secs, fmt@),
        r is Some <==> FIRST_DAY * DAY <= secs < (LAST_DAY + 1) * DAY,
        r matches Some(s) ==> (secs % DAY == 0 ==> midnight(s@, fmt@) == Some(secs)),
{
    match chrono::DateTime::from_timestamp(secs, 0) {
        Some(time) => Some(time.format(fmt).to_string()),
        None => None,
    }
}

/// The day that a text names; day 0 where it names none.
pub open spec fn day_of(s: Seq<char>) -> int {
    match midnight(s, "%Y-%m-%d"@) {
        Some(t) => t as int / DAY as int,
        None => 0,
    }
}

/// The text of a day; empty outside of the calendar.
pub open spec fn text_of(day: int) -> Seq<char> {
    match date_text((day * DAY) as i64, "%Y-%m-%d"@) {
        Some(s) => s,
        None => Seq::empty(),
    }
}

/// A day of the calendar.
pub open spec fn on_calendar(day: int) -> bool {
    FIRST_DAY <= day <= LAST_DAY
}

/// The seconds up to a day fit a machine integer.
pub open spec fn countable(day: int) -> bool {
    i64::MIN <= day * DAY <= i64::MAX
}

/// Half of a number, rounded toward zero.
pub open spec fn half(n: int) -> int {
    if n >= 0 {
        n / 2
    } else {
        -((-n) / 2)
    }
}

/// The day that a text names; day 0 where it names none.
pub fn parse_date(s: &str) -> (r: i64)
    ensures
        r == day_of(s@),
        on_calendar(r as int),
{
    match read_midnight(s, "%Y-%m-%d") {
        Some(t) => {
            if t >= 0 {
                t / DAY
            } else {
                let days: i64 = (0 - t) / DAY;
                assert(t as int == (t as int / DAY as int) * DAY);
                0 - days
            }
        },
        None => 0,
    }
}

/// The text of a day; empty outside of the calendar. The text of a day of the
/// calendar names that day.
pub fn format_date(days: i64) -> (r: String)
    requires
        countable(days as int),
    ensures
        r@ == text_of(days as int),
        on_calendar(days as int) ==> day_of(r@) == days,
        !on_calendar(days as int) ==> r@.len() == 0,
{
    let secs: i64 = days * DAY;
    assert(secs % DAY == 0);
    match write_date(secs, "%Y-%m-%d") {
        Some(s) => s,
        None => String::new(),
    }
}

/// The day halfway between two dates.
pub fn mid_date(a: &str, b: &str) -> (r: String)
    ensures
        r@ == text_of(half(day_of(a@) + day_of(b@))),
        day_of(r@) == half(day_of(a@) + day_of(b@)),
        on_calendar(day_of(r@)),
{
    let sum: i64 = parse_date(a) + parse_date(b);
    let mid: i64 = if sum >= 0 {
        sum / 2
    } else {
        0 - (0 - sum) / 2
    };
    format_date(mid)
}

/// The date `n` days after a date.
pub fn add_days(date: &str, n: i64) -> (r: String)
    requires
        countable(day_of(date@) + n),
    ensures
        r@ == text_of(day_of(date@) + n),
        on_calendar(day_of(date@) + n) ==> day_of(r@) == day_of(date@) + n,
        !on_calendar(day_of(date@) + n) ==> r@.len() == 0,
{
    let day: i64 = parse_date(date);
    format_date(day + n)
}

/// The date `n` days after a date, or None where the seconds up to it do not fit
/// a machine integer.
pub fn checked_add_days(date: &str, n: i64) -> (r: Option<String>)
    ensures
        r is Some <==> countable(day_of(date@) + n),
        r matches Some(s) ==> s@ == text_of(day_of(date@) + n),
{
    let day: i64 = parse_date(date);
    match day.checked_add(n) {
        None => None,
        Some(sum) => match sum.checked_mul(DAY) {
            None => None,
            Some(_) => Some(add_days(date, n)),
        },
    }
}

/// Bisecting a window of days: the earlier half ends at the middle, the later
/// half starts on the day after it. Together they hold each day of the window and
/// no other, and no day is in both. Since 1970 both halves hold a day.
pub proof fn lemma_halves_partition(start: int, end: int, day: int)
    requires
        start < end,
    ensures
        start <= half(start + end) <= end,
        (start <= day <= end) <==> (start <= day <= half(start + end) || half(start + end) + 1
            <= day <= end),
        !(start <= day <= half(start + end) && half(start + end) + 1 <= day <= end),
        0 <= start ==> half(start + end) < end,
{
}

/// The middle of two days is as far from the one as from the other, but for half a
/// day, and times before and after the epoch are treated alike.
pub proof fn lemma_middle(a: int, b: int)
    ensures
        -1 <= (b - half(a + b)) - (half(a + b) - a) <= 1,
        (a + b) % 2 == 0 ==> b - half(a + b) == half(a + b) - a,
        half(-a - b) == -half(a + b),
        half(a + b) == half(b + a),
{
}

} // verus!
