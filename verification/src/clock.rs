//! Calendar arithmetic for the generation stamp of the slide-text export:
//! seconds since the Unix epoch to a Japan Standard Time date and time.
use vstd::prelude::*;

use crate::text::{padded, push_padded, string_of};

verus! {

/// Gregorian leap year.
pub open spec fn is_leap_year(y: int) -> bool {
    (y % 4 == 0 && y % 100 != 0) || y % 400 == 0
}

pub open spec fn year_len(y: int) -> int {
    if is_leap_year(y) {
        366
    } else {
        365
    }
}

/// Days in month `m` (1 = January) of year `y`.
pub open spec fn month_len(y: int, m: int) -> int {
    if m == 2 {
        if is_leap_year(y) {
            29
        } else {
            28
        }
    } else if m == 4 || m == 6 || m == 9 || m == 11 {
        30
    } else {
        31
    }
}

/// The year that day `rem` (counted from the first day of year `y`) falls
/// in, and the day's index within that year.
pub open spec fn year_of_day(y: int, rem: int) -> (int, int)
    decreases rem,
{
    if rem < year_len(y) {
        (y, rem)
    } else {
        year_of_day(y + 1, rem - year_len(y))
    }
}

/// The month (from `m` on) that day `rem` of year `y` falls in, and the
/// day of that month (from 1).
pub open spec fn month_of_day(y: int, m: int, rem: int) -> (int, int)
    decreases 12 - m,
{
    if m >= 12 || rem < month_len(y, m) {
        (m, rem + 1)
    } else {
        month_of_day(y, m + 1, rem - month_len(y, m))
    }
}

/// Year, month and day of the `days`-th day after 1970-01-01.
pub open spec fn civil_date(days: int) -> (int, int, int) {
    let (y, r) = year_of_day(1970, days);
    let (m, d) = month_of_day(y, 1, r);
    (y, m, d)
}

/// `YYYY-MM-DD hh:mm:ss` for `total` seconds after 1970-01-01 00:00:00.
pub open spec fn datetime_text(total: nat) -> Seq<char> {
    let (y, m, d) = civil_date(total as int / 86400);
    padded(y as nat, 4) + "-"@ + padded(m as nat, 2) + "-"@ + padded(d as nat, 2) + " "@
        + padded(((total / 3600) % 24) as nat, 2) + ":"@ + padded(((total / 60) % 60) as nat, 2)
        + ":"@ + padded((total % 60) as nat, 2)
}

/// The Japan Standard Time (UTC+9) stamp of a Unix time in seconds.
pub open spec fn jst_datetime_text(unix_secs: nat) -> Seq<char> {
    datetime_text(unix_secs + 32400)
}

/// Whether `y` is a leap year.
pub fn is_leap(y: i64) -> (r: bool)
    ensures
        r == is_leap_year(y as int),
{
    let m4: i64 = y % 4;
    let m100: i64 = y % 100;
    let m400: i64 = y % 400;
    (m4 == 0 && m100 != 0) || (m400 == 0)
}

fn year_length(y: u64) -> (r: u64)
    requires
        y <= i64::MAX,
    ensures
        r == year_len(y as int),
{
    if is_leap(y as i64) {
        366
    } else {
        365
    }
}

fn month_length(y: u64, m: u64) -> (r: u64)
    requires
        y <= i64::MAX,
    ensures
        r == month_len(y as int, m as int),
{
    if m == 2 {
        if is_leap(y as i64) {
            29
        } else {
            28
        }
    } else if m == 4 || m == 6 || m == 9 || m == 11 {
        30
    } else {
        31
    }
}

/// The date and time of a Unix time in Japan Standard Time, as
/// `YYYY-MM-DD hh:mm:ss`.
pub fn format_jst_datetime(unix_secs: u64) -> (r: String)
    ensures
        r@ == jst_datetime_text(unix_secs as nat),
{
    let ghost total: nat = unix_secs as nat + 32400;
    let mut days: u64 = unix_secs / 86400;
    let mut secs_of_day: u64 = unix_secs % 86400 + 32400;
    if secs_of_day >= 86400 {
        days = days + 1;
        secs_of_day = secs_of_day - 86400;
    }
    proof {
        assert(days == total / 86400 && secs_of_day == total % 86400) by (nonlinear_arith)
            requires
                total == unix_secs + 32400,
                secs_of_day < 86400,
                days * 86400 + secs_of_day == unix_secs / 86400 * 86400 + unix_secs % 86400
                    + 32400,
                unix_secs / 86400 * 86400 + unix_secs % 86400 == unix_secs,
        ;
        assert((total / 3600) % 24 == secs_of_day / 3600 && (total / 60) % 60 == (secs_of_day
            % 3600) / 60 && total % 60 == secs_of_day % 60) by (nonlinear_arith)
            requires
                secs_of_day == total % 86400,
                days == total / 86400,
                total == days * 86400 + secs_of_day,
                secs_of_day < 86400,
        ;
    }
    let hh: u64 = secs_of_day / 3600;
    let mm: u64 = (secs_of_day % 3600) / 60;
    let ss: u64 = secs_of_day % 60;
    let mut y: u64 = 1970;
    let mut remaining: u64 = days;
    while remaining >= year_length(y)
        invariant
            1970 <= y <= 1970 + (days - remaining),
            remaining <= days,
            days < 0x1000_0000_0000_0000,
            year_of_day(1970, days as int) == year_of_day(y as int, remaining as int),
        decreases remaining,
    {
        let len = year_length(y);
        remaining = remaining - len;
        y = y + 1;
    }
    let ghost yr = year_of_day(1970, days as int);
    assert(yr == (y as int, remaining as int));
    let mut mon: u64 = 1;
    while mon < 12 && remaining >= month_length(y, mon)
        invariant
            1 <= mon <= 12,
            y <= i64::MAX,
            remaining <= days < 0x1000_0000_0000_0000,
            month_of_day(yr.0, 1, yr.1) == month_of_day(y as int, mon as int, remaining as int),
        decreases 12 - mon,
    {
        let len = month_length(y, mon);
        remaining = remaining - len;
        mon = mon + 1;
    }
    let d: u64 = remaining + 1;
    let mut out: Vec<char> = Vec::new();
    push_padded(&mut out, y, 4);
    out.push('-');
    push_padded(&mut out, mon, 2);
    out.push('-');
    push_padded(&mut out, d, 2);
    out.push(' ');
    push_padded(&mut out, hh, 2);
    out.push(':');
    push_padded(&mut out, mm, 2);
    out.push(':');
    push_padded(&mut out, ss, 2);
    proof {
        reveal_strlit("-");
        reveal_strlit(" ");
        reveal_strlit(":");
        assert(out@ =~= jst_datetime_text(unix_secs as nat));
    }
    string_of(out.as_slice())
}

/// The Unix time in seconds read from the system clock (zero before the
/// epoch). Nothing is promised of the value: it depends on the clock.
#[verifier::external_body]
fn unix_time_secs() -> u64 {
    std::time::SystemTime::now()
        .duration_since(std::time::UNIX_EPOCH)
        .unwrap_or_default()
        .as_secs()
}

/// The current date and time in Japan Standard Time, as
/// `YYYY-MM-DD hh:mm:ss`.
pub fn chrono_now() -> (r: String)
    ensures
        exists|s: nat| #[trigger] jst_datetime_text(s) == r@,
{
    let secs = unix_time_secs();
    format_jst_datetime(secs)
}

/// The civil date of a day number is a real calendar date: the month lies
/// in 1..=12 and the day within that month's length.
pub proof fn law_civil_date_valid(days: nat)
    ensures
        1 <= civil_date(days as int).1 <= 12,
        1 <= civil_date(days as int).2 <= month_len(
            civil_date(days as int).0,
            civil_date(days as int).1,
        ),
        civil_date(days as int).0 >= 1970,
{
    lemma_year_of_day(1970, days as int);
    let (y, r) = year_of_day(1970, days as int);
    assert(days_from_month(y, 1) == year_len(y)) by {
        reveal_with_fuel(days_from_month, 13);
    }
    lemma_month_of_day(y, 1, r);
}

proof fn lemma_year_of_day(y: int, rem: int)
    requires
        rem >= 0,
    ensures
        0 <= year_of_day(y, rem).1 < year_len(year_of_day(y, rem).0),
        year_of_day(y, rem).0 >= y,
    decreases rem,
{
    if rem >= year_len(y) {
        lemma_year_of_day(y + 1, rem - year_len(y));
    }
}

/// Days in the months `m..=12` of year `y`.
spec fn days_from_month(y: int, m: int) -> int
    decreases 13 - m,
{
    if m > 12 {
        0
    } else {
        month_len(y, m) + days_from_month(y, m + 1)
    }
}

proof fn lemma_month_of_day(y: int, m: int, rem: int)
    requires
        1 <= m <= 12,
        0 <= rem < days_from_month(y, m),
    ensures
        m <= month_of_day(y, m, rem).0 <= 12,
        1 <= month_of_day(y, m, rem).1 <= month_len(y, month_of_day(y, m, rem).0),
    decreases 12 - m,
{
    if m >= 12 {
        assert(days_from_month(y, 13) == 0);
    } else if rem >= month_len(y, m) {
        lemma_month_of_day(y, m + 1, rem - month_len(y, m));
    }
}

/// Days from 1970-01-01 to the first day of year `y`.
pub open spec fn days_before_year(y: int) -> int
    decreases y - 1970,
{
    if y <= 1970 {
        0
    } else {
        days_before_year(y - 1) + year_len(y - 1)
    }
}

/// Days from the first day of year `y` to the first day of month `m`.
pub open spec fn days_before_month(y: int, m: int) -> int
    decreases m,
{
    if m <= 1 {
        0
    } else {
        days_before_month(y, m - 1) + month_len(y, m - 1)
    }
}

proof fn lemma_year_of_day_sum(y: int, rem: int)
    requires
        y >= 1970,
        rem >= 0,
    ensures
        days_before_year(year_of_day(y, rem).0) + year_of_day(y, rem).1 == days_before_year(y)
            + rem,
    decreases rem,
{
    if rem >= year_len(y) {
        lemma_year_of_day_sum(y + 1, rem - year_len(y));
    }
}

proof fn lemma_month_of_day_sum(y: int, m: int, rem: int)
    requires
        1 <= m <= 12,
        rem >= 0,
    ensures
        days_before_month(y, month_of_day(y, m, rem).0) + month_of_day(y, m, rem).1 - 1
            == days_before_month(y, m) + rem,
    decreases 12 - m,
{
    if !(m >= 12 || rem < month_len(y, m)) {
        lemma_month_of_day_sum(y, m + 1, rem - month_len(y, m));
    }
}

/// The civil date of a day number is the calendar date that many days
/// after 1970-01-01: the days of the years before it, of the months before
/// it in its year, and the days before it in its month add up to the day
/// number.
pub proof fn law_civil_date_counts_days(days: nat)
    ensures
        ({
            let (y, m, d) = civil_date(days as int);
            days_before_year(y) + days_before_month(y, m) + d - 1 == days
        }),
{
    lemma_year_of_day_sum(1970, days as int);
    lemma_year_of_day(1970, days as int);
    let (y, r) = year_of_day(1970, days as int);
    lemma_month_of_day_sum(y, 1, r);
}

} // verus!
