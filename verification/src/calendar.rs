//! Proleptic Gregorian calendar arithmetic for days counted from 1970-01-01,
//! and the `YYYY-MM-DD HH:MM:SS` text of a Unix time.
use vstd::prelude::*;
use crate::text::{padded, push_padded};

verus! {

/// Whether `y` is a leap year of the Gregorian calendar.
pub open spec fn leap(y: int) -> bool {
    (y % 4 == 0 && y % 100 != 0) || y % 400 == 0
}

/// Number of days of year `y`.
pub open spec fn year_len(y: int) -> int {
    if leap(y) { 366 } else { 365 }
}

/// Number of days of month `m` (1 to 12) of year `y`.
pub open spec fn month_len(y: int, m: int) -> int {
    if m == 2 {
        if leap(y) { 29 } else { 28 }
    } else if m == 4 || m == 6 || m == 9 || m == 11 {
        30
    } else {
        31
    }
}

/// The Gregorian month lengths, as the rule that the months up to July and
/// from August on alternate 31 and 30 days (February aside): January, March,
/// May, July, August, October and December have 31 days; April, June,
/// September and November 30; February 29 in a leap year, else 28.
pub proof fn lemma_month_len_rule(y: int, m: int)
    requires
        1 <= m <= 12,
    ensures
        month_len(y, m) == if m == 2 {
            if leap(y) { 29int } else { 28int }
        } else {
            30 + (m + m / 8) % 2
        },
{
}

/// The first days of the months of a year fall on the days counted by the
/// Gregorian table: 0, 31, 59 (60 in a leap year), 90, 120, 151, 181, 212,
/// 243, 273, 304, 334, and the months fill the year.
pub proof fn lemma_month_starts(y: int)
    ensures
        days_before_month(y, 1) == 0,
        days_before_month(y, 2) == 31,
        days_before_month(y, 3) == 59 + (if leap(y) { 1int } else { 0int }),
        days_before_month(y, 4) == 90 + (if leap(y) { 1int } else { 0int }),
        days_before_month(y, 5) == 120 + (if leap(y) { 1int } else { 0int }),
        days_before_month(y, 6) == 151 + (if leap(y) { 1int } else { 0int }),
        days_before_month(y, 7) == 181 + (if leap(y) { 1int } else { 0int }),
        days_before_month(y, 8) == 212 + (if leap(y) { 1int } else { 0int }),
        days_before_month(y, 9) == 243 + (if leap(y) { 1int } else { 0int }),
        days_before_month(y, 10) == 273 + (if leap(y) { 1int } else { 0int }),
        days_before_month(y, 11) == 304 + (if leap(y) { 1int } else { 0int }),
        days_before_month(y, 12) == 334 + (if leap(y) { 1int } else { 0int }),
        days_before_month(y, 13) == year_len(y),
{
    reveal_with_fuel(days_before_month, 13);
}

/// Days from 1970-01-01 to the first day of year `y` (for `y >= 1970`).
pub open spec fn days_before_year(y: int) -> int
    decreases y - 1970,
{
    if y <= 1970 { 0 } else { days_before_year(y - 1) + year_len(y - 1) }
}

/// Days from the first day of year `y` to the first day of its month `m`.
pub open spec fn days_before_month(y: int, m: int) -> int
    decreases m,
{
    if m <= 1 { 0 } else { days_before_month(y, m - 1) + month_len(y, m - 1) }
}

/// A date of the calendar from 1970 on.
pub open spec fn valid_date(y: int, m: int, d: int) -> bool {
    y >= 1970 && 1 <= m <= 12 && 1 <= d <= month_len(y, m)
}

/// The number of days from 1970-01-01 to the date `y-m-d`.
pub open spec fn days_from_civil(y: int, m: int, d: int) -> int {
    days_before_year(y) + days_before_month(y, m) + d - 1
}

/// The date that lies `n` days after 1970-01-01 (for `n >= 0`).
pub open spec fn civil_date(n: int) -> (int, int, int) {
    choose|t: (int, int, int)| valid_date(t.0, t.1, t.2) && days_from_civil(t.0, t.1, t.2) == n
}

/// A year has at least 365 days, so `y` years after 1970 hold at least `365 * (y - 1970)` days.
pub proof fn lemma_days_before_year_lower(y: int)
    requires
        y >= 1970,
    ensures
        days_before_year(y) >= 365 * (y - 1970),
    decreases y - 1970,
{
    if y > 1970 {
        lemma_days_before_year_lower(y - 1);
    }
}

/// `days_before_year` grows by at least a year's length per year.
pub proof fn lemma_days_before_year_mono(a: int, b: int)
    requires
        1970 <= a < b,
    ensures
        days_before_year(a) + year_len(a) <= days_before_year(b),
    decreases b - a,
{
    if b > a + 1 {
        lemma_days_before_year_mono(a, b - 1);
    }
}

/// The months of a year add up to the year.
pub proof fn lemma_months_fill_year(y: int)
    ensures
        days_before_month(y, 13) == year_len(y),
{
    reveal_with_fuel(days_before_month, 13);
}

/// `days_before_month` grows by at least a month's length per month.
pub proof fn lemma_days_before_month_mono(y: int, a: int, b: int)
    requires
        1 <= a < b,
    ensures
        days_before_month(y, a) + month_len(y, a) <= days_before_month(y, b),
    decreases b - a,
{
    if b > a + 1 {
        lemma_days_before_month_mono(y, a, b - 1);
    }
}

/// A date lies within its year.
pub proof fn lemma_date_within_year(y: int, m: int, d: int)
    requires
        valid_date(y, m, d),
    ensures
        days_before_year(y) <= days_from_civil(y, m, d) < days_before_year(y) + year_len(y),
{
    lemma_months_fill_year(y);
    lemma_days_before_month_mono(y, m, 13);
    lemma_days_before_month_nonneg(y, m);
}

/// Days before a month are never negative.
pub proof fn lemma_days_before_month_nonneg(y: int, m: int)
    ensures
        days_before_month(y, m) >= 0,
    decreases m,
{
    if m > 1 {
        lemma_days_before_month_nonneg(y, m - 1);
    }
}

/// Two dates at the same number of days from 1970-01-01 are the same date.
pub proof fn lemma_civil_unique(y1: int, m1: int, d1: int, y2: int, m2: int, d2: int)
    requires
        valid_date(y1, m1, d1),
        valid_date(y2, m2, d2),
        days_from_civil(y1, m1, d1) == days_from_civil(y2, m2, d2),
    ensures
        y1 == y2 && m1 == m2 && d1 == d2,
{
    lemma_date_within_year(y1, m1, d1);
    lemma_date_within_year(y2, m2, d2);
    if y1 < y2 {
        lemma_days_before_year_mono(y1, y2);
    } else if y2 < y1 {
        lemma_days_before_year_mono(y2, y1);
    }
    assert(y1 == y2);
    if m1 < m2 {
        lemma_days_before_month_mono(y1, m1, m2);
    } else if m2 < m1 {
        lemma_days_before_month_mono(y1, m2, m1);
    }
}

/// Whether `y` is a leap year: divisible by 4 but not by 100, or divisible by 400.
pub fn is_leap(y: i64) -> (r: bool)
    ensures
        r == leap(y as int),
{
    (y % 4 == 0 && y % 100 != 0) || (y % 400 == 0)
}

/// Number of days of month `m` of year `y`.
fn month_days(y: i64, m: i64) -> (r: i64)
    requires
        1 <= m <= 12,
    ensures
        r == month_len(y as int, m as int),
{
    if m == 2 {
        if is_leap(y) { 29 } else { 28 }
    } else if m == 4 || m == 6 || m == 9 || m == 11 {
        30
    } else {
        31
    }
}

/// Converts a number of days since 1970-01-01 into `(year, month, day)`.
///
/// For a negative count the year loop stops at once and the result is
/// `(1970, 1, days + 1)`.
pub fn days_since_epoch(days: i64) -> (r: (i64, i64, i64))
    ensures
        days >= 0 ==> valid_date(r.0 as int, r.1 as int, r.2 as int)
            && days_from_civil(r.0 as int, r.1 as int, r.2 as int) == days,
        days >= 0 ==> (r.0 as int, r.1 as int, r.2 as int) == civil_date(days as int),
        days < 0 ==> r == (1970i64, 1i64, (days + 1) as i64),
{
    let mut y: i64 = 1970;
    let mut d: i64 = days;
    loop
        invariant_except_break
            y >= 1970,
            days >= 0 ==> d >= 0 && days_before_year(y as int) + d == days,
            days < 0 ==> y == 1970 && d == days,
        ensures
            y >= 1970,
            days >= 0 ==> d >= 0 && days_before_year(y as int) + d == days && d < year_len(y as int),
            days < 0 ==> y == 1970 && d == days,
        decreases d,
    {
        let days_in_year: i64 = if is_leap(y) { 366 } else { 365 };
        if d < days_in_year {
            break;
        }
        proof {
            lemma_days_before_year_lower(y as int);
        }
        d -= days_in_year;
        y += 1;
    }
    let ghost d_year = d;
    proof {
        lemma_months_fill_year(y as int);
    }
    let mut m: i64 = 0;
    let mut i: i64 = 1;
    while i <= 12
        invariant_except_break
            1 <= i <= 13,
            m == 0,
            days >= 0 ==> d >= 0 && days_before_month(y as int, i as int) + d == d_year,
            days < 0 ==> i == 1 && d == days,
            days >= 0 ==> d_year < days_before_month(y as int, 13),
        ensures
            days >= 0 ==> 1 <= m <= 12 && 0 <= d < month_len(y as int, m as int)
                && days_before_month(y as int, m as int) + d == d_year,
            days < 0 ==> m == 1 && d == days,
        decreases 13 - i,
    {
        let dm = month_days(y, i);
        if d < dm {
            m = i;
            break;
        }
        d -= dm;
        i += 1;
    }
    if m == 0 {
        m = 12;
    }
    proof {
        if days >= 0 {
            let t = (y as int, m as int, (d + 1) as int);
            assert(valid_date(t.0, t.1, t.2) && days_from_civil(t.0, t.1, t.2) == days);
            let c = civil_date(days as int);
            lemma_civil_unique(t.0, t.1, t.2, c.0, c.1, c.2);
        }
    }
    (y, m, d + 1)
}

/// The text `YYYY-MM-DD HH:MM:SS` (UTC) of `secs` seconds after the Unix epoch.
pub open spec fn timestamp_text(secs: nat) -> Seq<char> {
    let days = secs / 86400;
    let rest = secs % 86400;
    let date = civil_date(days as int);
    padded(date.0 as nat, 4) + seq!['-'] + padded(date.1 as nat, 2) + seq!['-']
        + padded(date.2 as nat, 2) + seq![' '] + padded(rest / 3600, 2) + seq![':']
        + padded((rest % 3600) / 60, 2) + seq![':'] + padded(rest % 60, 2)
}

/// Formats `secs` seconds after the Unix epoch as `YYYY-MM-DD HH:MM:SS` (UTC).
pub fn format_timestamp(secs: u64) -> (s: String)
    ensures
        s@ == timestamp_text(secs as nat),
{
    let days = secs / 86400;
    let remaining = secs % 86400;
    let hours = remaining / 3600;
    let minutes = (remaining % 3600) / 60;
    let seconds = remaining % 60;
    let (year, month, day) = days_since_epoch(days as i64);
    let mut s = String::new();
    push_padded(&mut s, year as u64, 4);
    proof { reveal_strlit("-"); reveal_strlit(" "); reveal_strlit(":"); }
    s.append("-");
    push_padded(&mut s, month as u64, 2);
    s.append("-");
    push_padded(&mut s, day as u64, 2);
    s.append(" ");
    push_padded(&mut s, hours, 2);
    s.append(":");
    push_padded(&mut s, minutes, 2);
    s.append(":");
    push_padded(&mut s, seconds, 2);
    assert(s@ =~= timestamp_text(secs as nat));
    s
}

} // verus!
