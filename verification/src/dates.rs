//! Calendar dates and the days and seconds since 1970-01-01.

use vstd::prelude::*;
use vstd::utf8::encode_utf8;
use crate::numbers::{
    all_digits, digits_value, padded, parse_unsigned, push_padded, unsigned_value, within,
};
use crate::text::trimmed;

verus! {

/// Whether a year has 366 days.
pub open spec fn leap(y: int) -> bool {
    (y % 4 == 0 && y % 100 != 0) || y % 400 == 0
}

/// Days of month `m`, from 1 to 12.
pub open spec fn month_len(y: int, m: int) -> int {
    if m == 2 {
        if leap(y) {
            29
        } else {
            28
        }
    } else if m == 4 || m == 6 || m == 9 || m == 11 {
        30
    } else {
        31
    }
}

/// Days from the start of the year to that of month `m`.
pub open spec fn days_before_month(y: int, m: int) -> int
    decreases m,
{
    if m <= 1 {
        0
    } else {
        days_before_month(y, m - 1) + month_len(y, m - 1)
    }
}

/// Days of a year.
pub open spec fn year_len(y: int) -> int {
    if leap(y) {
        366
    } else {
        365
    }
}

/// Days from 0000-01-01 to the start of year `y`: 365 for each year and one
/// for each leap year.
pub open spec fn days_before_year(y: int) -> int {
    365 * y + (y + 3) / 4 - (y + 99) / 100 + (y + 399) / 400
}

/// Days from 1970-01-01 to a date. Day numbers past the end of the month count
/// into the next.
pub open spec fn epoch_days(y: int, m: int, d: int) -> int {
    days_before_year(y) + days_before_month(y, m) + d - 1 - 719528
}

/// Whether there is such a day.
pub open spec fn valid_date(y: int, m: int, d: int) -> bool {
    1 <= m <= 12 && 1 <= d <= month_len(y, m)
}

/// The next year starts after the days of this one.
pub proof fn lemma_year_step(y: int)
    requires
        y >= 0,
    ensures
        days_before_year(y + 1) == days_before_year(y) + year_len(y),
{
}

/// The day of a date, from 1970 on; the date of a day.
pub fn days_to_ymd(days: u64) -> (r: (u64, u64, u64))
    ensures
        r.0 >= 1970,
        valid_date(r.0 as int, r.1 as int, r.2 as int),
        epoch_days(r.0 as int, r.1 as int, r.2 as int) == days,
{
    let mut left: u64 = days;
    let mut y: u64 = 1970;
    let mut ylen: u64 = 365;
    while left >= ylen
        invariant
            y >= 1970,
            ylen == year_len(y as int),
            left + days_before_year(y as int) - 719528 == days,
            y - 1970 + left <= days,
        decreases left,
    {
        proof {
            lemma_year_step(y as int);
        }
        left = left - ylen;
        y = y + 1;
        let is_leap: bool = (y % 4 == 0 && y % 100 != 0) || y % 400 == 0;
        ylen = if is_leap {
            366
        } else {
            365
        };
    }
    let is_leap: bool = (y % 4 == 0 && y % 100 != 0) || y % 400 == 0;
    let ghost start = left as int;
    let mut m: u64 = 1;
    let mut mlen: u64 = 31;
    proof {
        lemma_months(y as int);
    }
    while m < 12 && left >= mlen
        invariant
            1 <= m <= 12,
            is_leap == leap(y as int),
            mlen == month_len(y as int, m as int),
            left + days_before_month(y as int, m as int) == start,
            start < year_len(y as int),
            days_before_month(y as int, 12) + 31 == year_len(y as int),
        decreases 12 - m,
    {
        left = left - mlen;
        m = m + 1;
        mlen = if m == 2 {
            if is_leap {
                29
            } else {
                28
            }
        } else if m == 4 || m == 6 || m == 9 || m == 11 {
            30
        } else {
            31
        };
    }
    (y, m, left + 1)
}

/// The twelve months make up the year.
proof fn lemma_months(y: int)
    ensures
        days_before_month(y, 12) + 31 == year_len(y),
{
    reveal_with_fuel(days_before_month, 13);
}

proof fn lemma_month_order(y: int, m: int, n: int)
    requires
        1 <= m < n,
    ensures
        days_before_month(y, m) + month_len(y, m) <= days_before_month(y, n),
    decreases n,
{
    if m + 1 < n {
        lemma_month_order(y, m, n - 1);
    }
}

proof fn lemma_year_order(y: int, z: int)
    requires
        0 <= y < z,
    ensures
        days_before_year(y) + year_len(y) <= days_before_year(z),
    decreases z - y,
{
    lemma_year_step(y);
    if y + 1 < z {
        lemma_year_order(y + 1, z);
    }
}

/// Different dates are different days: a date from 1970 on can be told from
/// its day number.
pub proof fn lemma_date_of_day(y: int, m: int, d: int, z: int, n: int, e: int)
    requires
        y >= 0,
        z >= 0,
        valid_date(y, m, d),
        valid_date(z, n, e),
        epoch_days(y, m, d) == epoch_days(z, n, e),
    ensures
        y == z,
        m == n,
        d == e,
{
    lemma_day_in_year(y, m, d);
    lemma_day_in_year(z, n, e);
    if y < z {
        lemma_year_order(y, z);
    } else if z < y {
        lemma_year_order(z, y);
    } else if m < n {
        lemma_month_order(y, m, n);
    } else if n < m {
        lemma_month_order(y, n, m);
    }
}

proof fn lemma_day_in_year(y: int, m: int, d: int)
    requires
        valid_date(y, m, d),
    ensures
        0 <= days_before_month(y, m) + d - 1 < year_len(y),
{
    lemma_months(y);
    reveal_with_fuel(days_before_month, 13);
}

/// A point in time as `YYYY-MM-DD HH:MM:SS`, from its date and the seconds of
/// the day.
pub open spec fn stamp(y: int, m: int, d: int, secs: int) -> Seq<char> {
    padded(y, 4).push('-') + padded(m, 2).push('-') + padded(d, 2).push(' ') + padded(
        secs / 3600,
        2,
    ).push(':') + padded((secs / 60) % 60, 2).push(':') + padded(secs % 60, 2)
}

/// Whether a text is that of a time in seconds since 1970, in UTC. Times before
/// that count as its start.
pub open spec fn time_text(unix_secs: int, s: Seq<char>) -> bool {
    let t = if unix_secs < 0 {
        0
    } else {
        unix_secs
    };
    exists|y: int, m: int, d: int|
        y >= 1970 && #[trigger] valid_date(y, m, d) && epoch_days(y, m, d) == t / 86400 && s
            == stamp(y, m, d, t % 86400)
}

/// A time in seconds since 1970 as text.
pub fn fmt_mtime(unix_secs: i64) -> (s: String)
    ensures
        time_text(unix_secs as int, s@),
{
    let t: u64 = if unix_secs < 0 {
        0
    } else {
        unix_secs as u64
    };
    let secs: u64 = t % 86400;
    let (y, m, d) = days_to_ymd(t / 86400);
    let mut out = String::new();
    push_padded(&mut out, y, 4);
    out.push('-');
    push_padded(&mut out, m, 2);
    out.push('-');
    push_padded(&mut out, d, 2);
    out.push(' ');
    push_padded(&mut out, secs / 3600, 2);
    out.push(':');
    push_padded(&mut out, (secs / 60) % 60, 2);
    out.push(':');
    push_padded(&mut out, secs % 60, 2);
    proof {
        assert(out@ =~= stamp(y as int, m as int, d as int, secs as int));
        assert(valid_date(y as int, m as int, d as int));
    }
    out
}

/// Why a date argument is not understood.
#[derive(Clone, Copy, Debug, PartialEq, Eq, Structural)]
pub enum DateError {
    /// Digits that stand for no 64-bit number of seconds.
    Seconds,
    /// Neither digits nor three parts.
    Shape,
    Year,
    Month,
    Day,
    /// No such month, or no month has such a day.
    Range,
}

/// The place of the first dash at or after `i`, or the end.
pub open spec fn dash_from(s: Seq<u8>, i: int) -> int
    decreases s.len() - i,
{
    if i >= s.len() {
        s.len() as int
    } else if s[i] == 45 {
        i
    } else {
        dash_from(s, i + 1)
    }
}

/// A date argument without the white space around it: seconds since 1970, or
/// a date in UTC as year, month and day with dashes between them.
pub open spec fn date_value(s: Seq<u8>) -> Result<int, DateError> {
    if s.len() > 0 && all_digits(s) {
        match within(unsigned_value(s), 0, i64::MAX as int) {
            Some(v) => Ok(v),
            None => Err(DateError::Seconds),
        }
    } else {
        let a = dash_from(s, 0);
        let b = dash_from(s, a + 1);
        let c = dash_from(s, b + 1);
        if a >= s.len() || b >= s.len() || c < s.len() {
            Err(DateError::Shape)
        } else {
            match within(unsigned_value(s.subrange(0, a)), 0, i32::MAX as int) {
                None => Err(DateError::Year),
                Some(y) => match within(unsigned_value(s.subrange(a + 1, b)), 0, u32::MAX as int) {
                    None => Err(DateError::Month),
                    Some(m) => match within(unsigned_value(s.skip(b + 1)), 0, u32::MAX as int) {
                        None => Err(DateError::Day),
                        Some(d) => if 1 <= m <= 12 && 1 <= d <= 31 {
                            Ok(86400 * epoch_days(y, m, d))
                        } else {
                            Err(DateError::Range)
                        },
                    },
                },
            }
        }
    }
}

proof fn lemma_dash_from(s: Seq<u8>, i: int)
    requires
        0 <= i,
    ensures
        i <= s.len() ==> i <= dash_from(s, i) <= s.len(),
        i > s.len() ==> dash_from(s, i) == s.len(),
    decreases s.len() - i,
{
    if i < s.len() && s[i] != 45 {
        lemma_dash_from(s, i + 1);
    }
}

fn find_dash(s: &[u8], from: usize) -> (p: usize)
    requires
        from <= s@.len(),
    ensures
        p == dash_from(s@, from as int),
        from <= p <= s@.len(),
{
    let mut i: usize = from;
    while i < s.len() && s[i] != 45
        invariant
            from <= i <= s@.len(),
            dash_from(s@, i as int) == dash_from(s@, from as int),
        decreases s@.len() - i,
    {
        i = i + 1;
    }
    i
}

/// Days from 1970-01-01 to a date, by eras of 400 years with the year turned so
/// that it starts in March.
fn days_from_civil(y: u32, m: u32, d: u32) -> (days: i64)
    requires
        y <= i32::MAX,
        1 <= m <= 12,
        1 <= d <= 31,
    ensures
        days == epoch_days(y as int, m as int, d as int),
{
    let yy: i64 = if m <= 2 {
        y as i64 - 1
    } else {
        y as i64
    };
    let era: i64 = if yy >= 0 {
        yy / 400
    } else {
        -1
    };
    let yoe: i64 = yy - era * 400;
    let mm: i64 = if m > 2 {
        m as i64 - 3
    } else {
        m as i64 + 9
    };
    let doy: i64 = (153 * mm + 2) / 5 + d as i64 - 1;
    let doe: i64 = yoe * 365 + yoe / 4 - yoe / 100 + doy;
    proof {
        lemma_civil(y as int, m as int, yy as int, era as int, yoe as int, mm as int);
    }
    era * 146097 + doe - 719468
}

proof fn lemma_civil(y: int, m: int, yy: int, era: int, yoe: int, mm: int)
    requires
        0 <= y <= i32::MAX,
        1 <= m <= 12,
        yy == (if m <= 2 {
            y - 1
        } else {
            y
        }),
        era == (if yy >= 0 {
            yy / 400
        } else {
            -1
        }),
        yoe == yy - era * 400,
        mm == (if m > 2 {
            m - 3
        } else {
            m + 9
        }),
    ensures
        0 <= yoe < 400,
        era * 146097 + yoe * 365 + yoe / 4 - yoe / 100 + (153 * mm + 2) / 5 - 719468
            == days_before_year(y) + days_before_month(y, m) - 719528,
{
    reveal_with_fuel(days_before_month, 13);
    assert(yy == 400 * era + yoe);
    lemma_leap_count(era, yoe);
    if m <= 2 {
        lemma_leap_count_next(era, yoe);
    }
}

proof fn lemma_leap_count(era: int, yoe: int)
    requires
        0 <= yoe < 400,
        era >= -1,
    ensures
        days_before_year(400 * era + yoe) + (if leap(400 * era + yoe) {
            1int
        } else {
            0
        }) == era * 146097 + yoe * 365 + yoe / 4 - yoe / 100 + 1,
{
    let y = 400 * era + yoe;
    assert((y + 3) / 4 == 100 * era + (yoe + 3) / 4);
    assert((y + 99) / 100 == 4 * era + (yoe + 99) / 100);
    assert((y + 399) / 400 == era + (yoe + 399) / 400);
    assert(y % 4 == yoe % 4);
    assert(y % 100 == yoe % 100);
    assert(y % 400 == yoe);
}

proof fn lemma_leap_count_next(era: int, yoe: int)
    requires
        0 <= yoe < 400,
        era >= -1,
    ensures
        days_before_year(400 * era + yoe + 1) == era * 146097 + yoe * 365 + yoe / 4 - yoe / 100
            + 366,
{
    let y = 400 * era + yoe + 1;
    assert((y + 3) / 4 == 100 * era + (yoe + 4) / 4);
    assert((y + 99) / 100 == 4 * era + (yoe + 100) / 100);
    assert((y + 399) / 400 == era + (yoe + 400) / 400);
}

/// Reads a date argument as seconds since 1970.
pub fn parse_date_arg(s: &str) -> (res: Result<i64, DateError>)
    ensures
        match date_value(encode_utf8(trimmed(s@))) {
            Ok(v) => res matches Ok(x) && x == v,
            Err(e) => res == Err::<i64, DateError>(e),
        },
{
    let t = s.trim();
    let b = t.as_bytes();
    let mut i: usize = 0;
    while i < b.len() && 48 <= b[i] && b[i] <= 57
        invariant
            i <= b@.len(),
            forall|k: int| 0 <= k < i ==> crate::numbers::is_digit(#[trigger] b@[k]),
        decreases b@.len() - i,
    {
        i = i + 1;
    }
    if b.len() > 0 && i == b.len() {
        return match parse_unsigned(b, i64::MAX as u64) {
            Some(v) => Ok(v as i64),
            None => Err(DateError::Seconds),
        };
    }
    proof {
        if b@.len() > 0 {
            assert(!crate::numbers::is_digit(b@[i as int]));
        }
        lemma_dash_from(b@, 0);
        lemma_dash_from(b@, dash_from(b@, 0) + 1);
        lemma_dash_from(b@, dash_from(b@, dash_from(b@, 0) + 1) + 1);
    }
    let p: usize = find_dash(b, 0);
    if p >= b.len() {
        return Err(DateError::Shape);
    }
    let q: usize = find_dash(b, p + 1);
    if q >= b.len() {
        return Err(DateError::Shape);
    }
    if find_dash(b, q + 1) < b.len() {
        return Err(DateError::Shape);
    }
    let y: u32 = match parse_unsigned(vstd::slice::slice_subrange(b, 0, p), i32::MAX as u64) {
        Some(v) => v as u32,
        None => {
            return Err(DateError::Year);
        },
    };
    let m: u32 = match parse_unsigned(vstd::slice::slice_subrange(b, p + 1, q), u32::MAX as u64) {
        Some(v) => v as u32,
        None => {
            return Err(DateError::Month);
        },
    };
    let last = vstd::slice::slice_subrange(b, q + 1, b.len());
    assert(last@ =~= b@.skip(q + 1));
    let d: u32 = match parse_unsigned(last, u32::MAX as u64) {
        Some(v) => v as u32,
        None => {
            return Err(DateError::Day);
        },
    };
    if m < 1 || m > 12 || d < 1 || d > 31 {
        return Err(DateError::Range);
    }
    let days: i64 = days_from_civil(y, m, d);
    proof {
        lemma_days_bound(y as int, m as int, d as int);
    }
    Ok(days * 86400)
}

proof fn lemma_days_bound(y: int, m: int, d: int)
    requires
        0 <= y <= i32::MAX,
        1 <= m <= 12,
        1 <= d <= 31,
    ensures
        -719528 <= epoch_days(y, m, d) <= 800_000_000_000,
{
    reveal_with_fuel(days_before_month, 13);
}

/// The calendar: the first day of 1970 is day zero, and every date is one day after the
/// date before it. A month has thirty-one days but for four with thirty and the second,
/// which has twenty-nine in leap years and else twenty-eight. Every fourth year is a leap
/// year, but of the full hundreds only every fourth.
pub proof fn lemma_calendar(y: int, m: int, d: int)
    requires
        y >= 0,
        1 <= m <= 12,
    ensures
        ({
            let leap_year = y % 4 == 0 && (y % 100 != 0 || y % 400 == 0);
            let days: int = if m == 4 || m == 6 || m == 9 || m == 11 {
                30
            } else if m == 2 {
                if leap_year {
                    29
                } else {
                    28
                }
            } else {
                31
            };
            &&& epoch_days(1970, 1, 1) == 0
            &&& valid_date(y, m, d) <==> 1 <= d <= days
            &&& epoch_days(y, m, d + 1) == epoch_days(y, m, d) + 1
            &&& m < 12 ==> epoch_days(y, m + 1, 1) == epoch_days(y, m, days) + 1
            &&& m == 12 ==> epoch_days(y + 1, 1, 1) == epoch_days(y, 12, 31) + 1
        }),
{
    lemma_year_step(y);
    lemma_months(y);
    assert(y % 400 == 0 ==> y % 100 == 0 && y % 4 == 0);
}

/// A time is shown as its date and its hours, minutes and seconds.
#[verifier::rlimit(40)]
pub proof fn lemma_time_shows(
    y: int,
    m: int,
    d: int,
    hour: int,
    minute: int,
    second: int,
    s: Seq<char>,
)
    requires
        y >= 1970,
        valid_date(y, m, d),
        0 <= hour < 24,
        0 <= minute < 60,
        0 <= second < 60,
        epoch_days(y, m, d) >= 0,
        time_text(86400 * epoch_days(y, m, d) + 3600 * hour + 60 * minute + second, s),
    ensures
        s == padded(y, 4).push('-') + padded(m, 2).push('-') + padded(d, 2).push(' ') + padded(
            hour,
            2,
        ).push(':') + padded(minute, 2).push(':') + padded(second, 2),
{
    let n = epoch_days(y, m, d);
    let r = 3600 * hour + 60 * minute + second;
    let t = 86400 * n + r;
    lemma_day_and_clock(n, hour, minute, second);
    let (y2, m2, d2) = choose|y2: int, m2: int, d2: int|
        y2 >= 1970 && #[trigger] valid_date(y2, m2, d2) && epoch_days(y2, m2, d2) == t / 86400 && s
            == stamp(y2, m2, d2, t % 86400);
    assert(y == y2 && m == m2 && d == d2) by {
        lemma_date_of_day(y, m, d, y2, m2, d2);
    }
    assert(s == stamp(y, m, d, r));
}

proof fn lemma_day_and_clock(n: int, hour: int, minute: int, second: int)
    requires
        0 <= hour < 24,
        0 <= minute < 60,
        0 <= second < 60,
    ensures
        ({
            let r = 3600 * hour + 60 * minute + second;
            &&& (86400 * n + r) / 86400 == n
            &&& (86400 * n + r) % 86400 == r
            &&& r / 3600 == hour
            &&& (r / 60) % 60 == minute
            &&& r % 60 == second
        }),
{
}

proof fn lemma_dash_found(s: Seq<u8>, i: int, n: int)
    requires
        0 <= i <= n <= s.len(),
        forall|k: int| i <= k < n ==> #[trigger] s[k] != 45,
        n < s.len() ==> s[n] == 45,
    ensures
        dash_from(s, i) == n,
    decreases n - i,
{
    if i < n {
        assert(s[i] != 45);
        lemma_dash_found(s, i + 1, n);
    }
}

/// A date in year, month and day is the time at which that day starts. A number alone is
/// the time in seconds.
pub proof fn lemma_date_reads(a: Seq<u8>, b: Seq<u8>, c: Seq<u8>)
    requires
        a.len() > 0,
        b.len() > 0,
        c.len() > 0,
        all_digits(a),
        all_digits(b),
        all_digits(c),
    ensures
        digits_value(a) <= i32::MAX && 1 <= digits_value(b) <= 12 && 1 <= digits_value(c) <= 31
            ==> date_value(a + seq![45u8] + b + seq![45u8] + c) == Ok::<int, DateError>(
            86400 * epoch_days(digits_value(a), digits_value(b), digits_value(c)),
        ),
        digits_value(a) <= i64::MAX ==> date_value(a) == Ok::<int, DateError>(digits_value(a)),
{
    lemma_date_split(a, b, c);
    crate::numbers::lemma_digits_value(a);
    crate::numbers::lemma_digits_value(b);
    crate::numbers::lemma_digits_value(c);
    assert(crate::numbers::is_digit(a[0]));
    assert(crate::numbers::is_digit(b[0]));
    assert(crate::numbers::is_digit(c[0]));
}

/// The dashes of a date, and what stands between them.
proof fn lemma_date_split(a: Seq<u8>, b: Seq<u8>, c: Seq<u8>)
    requires
        all_digits(a),
        all_digits(b),
        all_digits(c),
    ensures
        ({
            let s = a + seq![45u8] + b + seq![45u8] + c;
            let n = a.len() as int;
            let m = n + 1 + b.len();
            &&& !all_digits(s)
            &&& dash_from(s, 0) == n
            &&& dash_from(s, n + 1) == m
            &&& dash_from(s, m + 1) == s.len()
            &&& m < s.len()
            &&& s.subrange(0, n) == a
            &&& s.subrange(n + 1, m) == b
            &&& s.skip(m + 1) == c
        }),
{
    let s = a + seq![45u8] + b + seq![45u8] + c;
    let n = a.len() as int;
    let m = n + 1 + b.len();
    assert(!crate::numbers::is_digit(s[n]));
    assert forall|k: int| 0 <= k < n implies #[trigger] s[k] != 45 by {
        assert(crate::numbers::is_digit(a[k]));
    }
    assert forall|k: int| n + 1 <= k < m implies #[trigger] s[k] != 45 by {
        assert(s[k] == b[k - n - 1]);
        assert(crate::numbers::is_digit(b[k - n - 1]));
    }
    assert forall|k: int| m + 1 <= k < s.len() implies #[trigger] s[k] != 45 by {
        assert(s[k] == c[k - m - 1]);
        assert(crate::numbers::is_digit(c[k - m - 1]));
    }
    lemma_dash_found(s, 0, n);
    lemma_dash_found(s, n + 1, m);
    lemma_dash_found(s, m + 1, s.len() as int);
    assert(s.subrange(0, n) =~= a);
    assert(s.subrange(n + 1, m) =~= b);
    assert(s.skip(m + 1) =~= c);
}

/// A date with a month or a day that no calendar has is refused, and a time before 1970 is
/// shown as the first second of it.
pub proof fn lemma_odd_dates(a: Seq<u8>, b: Seq<u8>, c: Seq<u8>, t: int, s: Seq<char>)
    requires
        a.len() > 0,
        b.len() > 0,
        c.len() > 0,
        all_digits(a),
        all_digits(b),
        all_digits(c),
        digits_value(a) <= i32::MAX,
        digits_value(b) <= u32::MAX,
        digits_value(c) <= u32::MAX,
    ensures
        !(1 <= digits_value(b) <= 12 && 1 <= digits_value(c) <= 31) ==> date_value(
            a + seq![45u8] + b + seq![45u8] + c,
        ) == Err::<int, DateError>(DateError::Range),
        t < 0 ==> (time_text(t, s) <==> time_text(0, s)),
{
    lemma_date_split(a, b, c);
    crate::numbers::lemma_digits_value(a);
    crate::numbers::lemma_digits_value(b);
    crate::numbers::lemma_digits_value(c);
    assert(crate::numbers::is_digit(a[0]));
    assert(crate::numbers::is_digit(b[0]));
    assert(crate::numbers::is_digit(c[0]));
}

} // verus!
