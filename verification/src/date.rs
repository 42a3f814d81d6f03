//! Date literals.
//!
//! A date in a query is written `YYYY-MM-DD` (one to four year digits, one
//! or two month and day digits) and denotes midnight UTC of that day in the
//! proleptic Gregorian calendar. Its value is a Unix timestamp in seconds,
//! which is what task records carry for their date fields.

use vstd::prelude::*;
use crate::text::{
    all_digits,
    digits_val,
    digit_val,
    find_char,
    find_from,
    is_digit_char,
    lemma_digits_val_bound,
    lemma_pow10_mono,
    pow10,
};

verus! {

/// Gregorian leap year.
pub open spec fn is_leap_year(y: int) -> bool {
    y % 4 == 0 && (y % 100 != 0 || y % 400 == 0)
}

/// Number of days in month `m` of year `y`.
pub open spec fn days_in_month(y: int, m: int) -> int {
    if m == 2 {
        if is_leap_year(y) {
            29
        } else {
            28
        }
    } else if m == 4 || m == 6 || m == 9 || m == 11 {
        30
    } else {
        31
    }
}

/// Days of year `y` that precede the first of month `m`.
pub open spec fn days_before_month(y: int, m: int) -> int {
    let base: int = if m == 1 {
        0
    } else if m == 2 {
        31
    } else if m == 3 {
        59
    } else if m == 4 {
        90
    } else if m == 5 {
        120
    } else if m == 6 {
        151
    } else if m == 7 {
        181
    } else if m == 8 {
        212
    } else if m == 9 {
        243
    } else if m == 10 {
        273
    } else if m == 11 {
        304
    } else {
        334
    };
    if m > 2 && is_leap_year(y) {
        base + 1
    } else {
        base
    }
}

/// Day number of `y-m-d` in the proleptic Gregorian calendar, counting
/// `0001-01-01` as day zero.
pub open spec fn civil_days(y: int, m: int, d: int) -> int {
    365 * (y - 1) + (y - 1) / 4 - (y - 1) / 100 + (y - 1) / 400 + days_before_month(y, m) + (d - 1)
}

/// Day number of the Unix epoch, `1970-01-01`, in the same count.
pub open spec fn epoch_civil_days() -> int {
    civil_days(1970, 1, 1)
}

/// Unix timestamp, in seconds, of midnight UTC on `y-m-d`.
pub open spec fn date_timestamp(y: int, m: int, d: int) -> int {
    (civil_days(y, m, d) - epoch_civil_days()) * 86400
}

/// The date components denoted by the text `w`, if `w` is a well-formed
/// `YYYY-MM-DD` date: two dashes splitting three digit groups of at most
/// 4, 2 and 2 digits, naming a real calendar day.
pub open spec fn spec_parse_date_parts(w: Seq<char>) -> Option<(int, int, int)> {
    let a = find_from(w, '-', 0);
    let b = find_from(w, '-', a + 1);
    if a == w.len() || b == w.len() || find_from(w, '-', b + 1) != w.len() {
        None
    } else {
        let ys = w.subrange(0, a);
        let ms = w.subrange(a + 1, b);
        let ds = w.subrange(b + 1, w.len() as int);
        if 1 <= ys.len() <= 4 && 1 <= ms.len() <= 2 && 1 <= ds.len() <= 2 && all_digits(ys)
            && all_digits(ms) && all_digits(ds) {
            let y = digits_val(ys);
            let m = digits_val(ms);
            let d = digits_val(ds);
            if 1 <= y && 1 <= m <= 12 && 1 <= d <= days_in_month(y, m) {
                Some((y, m, d))
            } else {
                None
            }
        } else {
            None
        }
    }
}

/// The timestamp denoted by the date text `w`, if it is well formed.
pub open spec fn spec_parse_date(w: Seq<char>) -> Option<int> {
    match spec_parse_date_parts(w) {
        Some((y, m, d)) => Some(date_timestamp(y, m, d)),
        None => None,
    }
}

/// Read the digit group `s[from..to]` as a number, if it is all digits.
fn parse_digit_group(s: &str, from: usize, to: usize) -> (r: Option<u32>)
    requires
        from <= to <= s@.len(),
        to - from <= 4,
    ensures
        match r {
            Some(v) => all_digits(s@.subrange(from as int, to as int)) && v == digits_val(
                s@.subrange(from as int, to as int),
            ),
            None => !all_digits(s@.subrange(from as int, to as int)),
        },
{
    let ghost w = s@.subrange(from as int, to as int);
    let mut v: u32 = 0;
    let mut i = from;
    while i < to
        invariant
            from <= i <= to <= s@.len(),
            to - from <= 4,
            w == s@.subrange(from as int, to as int),
            all_digits(w.take(i - from)),
            v == digits_val(w.take(i - from)),
        decreases to - i,
    {
        let c = s.get_char(i);
        let u = c as u32;
        if !(48 <= u && u <= 57) {
            proof {
                assert(w[i - from] == c);
                assert(!is_digit_char(w[i - from]));
            }
            return None;
        }
        proof {
            assert(w.take(i + 1 - from).take(i - from) =~= w.take(i - from));
            assert(w.take(i + 1 - from)[i - from] == c);
            lemma_digits_val_bound(w.take(i - from));
            lemma_pow10_mono((i - from) as nat, 3);
            reveal_with_fuel(pow10, 5);
            assert(pow10(3) == 1000);
            assert(v < 1000);
        }
        v = v * 10 + (u - 48);
        i = i + 1;
    }
    proof {
        assert(w.take(to - from) =~= w);
    }
    Some(v)
}

/// Parse a `YYYY-MM-DD` date text into the Unix timestamp of its midnight.
pub fn parse_date_text(s: &str) -> (r: Option<i64>)
    ensures
        match r {
            Some(t) => spec_parse_date(s@) == Some(t as int),
            None => spec_parse_date(s@) is None,
        },
{
    let len = s.unicode_len();
    let a = find_char(s, '-', 0);
    if a == len {
        return None;
    }
    let b = find_char(s, '-', a + 1);
    if b == len {
        return None;
    }
    let c = find_char(s, '-', b + 1);
    if c != len {
        return None;
    }
    if !(1 <= a && a <= 4 && a + 2 <= b && b <= a + 3 && b + 2 <= len && len <= b + 3) {
        return None;
    }
    let y = match parse_digit_group(s, 0, a) {
        Some(v) => v,
        None => {
            return None;
        },
    };
    let m = match parse_digit_group(s, a + 1, b) {
        Some(v) => v,
        None => {
            return None;
        },
    };
    let d = match parse_digit_group(s, b + 1, len) {
        Some(v) => v,
        None => {
            return None;
        },
    };
    proof {
        lemma_digits_val_bound(s@.subrange(0, a as int));
        lemma_pow10_mono(a as nat, 4);
        reveal_with_fuel(pow10, 6);
        assert(pow10(4) == 10000);
    }
    if !(1 <= y && 1 <= m && m <= 12) {
        return None;
    }
    let dim = days_in_month_exec(y, m);
    if !(1 <= d && d <= dim) {
        return None;
    }
    Some(timestamp_of(y, m, d))
}

/// Leap-year test.
fn is_leap_exec(y: u32) -> (r: bool)
    ensures
        r == is_leap_year(y as int),
{
    y % 4 == 0 && (y % 100 != 0 || y % 400 == 0)
}

/// Number of days in a month.
fn days_in_month_exec(y: u32, m: u32) -> (r: u32)
    ensures
        r == days_in_month(y as int, m as int),
{
    if m == 2 {
        if is_leap_exec(y) {
            29
        } else {
            28
        }
    } else if m == 4 || m == 6 || m == 9 || m == 11 {
        30
    } else {
        31
    }
}

/// Unix timestamp of midnight UTC on `y-m-d`.
fn timestamp_of(y: u32, m: u32, d: u32) -> (r: i64)
    requires
        1 <= y <= 9999,
        1 <= m <= 12,
        1 <= d <= 31,
    ensures
        r as int == date_timestamp(y as int, m as int, d as int),
{
    let before: i64 = if m == 1 {
        0
    } else if m == 2 {
        31
    } else if m == 3 {
        59
    } else if m == 4 {
        90
    } else if m == 5 {
        120
    } else if m == 6 {
        151
    } else if m == 7 {
        181
    } else if m == 8 {
        212
    } else if m == 9 {
        243
    } else if m == 10 {
        273
    } else if m == 11 {
        304
    } else {
        334
    };
    let before = if m > 2 && is_leap_exec(y) {
        before + 1
    } else {
        before
    };
    let yy = (y - 1) as i64;
    let days = 365 * yy + yy / 4 - yy / 100 + yy / 400 + before + (d as i64 - 1);
    (days - 719162) * 86400
}

} // verus!
