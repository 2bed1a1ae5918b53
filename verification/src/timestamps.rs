//! ISO 8601 timestamps as points in time.
//!
//! HAR writes `startedDateTime` as `YYYY-MM-DDTHH:MM:SS`, optionally with a
//! fraction of a second, followed by `Z` or an offset `±HH:MM`.  Such a
//! text denotes an instant; two texts with different offsets may denote
//! the same instant, and text order need not be time order.  The instant
//! is counted here in nanoseconds from the start of year 0 (UTC), with
//! digits of the fraction beyond the ninth ignored.  Field ranges are
//! checked (month 1-12, day 1-31, hour 0-23, minute 0-59, second 0-60,
//! offset up to 23:59); the day is not checked against its month.
use vstd::prelude::*;

use crate::text::{chars_of, seq_lt};
use vstd::arithmetic::div_mod::{lemma_fundamental_div_mod, lemma_fundamental_div_mod_converse, lemma_mod_pos_bound};

verus! {

/// `c` is one of `0`..`9`.
pub open spec fn is_digit(c: char) -> bool {
    48 <= (c as u32) && (c as u32) <= 57
}

/// The value of a digit character.
pub open spec fn digit_value(c: char) -> int {
    (c as u32) as int - 48
}

/// The two-digit number at `i`.
pub open spec fn two_digits(s: Seq<char>, i: int) -> int {
    10 * digit_value(s[i]) + digit_value(s[i + 1])
}

/// `s` begins `YYYY-MM-DDTHH:MM:SS`, with digits where the letters are.
pub open spec fn has_date_time(s: Seq<char>) -> bool {
    &&& s.len() >= 19
    &&& is_digit(s[0]) && is_digit(s[1]) && is_digit(s[2]) && is_digit(s[3])
    &&& s[4] == '-' && is_digit(s[5]) && is_digit(s[6])
    &&& s[7] == '-' && is_digit(s[8]) && is_digit(s[9])
    &&& s[10] == 'T' && is_digit(s[11]) && is_digit(s[12])
    &&& s[13] == ':' && is_digit(s[14]) && is_digit(s[15])
    &&& s[16] == ':' && is_digit(s[17]) && is_digit(s[18])
}

/// The year of a date-time text.
pub open spec fn year_of(s: Seq<char>) -> int {
    100 * two_digits(s, 0) + two_digits(s, 2)
}

/// The month, day, hour, minute and second fields are in range.
pub open spec fn fields_in_range(s: Seq<char>) -> bool {
    &&& 1 <= two_digits(s, 5) <= 12
    &&& 1 <= two_digits(s, 8) <= 31
    &&& two_digits(s, 11) <= 23
    &&& two_digits(s, 14) <= 59
    &&& two_digits(s, 17) <= 60
}

/// The number of consecutive digits of `s` from position `i`.
pub open spec fn digit_run(s: Seq<char>, i: int) -> int
    decreases s.len() - i,
{
    if 0 <= i < s.len() && is_digit(s[i]) {
        1 + digit_run(s, i + 1)
    } else {
        0
    }
}

/// The seconds are followed by a fraction `.ddd`.
pub open spec fn has_fraction(s: Seq<char>) -> bool {
    s.len() > 19 && s[19] == '.'
}

/// Where the zone designator starts: after the seconds and fraction.
pub open spec fn zone_start(s: Seq<char>) -> int {
    if has_fraction(s) {
        20 + digit_run(s, 20)
    } else {
        19
    }
}

/// The first `k` of nine fraction digits (missing digits count as 0)
/// read as a number; `len` digits are present from position 20.
pub open spec fn fraction_digits(s: Seq<char>, len: int, k: nat) -> int
    decreases k,
{
    if k == 0 {
        0
    } else {
        fraction_digits(s, len, (k - 1) as nat) * 10 + if k - 1 < len {
            digit_value(s[20 + k - 1])
        } else {
            0
        }
    }
}

/// The fraction of a second in nanoseconds.
pub open spec fn fraction_nanos(s: Seq<char>) -> int {
    if has_fraction(s) {
        fraction_digits(s, digit_run(s, 20), 9)
    } else {
        0
    }
}

/// The offset from UTC in seconds of the zone designator at `p`: `Z`, or
/// `+HH:MM` / `-HH:MM` ending the text.
pub open spec fn zone_offset(s: Seq<char>, p: int) -> Option<int> {
    if p + 1 == s.len() && s[p] == 'Z' {
        Some(0)
    } else if p + 6 == s.len() && (s[p] == '+' || s[p] == '-') && is_digit(s[p + 1]) && is_digit(s[p + 2])
        && s[p + 3] == ':' && is_digit(s[p + 4]) && is_digit(s[p + 5]) && two_digits(s, p + 1) <= 23
        && two_digits(s, p + 4) <= 59 {
        let off = two_digits(s, p + 1) * 3600 + two_digits(s, p + 4) * 60;
        Some(if s[p] == '+' { off } else { -off })
    } else {
        None
    }
}

/// Year `y` is a leap year.
pub open spec fn is_leap(y: int) -> bool {
    y % 4 == 0 && (y % 100 != 0 || y % 400 == 0)
}

/// The days of the years before year `y` (from year 0).
pub open spec fn days_before_year(y: int) -> int {
    365 * y + (y + 3) / 4 - (y + 99) / 100 + (y + 399) / 400
}

/// The days of the months before month `m` of year `y`.
pub open spec fn days_before_month(y: int, m: int) -> int {
    (if m <= 1 {
        0int
    } else if m == 2 {
        31
    } else if m == 3 {
        59
    } else if m == 4 {
        90
    } else if m == 5 {
        120
    } else if m == 6 {
        151
    } else if m == 7 {
        181
    } else if m == 8 {
        212
    } else if m == 9 {
        243
    } else if m == 10 {
        273
    } else if m == 11 {
        304
    } else {
        334
    }) + if m > 2 && is_leap(y) {
        1int
    } else {
        0int
    }
}

/// The instant an ISO 8601 date-time text denotes, in nanoseconds, or
/// `None` when the text is not of that form.
pub open spec fn instant(s: Seq<char>) -> Option<int> {
    if has_date_time(s) && fields_in_range(s) && (has_fraction(s) ==> digit_run(s, 20) >= 1) {
        match zone_offset(s, zone_start(s)) {
            Some(off) => {
                let y = year_of(s);
                let days = days_before_year(y) + days_before_month(y, two_digits(s, 5)) + two_digits(s, 8) - 1;
                let secs = days * 86400 + two_digits(s, 11) * 3600 + two_digits(s, 14) * 60 + two_digits(s, 17) - off;
                Some(secs * 1_000_000_000 + fraction_nanos(s))
            },
            None => None,
        }
    } else {
        None
    }
}

fn digit_char(c: char) -> (b: bool)
    ensures
        b == is_digit(c),
{
    c >= '0' && c <= '9'
}

fn digit_of(c: char) -> (d: i128)
    requires
        is_digit(c),
    ensures
        d == digit_value(c),
        0 <= d <= 9,
{
    ((c as u32) - 48) as i128
}

fn two_of(v: &Vec<char>, i: usize) -> (n: i128)
    requires
        i + 1 < v@.len(),
        is_digit(v@[i as int]),
        is_digit(v@[i + 1]),
    ensures
        n == two_digits(v@, i as int),
        0 <= n <= 99,
{
    let n: usize = v.len();
    let j: usize = i + 1;
    assert(j < n);
    10 * digit_of(v[i]) + digit_of(v[j])
}

fn date_time_shape(v: &Vec<char>) -> (b: bool)
    ensures
        b == has_date_time(v@),
{
    if v.len() < 19 {
        return false;
    }
    digit_char(v[0]) && digit_char(v[1]) && digit_char(v[2]) && digit_char(v[3]) && v[4] == '-' && digit_char(v[5])
        && digit_char(v[6]) && v[7] == '-' && digit_char(v[8]) && digit_char(v[9]) && v[10] == 'T' && digit_char(
        v[11],
    ) && digit_char(v[12]) && v[13] == ':' && digit_char(v[14]) && digit_char(v[15]) && v[16] == ':'
        && digit_char(v[17]) && digit_char(v[18])
}

/// The length of the digit run from `i`.
fn run_from(v: &Vec<char>, i: usize) -> (n: usize)
    requires
        i <= v@.len(),
    ensures
        n == digit_run(v@, i as int),
        i + n <= v@.len(),
{
    let mut j: usize = i;
    while j < v.len() && digit_char(v[j])
        invariant
            i <= j <= v@.len(),
            digit_run(v@, i as int) == (j - i) + digit_run(v@, j as int),
        decreases v@.len() - j,
    {
        j += 1;
    }
    j - i
}

fn nanos_of(v: &Vec<char>, len: usize) -> (n: i128)
    requires
        20 + len <= v@.len(),
        forall|k: int| 20 <= k < 20 + len ==> is_digit(#[trigger] v@[k]),
    ensures
        n == fraction_digits(v@, len as int, 9),
        0 <= n < 1_000_000_000,
{
    let mut acc: i128 = 0;
    let mut k: usize = 0;
    while k < 9
        invariant
            k <= 9,
            20 + len <= v@.len(),
            forall|q: int| 20 <= q < 20 + len ==> is_digit(#[trigger] v@[q]),
            acc == fraction_digits(v@, len as int, k as nat),
            0 <= acc < 1000000000,
            k == 0 ==> acc == 0,
            k == 1 ==> acc < 10,
            k == 2 ==> acc < 100,
            k == 3 ==> acc < 1000,
            k == 4 ==> acc < 10000,
            k == 5 ==> acc < 100000,
            k == 6 ==> acc < 1000000,
            k == 7 ==> acc < 10000000,
            k == 8 ==> acc < 100000000,
        decreases 9 - k,
    {
        let d: i128 = if k < len { digit_of(v[20 + k]) } else { 0 };
        acc = acc * 10 + d;
        k += 1;
    }
    acc
}

fn zone_of(v: &Vec<char>, p: usize) -> (r: Option<i128>)
    requires
        p <= v@.len(),
    ensures
        match r {
            Some(o) => zone_offset(v@, p as int) == Some(o as int),
            None => zone_offset(v@, p as int) is None,
        },
        r matches Some(o) ==> -86400 < o < 86400,
{
    let n: usize = v.len();
    if p < n && p == n - 1 && v[p] == 'Z' {
        return Some(0);
    }
    if n >= 6 && p == n - 6 && (v[p] == '+' || v[p] == '-') && digit_char(v[p + 1]) && digit_char(v[p + 2]) && v[p + 3]
        == ':' && digit_char(v[p + 4]) && digit_char(v[p + 5]) {
        let hh = two_of(v, p + 1);
        let mm = two_of(v, p + 4);
        if hh <= 23 && mm <= 59 {
            let off = hh * 3600 + mm * 60;
            return Some(if v[p] == '+' { off } else { -off });
        }
    }
    None
}

fn days_before_month_of(y: i128, m: i128) -> (d: i128)
    requires
        0 <= y <= 9999,
    ensures
        d == days_before_month(y as int, m as int),
        0 <= d <= 335,
{
    let base: i128 = if m <= 1 {
        0
    } else if m == 2 {
        31
    } else if m == 3 {
        59
    } else if m == 4 {
        90
    } else if m == 5 {
        120
    } else if m == 6 {
        151
    } else if m == 7 {
        181
    } else if m == 8 {
        212
    } else if m == 9 {
        243
    } else if m == 10 {
        273
    } else if m == 11 {
        304
    } else {
        334
    };
    let leap = y % 4 == 0 && (y % 100 != 0 || y % 400 == 0);
    if m > 2 && leap {
        base + 1
    } else {
        base
    }
}

/// The instant a timestamp denotes (see [`instant`]).
pub fn parse_instant(s: &str) -> (r: Option<i128>)
    ensures
        match r {
            Some(k) => instant(s@) == Some(k as int),
            None => instant(s@) is None,
        },
{
    let v = chars_of(s);
    if !date_time_shape(&v) {
        return None;
    }
    let y = 100 * two_of(&v, 0) + two_of(&v, 2);
    let mo = two_of(&v, 5);
    let d = two_of(&v, 8);
    let h = two_of(&v, 11);
    let mi = two_of(&v, 14);
    let sec = two_of(&v, 17);
    if !(1 <= mo && mo <= 12 && 1 <= d && d <= 31 && h <= 23 && mi <= 59 && sec <= 60) {
        return None;
    }
    let fraction = v.len() > 19 && v[19] == '.';
    let (p, nanos) = if fraction {
        let n = run_from(&v, 20);
        if n == 0 {
            return None;
        }
        proof {
            assert forall|k: int| 20 <= k < 20 + n implies is_digit(#[trigger] v@[k]) by {
                lemma_run_digits(v@, 20, k);
            }
        }
        (20 + n, nanos_of(&v, n))
    } else {
        (19, 0)
    };
    match zone_of(&v, p) {
        Some(off) => {
            let days = 365 * y + (y + 3) / 4 - (y + 99) / 100 + (y + 399) / 400 + days_before_month_of(y, mo) + d - 1;
            let secs = days * 86400 + h * 3600 + mi * 60 + sec - off;
            Some(secs * 1_000_000_000 + nanos)
        },
        None => None,
    }
}

/// Every position inside a digit run holds a digit.
proof fn lemma_run_digits(s: Seq<char>, i: int, k: int)
    requires
        0 <= i <= k < i + digit_run(s, i),
    ensures
        is_digit(s[k]),
    decreases k - i,
{
    if k > i {
        lemma_run_digits(s, i + 1, k);
    }
}


/// Moving `y` up by one moves `(y + k - 1) / k` up exactly when `k`
/// divides `y`.
proof fn lemma_div_step(y: int, k: int)
    requires
        0 <= y,
        0 < k,
    ensures
        (y + k) / k == (y + k - 1) / k + if y % k == 0 {
            1int
        } else {
            0int
        },
{
    let q = y / k;
    let r = y % k;
    lemma_fundamental_div_mod(y, k);
    lemma_mod_pos_bound(y, k);
    assert(k * q == q * k) by (nonlinear_arith);
    assert((q + 1) * k == q * k + k) by (nonlinear_arith);
    lemma_fundamental_div_mod_converse(y + k, k, q + 1, r);
    if r == 0 {
        lemma_fundamental_div_mod_converse(y + k - 1, k, q, k - 1);
    } else {
        lemma_fundamental_div_mod_converse(y + k - 1, k, q + 1, r - 1);
    }
}

/// Each year adds 365 days, and a leap year one more.
proof fn lemma_year_step(y: int)
    requires
        0 <= y,
    ensures
        days_before_year(y + 1) == days_before_year(y) + 365 + if is_leap(y) {
            1int
        } else {
            0int
        },
{
    lemma_div_step(y, 4);
    lemma_div_step(y, 100);
    lemma_div_step(y, 400);
    if y % 100 == 0 {
        let q = y / 100;
        lemma_fundamental_div_mod(y, 100);
        lemma_fundamental_div_mod_converse(y, 4, 25 * q, 0);
    }
    if y % 400 == 0 {
        let q = y / 400;
        lemma_fundamental_div_mod(y, 400);
        lemma_fundamental_div_mod_converse(y, 100, 4 * q, 0);
    }
    assert(y + 1 + 3 == y + 4 && y + 1 + 99 == y + 100 && y + 1 + 399 == y + 400);
}

/// Days before a later year are no fewer.
proof fn lemma_years_ascend(a: int, b: int)
    requires
        0 <= a <= b,
    ensures
        days_before_year(a) <= days_before_year(b),
    decreases b - a,
{
    if a < b {
        lemma_year_step(b - 1);
        lemma_years_ascend(a, b - 1);
    }
}

/// The number of days in month `m` of year `y`.
pub open spec fn month_length(y: int, m: int) -> int {
    if m == 2 {
        if is_leap(y) {
            29
        } else {
            28
        }
    } else if m == 4 || m == 6 || m == 9 || m == 11 {
        30
    } else {
        31
    }
}

/// The date of a date-time text is a day of the calendar: its day does
/// not pass the end of its month.
pub open spec fn is_calendar_day(s: Seq<char>) -> bool {
    two_digits(s, 8) <= month_length(year_of(s), two_digits(s, 5))
}

/// A month ends no later than any later month of its year begins, and
/// December ends the year.
proof fn lemma_month_end(y: int, m: int, m2: int)
    requires
        1 <= m <= 12,
        m < m2 <= 13,
    ensures
        days_before_month(y, m) + month_length(y, m) <= if m2 == 13 {
            365 + if is_leap(y) {
                1int
            } else {
                0int
            }
        } else {
            days_before_month(y, m2)
        },
{
}

/// The first place where two sequences of equal length differ, when the
/// first sorts before the second.
pub proof fn lemma_first_difference(a: Seq<char>, b: Seq<char>) -> (k: int)
    requires
        seq_lt(a, b),
        a.len() == b.len(),
    ensures
        0 <= k < a.len(),
        forall|j: int| 0 <= j < k ==> a[j] == b[j],
        (a[k] as int) < (b[k] as int),
    decreases a.len(),
{
    if a[0] != b[0] {
        0
    } else {
        let k = lemma_first_difference(a.drop_first(), b.drop_first());
        assert forall|j: int| 0 <= j < k + 1 implies a[j] == b[j] by {
            if j > 0 {
                assert(a[j] == a.drop_first()[j - 1]);
                assert(b[j] == b.drop_first()[j - 1]);
            }
        }
        k + 1
    }
}

/// Ten to the power `k`.
pub open spec fn ten_pow(k: nat) -> int
    decreases k,
{
    if k == 0 {
        1
    } else {
        10 * ten_pow((k - 1) as nat)
    }
}

/// A fraction of `k` digits is below ten to the `k`.
proof fn lemma_fraction_bound(s: Seq<char>, len: int, k: nat)
    requires
        20 + len <= s.len(),
        forall|q: int| 20 <= q < 20 + len ==> is_digit(#[trigger] s[q]),
    ensures
        0 <= fraction_digits(s, len, k) < ten_pow(k),
    decreases k,
{
    if k > 0 {
        lemma_fraction_bound(s, len, (k - 1) as nat);
    }
}

/// Fractions whose digits first differ at place `d` (counted from the
/// first fraction digit) agree up to it and are ordered from there on.
proof fn lemma_fraction_order(s: Seq<char>, t: Seq<char>, len: int, d: int, k: nat)
    requires
        20 + len <= s.len(),
        20 + len <= t.len(),
        forall|q: int| 20 <= q < 20 + len ==> is_digit(#[trigger] s[q]) && is_digit(t[q]),
        0 <= d < len,
        forall|q: int| 20 <= q < 20 + d ==> #[trigger] s[q] == t[q],
        (s[20 + d] as int) < (t[20 + d] as int),
    ensures
        k <= d ==> fraction_digits(s, len, k) == fraction_digits(t, len, k),
        k > d ==> fraction_digits(s, len, k) < fraction_digits(t, len, k),
    decreases k,
{
    if k > 0 {
        lemma_fraction_order(s, t, len, d, (k - 1) as nat);
        let q = 20 + k - 1;
        if k - 1 < len {
            assert(is_digit(s[q]) && is_digit(t[q]));
            assert(0 <= digit_value(s[q]) <= 9 && 0 <= digit_value(t[q]) <= 9);
            if k - 1 == d {
                lemma_digit_order(s[q], t[q]);
            } else if k - 1 < d {
                assert(s[q] == t[q]);
            }
        }
    }
}

/// A digit with the smaller code point has the smaller value.
proof fn lemma_digit_order(a: char, b: char)
    requires
        is_digit(a),
        is_digit(b),
        (a as int) < (b as int),
    ensures
        digit_value(a) < digit_value(b),
        0 <= digit_value(a) <= 9,
        0 <= digit_value(b) <= 9,
{
    assert((a as u32) as int == a as int);
    assert((b as u32) as int == b as int);
}

/// Two-digit fields at `i` that first differ at `k` are ordered as those
/// digits are.
proof fn lemma_two_digits_order(s: Seq<char>, t: Seq<char>, i: int, k: int)
    requires
        0 <= i,
        i + 1 < s.len(),
        i + 1 < t.len(),
        is_digit(s[i]) && is_digit(s[i + 1]) && is_digit(t[i]) && is_digit(t[i + 1]),
        k == i || (k == i + 1 && s[i] == t[i]),
        (s[k] as int) < (t[k] as int),
    ensures
        two_digits(s, i) < two_digits(t, i),
{
    lemma_digit_order(s[k], t[k]);
    assert(0 <= digit_value(s[i + 1]) <= 9 && 0 <= digit_value(t[i + 1]) <= 9);
}

/// Date-time texts whose first difference is at `k`, inside the date and
/// time (before position 19), are ordered by their fields: by year, then
/// month, then day, then time of day.
proof fn lemma_fields_order(s: Seq<char>, t: Seq<char>, k: int)
    requires
        has_date_time(s),
        has_date_time(t),
        fields_in_range(s),
        fields_in_range(t),
        two_digits(s, 17) <= 59,
        two_digits(t, 17) <= 59,
        0 <= k < 19,
        k != 4 && k != 7 && k != 10 && k != 13 && k != 16,
        forall|j: int| 0 <= j < k ==> s[j] == t[j],
        (s[k] as int) < (t[k] as int),
    ensures
        k < 4 ==> year_of(s) < year_of(t),
        4 < k < 7 ==> year_of(s) == year_of(t) && two_digits(s, 5) < two_digits(t, 5),
        7 < k < 10 ==> year_of(s) == year_of(t) && two_digits(s, 5) == two_digits(t, 5) && two_digits(s, 8)
            < two_digits(t, 8),
        10 < k ==> year_of(s) == year_of(t) && two_digits(s, 5) == two_digits(t, 5) && two_digits(s, 8)
            == two_digits(t, 8) && two_digits(s, 11) * 3600 + two_digits(s, 14) * 60 + two_digits(s, 17)
            < two_digits(t, 11) * 3600 + two_digits(t, 14) * 60 + two_digits(t, 17),
{
    let fi = if k < 2 { 0 } else if k < 4 { 2 } else if k < 7 { 5 } else if k < 10 { 8 } else if k < 13 { 11 } else if k < 16 { 14 } else { 17 };
    lemma_two_digits_order(s, t, fi, k);
    assert forall|i: int| 0 <= i < 19 && is_digit(s[i]) && is_digit(t[i]) implies 0 <= digit_value(#[trigger] s[i]) <= 9 && 0 <= digit_value(t[i]) <= 9 by {
    }
    if k >= 2 {
        assert(two_digits(s, 0) == two_digits(t, 0));
    }
    if k >= 5 {
        assert(two_digits(s, 2) == two_digits(t, 2));
    }
    if k >= 8 {
        assert(two_digits(s, 5) == two_digits(t, 5));
    }
    if k >= 11 {
        assert(two_digits(s, 8) == two_digits(t, 8));
    }
    if k >= 14 {
        assert(two_digits(s, 11) == two_digits(t, 11));
    }
    if k >= 17 {
        assert(two_digits(s, 14) == two_digits(t, 14));
    }
    assert(0 <= two_digits(s, 0) <= 99 && 0 <= two_digits(t, 0) <= 99);
    assert(0 <= two_digits(s, 2) <= 99 && 0 <= two_digits(t, 2) <= 99);
    assert(0 <= two_digits(s, 14) <= 99 && 0 <= two_digits(t, 14) <= 99);
    assert(0 <= two_digits(s, 17) <= 99 && 0 <= two_digits(t, 17) <= 99);
}

/// For timestamps written alike (the same length and the same zone
/// designator) that name days of the calendar and no leap second, time
/// order is text order: a text that sorts before another denotes an
/// instant no later, and a strictly earlier one when the two differ before
/// the tenth fraction digit.  So `10:15:20Z` is before `10:45:10Z`, and
/// `2024-01-31` before `2024-02-01`.
#[verifier::rlimit(40)]
pub proof fn law_instant_follows_text(s: Seq<char>, t: Seq<char>)
    requires
        instant(s) is Some,
        instant(t) is Some,
        s.len() == t.len(),
        zone_start(s) == zone_start(t),
        s.skip(zone_start(s)) == t.skip(zone_start(t)),
        is_calendar_day(s),
        is_calendar_day(t),
        two_digits(s, 17) <= 59,
        two_digits(t, 17) <= 59,
        seq_lt(s, t),
    ensures
        instant(s)->0 <= instant(t)->0,
        (exists|j: int| 0 <= j < 29 && j < s.len() && s[j] != t[j]) ==> instant(s)->0 < instant(t)->0,
{
    let n = s.len() as int;
    let zs = zone_start(s);
    let k = lemma_first_difference(s, t);
    // the zone designators agree, and so do the offsets
    assert forall|q: int| zs <= q < n implies s[q] == t[q] by {
        assert(s[q] == s.skip(zs)[q - zs]);
        assert(t[q] == t.skip(zs)[q - zs]);
    }
    assert(zone_offset(s, zs) == zone_offset(t, zs));
    let off = zone_offset(s, zs)->0;
    let has_f = has_fraction(s);
    assert(has_fraction(t) == has_f);
    assert(k < zs);
    assert(k != 4 && k != 7 && k != 10 && k != 13 && k != 16 && k != 19);
    let len = if has_f { digit_run(s, 20) } else { 0 };
    assert(has_f ==> digit_run(t, 20) == len);
    assert forall|q: int| 20 <= q < 20 + len implies is_digit(#[trigger] s[q]) && is_digit(t[q]) by {
        lemma_run_digits(s, 20, q);
        lemma_run_digits(t, 20, q);
    }
    assert forall|q: int| 20 <= q < 20 + len implies #[trigger] is_digit(t[q]) by {
        lemma_run_digits(t, 20, q);
    }
    lemma_fraction_bound(s, len, 9);
    lemma_fraction_bound(t, len, 9);
    reveal_with_fuel(ten_pow, 10);
    let fs = fraction_nanos(s);
    let ft = fraction_nanos(t);
    assert(0 <= fs < 1_000_000_000 && 0 <= ft < 1_000_000_000);
    // the fields, in the order they are written
    let (ys, yt) = (year_of(s), year_of(t));
    let (mos, mot) = (two_digits(s, 5), two_digits(t, 5));
    let (ds, dt) = (two_digits(s, 8), two_digits(t, 8));
    let ts = two_digits(s, 11) * 3600 + two_digits(s, 14) * 60 + two_digits(s, 17);
    let tt = two_digits(t, 11) * 3600 + two_digits(t, 14) * 60 + two_digits(t, 17);
    let days_s = days_before_year(ys) + days_before_month(ys, mos) + ds - 1;
    let days_t = days_before_year(yt) + days_before_month(yt, mot) + dt - 1;
    assert(0 <= ts < 86400 && 0 <= tt < 86400);
    if k < 19 {
        lemma_fields_order(s, t, k);
    }
    if k < 4 {
        assert(ys < yt);
        lemma_month_end(ys, mos, 13);
        lemma_year_step(ys);
        lemma_years_ascend(ys + 1, yt);
        assert(days_s < days_t);
    } else if k < 7 {
        assert(ys == yt && mos < mot);
        lemma_month_end(ys, mos, mot);
        assert(days_s < days_t);
    } else if k < 10 {
        assert(ys == yt && mos == mot && ds < dt);
    } else if k < 19 {
        assert(days_s == days_t);
        assert(ts < tt);
    } else {
        assert(days_s == days_t && ts == tt);
        assert(has_f);
        let d = k - 20;
        lemma_fraction_order(s, t, len, d, 9);
        assert(fs <= ft);
        assert(d < 9 ==> fs < ft);
    }
    let secs_s = days_s * 86400 + ts - off;
    let secs_t = days_t * 86400 + tt - off;
    assert(instant(s)->0 == secs_s * 1_000_000_000 + fs);
    assert(instant(t)->0 == secs_t * 1_000_000_000 + ft);
    if exists|j: int| 0 <= j < 29 && j < s.len() && s[j] != t[j] {
        let j = choose|j: int| 0 <= j < 29 && j < s.len() && s[j] != t[j];
        assert(k <= j);
    }
}


/// A month's days run up to where the next month begins.
proof fn lemma_month_next(y: int, m: int)
    requires
        1 <= m <= 11,
    ensures
        days_before_month(y, m) + month_length(y, m) == days_before_month(y, m + 1),
{
}

/// Timestamps that differ only in their date are whole days apart: by
/// the difference of the days within a month, and by exactly one day from
/// the last day of a month to the first of the next, and from 31 December
/// to 1 January.
pub proof fn law_instant_day_steps(s: Seq<char>, t: Seq<char>)
    requires
        instant(s) is Some,
        instant(t) is Some,
        s.len() == t.len(),
        s.skip(10) == t.skip(10),
    ensures
        year_of(s) == year_of(t) && two_digits(s, 5) == two_digits(t, 5) ==> instant(t)->0 - instant(s)->0 == (
        two_digits(t, 8) - two_digits(s, 8)) * 86400 * 1_000_000_000,
        year_of(s) == year_of(t) && two_digits(t, 5) == two_digits(s, 5) + 1 && two_digits(s, 8) == month_length(
            year_of(s),
            two_digits(s, 5),
        ) && two_digits(t, 8) == 1 ==> instant(t)->0 - instant(s)->0 == 86400 * 1_000_000_000,
        year_of(t) == year_of(s) + 1 && two_digits(s, 5) == 12 && two_digits(s, 8) == 31 && two_digits(t, 5) == 1
            && two_digits(t, 8) == 1 ==> instant(t)->0 - instant(s)->0 == 86400 * 1_000_000_000,
{
    lemma_same_after(s, t, 10);
    let y = year_of(s);
    assert(0 <= y);
    if year_of(s) == year_of(t) && two_digits(t, 5) == two_digits(s, 5) + 1 && two_digits(s, 5) <= 11 {
        lemma_month_next(y, two_digits(s, 5));
    }
    if year_of(t) == y + 1 {
        lemma_year_step(y);
    }
}

/// Timestamps that differ only in their time of day are apart by the
/// difference of their hours, minutes and seconds.
pub proof fn law_instant_time_steps(s: Seq<char>, t: Seq<char>)
    requires
        instant(s) is Some,
        instant(t) is Some,
        s.len() == t.len(),
        s.take(11) == t.take(11),
        s.skip(19) == t.skip(19),
    ensures
        instant(t)->0 - instant(s)->0 == ((two_digits(t, 11) - two_digits(s, 11)) * 3600 + (two_digits(t, 14)
            - two_digits(s, 14)) * 60 + two_digits(t, 17) - two_digits(s, 17)) * 1_000_000_000,
{
    lemma_same_after(s, t, 19);
    assert forall|q: int| 0 <= q < 11 implies s[q] == t[q] by {
        assert(s[q] == s.take(11)[q] && t[q] == t.take(11)[q]);
    }
    assert(year_of(s) == year_of(t) && two_digits(s, 5) == two_digits(t, 5) && two_digits(s, 8) == two_digits(t, 8));
}

/// A local time with offset `+HH:MM` is that much earlier than the same
/// text in UTC (`Z`), and one with `-HH:MM` that much later.
pub proof fn law_instant_offsets(s: Seq<char>, t: Seq<char>)
    requires
        instant(s) is Some,
        instant(t) is Some,
        zone_start(s) == zone_start(t),
        s.take(zone_start(s)) == t.take(zone_start(t)),
        s[zone_start(s)] == 'Z',
    ensures
        t[zone_start(t)] == '+' ==> instant(t)->0 == instant(s)->0 - (two_digits(t, zone_start(t) + 1) * 3600
            + two_digits(t, zone_start(t) + 4) * 60) * 1_000_000_000,
        t[zone_start(t)] == '-' ==> instant(t)->0 == instant(s)->0 + (two_digits(t, zone_start(t) + 1) * 3600
            + two_digits(t, zone_start(t) + 4) * 60) * 1_000_000_000,
{
    let p = zone_start(s);
    assert forall|q: int| 0 <= q < p implies s[q] == t[q] by {
        assert(s[q] == s.take(p)[q] && t[q] == t.take(p)[q]);
    }
    assert(year_of(s) == year_of(t) && two_digits(s, 5) == two_digits(t, 5) && two_digits(s, 8) == two_digits(t, 8));
    assert(two_digits(s, 11) == two_digits(t, 11) && two_digits(s, 14) == two_digits(t, 14));
    assert(two_digits(s, 17) == two_digits(t, 17));
    assert(has_fraction(s) == has_fraction(t));
    if has_fraction(s) {
        assert(!is_digit(s[p]) && !is_digit(t[p]));
        lemma_same_run(s, t, 20, p);
        lemma_same_fraction(s, t, digit_run(s, 20), 9, p);
    }
    assert(fraction_nanos(s) == fraction_nanos(t));
}

/// Texts that agree from `i` on (and have one length) agree at each of
/// those places.
proof fn lemma_same_after(s: Seq<char>, t: Seq<char>, i: int)
    requires
        0 <= i <= s.len(),
        s.len() == t.len(),
        s.skip(i) == t.skip(i),
    ensures
        forall|q: int| i <= q < s.len() ==> s[q] == t[q],
        i <= 19 ==> digit_run(s, 20) == digit_run(t, 20),
        i <= 19 ==> zone_start(s) == zone_start(t),
        i <= 19 ==> fraction_nanos(s) == fraction_nanos(t),
        i <= 19 ==> zone_offset(s, zone_start(s)) == zone_offset(t, zone_start(t)),
        i <= 11 && 19 <= s.len() ==> two_digits(s, 11) == two_digits(t, 11) && two_digits(s, 14) == two_digits(t, 14)
            && two_digits(s, 17) == two_digits(t, 17),
{
    assert forall|q: int| i <= q < s.len() implies s[q] == t[q] by {
        assert(s[q] == s.skip(i)[q - i] && t[q] == t.skip(i)[q - i]);
    }
    if i <= 19 && 20 <= s.len() {
        lemma_same_run(s, t, 20, s.len() as int);
        lemma_same_fraction(s, t, digit_run(s, 20), 9, s.len() as int);
    }
}

/// Texts that agree on `[i, end)`, and whose digit runs both stop by
/// `end`, have the same digit run from `i`.
proof fn lemma_same_run(s: Seq<char>, t: Seq<char>, i: int, end: int)
    requires
        0 <= i <= end,
        end <= s.len(),
        end <= t.len(),
        forall|q: int| i <= q < end ==> s[q] == t[q],
        end == s.len() || !is_digit(s[end]),
        end == t.len() || !is_digit(t[end]),
    ensures
        digit_run(s, i) == digit_run(t, i),
        i + digit_run(s, i) <= end,
    decreases end - i,
{
    if i < end {
        assert(s[i] == t[i]);
        if is_digit(s[i]) {
            lemma_same_run(s, t, i + 1, end);
        }
    }
}

/// Fractions whose digits agree are the same.
proof fn lemma_same_fraction(s: Seq<char>, t: Seq<char>, len: int, k: nat, end: int)
    requires
        20 + len <= end,
        end <= s.len(),
        end <= t.len(),
        forall|q: int| 20 <= q < end ==> s[q] == t[q],
    ensures
        fraction_digits(s, len, k) == fraction_digits(t, len, k),
    decreases k,
{
    if k > 0 {
        lemma_same_fraction(s, t, len, (k - 1) as nat, end);
    }
}

} // verus!
