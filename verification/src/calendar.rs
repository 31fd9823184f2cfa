//! Proleptic Gregorian calendar arithmetic: day numbers counted from
//! 1970-01-01, and the conversion from a day number back to a civil date.
use vstd::prelude::*;
use vstd::arithmetic::div_mod::lemma_fundamental_div_mod_converse;
use vstd::utf8::{encode_utf8, is_ascii_chars, is_ascii_chars_encode_utf8};
use crate::text::{
    sign_padded, zero_padded, push_char, push_sign_padded, push_zero_padded, text_lt, fixed_digits, ascii_bytes,
    power_of_ten, lemma_zero_padded_fixed, lemma_fixed_digits_order, lemma_bytes_lt_concat,
    lemma_fixed_len,
};

verus! {

/// Whether `y` is a leap year of the Gregorian calendar.
pub open spec fn is_leap_year(y: int) -> bool {
    y % 4 == 0 && (y % 100 != 0 || y % 400 == 0)
}

/// The number of days of month `m` (1 to 12) in year `y`.
pub open spec fn days_in_month(y: int, m: int) -> int {
    if m == 2 {
        if is_leap_year(y) { 29 } else { 28 }
    } else if m == 4 || m == 6 || m == 9 || m == 11 {
        30
    } else {
        31
    }
}

/// A year, a month and a day that name a day of the calendar.
pub open spec fn is_valid_date(y: int, m: int, d: int) -> bool {
    1 <= m <= 12 && 1 <= d <= days_in_month(y, m)
}

/// The number of leap years among the years 1 to `n`
/// (extended to all integers by the same formula).
pub open spec fn leap_years_through(n: int) -> int {
    n / 4 - n / 100 + n / 400
}

/// The day number of January 1st of year `y`.
pub open spec fn days_before_year(y: int) -> int {
    365 * (y - 1970) + leap_years_through(y - 1) - leap_years_through(1969)
}

/// The number of days of year `y` that come before the first of month `m`.
pub open spec fn days_before_month(y: int, m: int) -> int {
    let common: int = if m == 1 {
        0
    } else if m == 2 {
        31
    } else if m == 3 {
        59
    } else if m == 4 {
        90
    } else if m == 5 {
        120
    } else if m == 6 {
        151
    } else if m == 7 {
        181
    } else if m == 8 {
        212
    } else if m == 9 {
        243
    } else if m == 10 {
        273
    } else if m == 11 {
        304
    } else {
        334
    };
    if m > 2 && is_leap_year(y) { common + 1 } else { common }
}

/// The number of days from 1970-01-01 to the date `y`-`m`-`d`
/// (negative before it).
pub open spec fn day_number(y: int, m: int, d: int) -> int {
    days_before_year(y) + days_before_month(y, m) + d - 1
}

/// Each year has 365 days, and one more when it is a leap year.
pub proof fn lemma_year_length(y: int)
    ensures
        days_before_year(y + 1) == days_before_year(y) + 365 + (if is_leap_year(y) { 1int } else { 0 }),
{
    let q4 = (y - 1) / 4;
    let r4 = (y - 1) % 4;
    let q100 = (y - 1) / 100;
    let r100 = (y - 1) % 100;
    let q400 = (y - 1) / 400;
    let r400 = (y - 1) % 400;
    if r4 == 3 {
        lemma_fundamental_div_mod_converse(y, 4, q4 + 1, 0);
    } else {
        lemma_fundamental_div_mod_converse(y, 4, q4, r4 + 1);
    }
    if r100 == 99 {
        lemma_fundamental_div_mod_converse(y, 100, q100 + 1, 0);
    } else {
        lemma_fundamental_div_mod_converse(y, 100, q100, r100 + 1);
    }
    if r400 == 399 {
        lemma_fundamental_div_mod_converse(y, 400, q400 + 1, 0);
    } else {
        lemma_fundamental_div_mod_converse(y, 400, q400, r400 + 1);
    }
}

/// Every month of every year has a positive number of days.
pub proof fn lemma_month_lengths(y: int)
    ensures
        forall|m: int| 1 <= m < 12 ==> #[trigger] days_before_month(y, m + 1) == days_before_month(y, m) + days_in_month(y, m),
        days_before_month(y, 12) + days_in_month(y, 12) == 365 + (if is_leap_year(y) { 1int } else { 0 }),
{
}

/// The number of days from March 1st of the first year of a 400-year era
/// to March 1st of its year `k` (0 to 400).
pub open spec fn era_days(k: int) -> int {
    365 * k + k / 4 - k / 100 + k / 400
}

/// The year of an era in which the day `doe` (counted from March 1st of the
/// era's first year) falls.
pub open spec fn year_of_era(doe: int) -> int {
    (doe - doe / 1460 + doe / 36524 - doe / 146096) / 365
}

#[verifier::spinoff_prover]
#[verifier::rlimit(40)]
proof fn lemma_year_of_era(doe: int)
    requires
        0 <= doe <= 146096,
    ensures
        0 <= year_of_era(doe) <= 399,
        era_days(year_of_era(doe)) <= doe < era_days(year_of_era(doe) + 1),
{
}

/// The first of March of year `k` of an era lies `era_days(k)` days after the
/// first of March of the era's first year.
proof fn lemma_march_first(e: int, k: int)
    requires
        0 <= k <= 399,
    ensures
        days_before_year(400 * e + k) + 59 + (if is_leap_year(400 * e + k) { 1int } else { 0 })
            == 146097 * e + era_days(k) - 719468,
{
    let y = 400 * e + k;
    lemma_year_length(y);
    lemma_fundamental_div_mod_converse(y, 4, 100 * e + k / 4, k % 4);
    lemma_fundamental_div_mod_converse(y, 100, 4 * e + k / 100, k % 100);
    lemma_fundamental_div_mod_converse(y, 400, e, k);
    assert(leap_years_through(y) == 97 * e + leap_years_through(k));
    assert(days_before_year(y + 1) == 365 * (y + 1 - 1970) + leap_years_through(y) - leap_years_through(1969));
}

/// Splits a day of a March-based year (0 is March 1st) into a month and a day.
proof fn lemma_month_of_year(doy: int, leap: bool)
    requires
        0 <= doy < 365 + (if leap { 1int } else { 0 }),
    ensures
        ({
            let mp = (5 * doy + 2) / 153;
            let d = doy - (153 * mp + 2) / 5 + 1;
            &&& 0 <= mp <= 11
            &&& 1 <= d
            &&& mp < 11 ==> d <= (if mp == 1 || mp == 3 || mp == 6 || mp == 8 { 30int } else { 31 })
            &&& mp == 11 ==> d <= (if leap { 29int } else { 28 })
        }),
{
}

/// The civil date of day `doy` (0 is March 1st) of year `k` of era `e`.
proof fn lemma_assemble_date(e: int, k: int, doy: int)
    requires
        0 <= k <= 399,
        0 <= doy < era_days(k + 1) - era_days(k),
    ensures
        ({
            let mp = (5 * doy + 2) / 153;
            let d = doy - (153 * mp + 2) / 5 + 1;
            let m = if mp < 10 { mp + 3 } else { mp - 9 };
            let y = if m <= 2 { 400 * e + k + 1 } else { 400 * e + k };
            &&& is_valid_date(y, m, d)
            &&& day_number(y, m, d) == 146097 * e + era_days(k) + doy - 719468
        }),
{
    let y0 = 400 * e + k;
    let y1 = y0 + 1;
    assert(era_days(k + 1) - era_days(k) == 365 + (if is_leap_year(y1) { 1int } else { 0 })) by {
        lemma_fundamental_div_mod_converse(y1, 4, 100 * e + (k + 1) / 4, (k + 1) % 4);
        lemma_fundamental_div_mod_converse(y1, 100, 4 * e + (k + 1) / 100, (k + 1) % 100);
        lemma_fundamental_div_mod_converse(y1, 400, e + (k + 1) / 400, (k + 1) % 400);
    }
    lemma_month_of_year(doy, is_leap_year(y1));
    lemma_march_first(e, k);
    lemma_year_length(y0);
}

proof fn lemma_years_increase(a: int, b: int)
    requires
        a <= b,
    ensures
        days_before_year(a) + 365 * (b - a) <= days_before_year(b),
    decreases b - a,
{
    if a < b {
        lemma_year_length(a);
        lemma_years_increase(a + 1, b);
    }
}

proof fn lemma_date_within_year(y: int, m: int, d: int)
    requires
        is_valid_date(y, m, d),
    ensures
        days_before_year(y) <= day_number(y, m, d) < days_before_year(y + 1),
{
    lemma_year_length(y);
}

/// Distinct dates have distinct day numbers: a day number names at most one
/// date.
pub proof fn lemma_day_number_injective(y1: int, m1: int, d1: int, y2: int, m2: int, d2: int)
    requires
        is_valid_date(y1, m1, d1),
        is_valid_date(y2, m2, d2),
        day_number(y1, m1, d1) == day_number(y2, m2, d2),
    ensures
        y1 == y2 && m1 == m2 && d1 == d2,
{
    lemma_date_within_year(y1, m1, d1);
    lemma_date_within_year(y2, m2, d2);
    if y1 < y2 {
        lemma_years_increase(y1 + 1, y2);
    } else if y2 < y1 {
        lemma_years_increase(y2 + 1, y1);
    }
    assert(y1 == y2);
}

/// The date (year, month, day) that day number `days` names.
pub open spec fn date_of_day(days: int) -> (int, int, int) {
    choose|t: (int, int, int)| is_valid_date(t.0, t.1, t.2) && day_number(t.0, t.1, t.2) == days
}

/// Every day number names a date, and `date_of_day` is that date.
pub proof fn lemma_date_of_day(days: int)
    ensures
        is_valid_date(date_of_day(days).0, date_of_day(days).1, date_of_day(days).2),
        day_number(date_of_day(days).0, date_of_day(days).1, date_of_day(days).2) == days,
{
    let z = days + 719468;
    let e = z / 146097;
    let doe = z % 146097;
    lemma_year_of_era(doe);
    let k = year_of_era(doe);
    let doy = doe - era_days(k);
    lemma_assemble_date(e, k, doy);
    let mp = (5 * doy + 2) / 153;
    let d = doy - (153 * mp + 2) / 5 + 1;
    let m = if mp < 10 { mp + 3 } else { mp - 9 };
    let y = if m <= 2 { 400 * e + k + 1 } else { 400 * e + k };
    let t = (y, m, d);
    assert(is_valid_date(t.0, t.1, t.2) && day_number(t.0, t.1, t.2) == days);
}

/// A date and its day number name each other: converting a valid date to its
/// day number and back gives the date again.
pub proof fn lemma_date_round_trip(y: int, m: int, d: int)
    requires
        is_valid_date(y, m, d),
    ensures
        date_of_day(day_number(y, m, d)) == (y, m, d),
{
    let n = day_number(y, m, d);
    lemma_date_of_day(n);
    let t = date_of_day(n);
    lemma_day_number_injective(t.0, t.1, t.2, y, m, d);
}

/// The text `YYYY-MM-DD` of a date, as `format!("{y:04}-{m:02}-{d:02}")`
/// writes it.
pub open spec fn date_text(y: int, m: int, d: int) -> Seq<char> {
    sign_padded(y, 4) + seq!['-'] + zero_padded(m as nat, 2) + seq!['-'] + zero_padded(d as nat, 2)
}

/// The text `YYYY-MM-DD` of the date that day number `days` names.
pub open spec fn day_text(days: int) -> Seq<char> {
    date_text(date_of_day(days).0, date_of_day(days).1, date_of_day(days).2)
}

/// Day number `n` names a date with a year from 0 to 9999.
pub open spec fn four_digit_day(n: int) -> bool {
    day_number(0, 1, 1) <= n <= day_number(9999, 12, 31)
}

/// Date `a` comes before date `b`: by year, then month, then day.
spec fn date_before(a: (int, int, int), b: (int, int, int)) -> bool {
    a.0 < b.0 || (a.0 == b.0 && (a.1 < b.1 || (a.1 == b.1 && a.2 < b.2)))
}

proof fn lemma_months_increase(y: int, m1: int, m2: int)
    requires
        1 <= m1 < m2 <= 12,
    ensures
        days_before_month(y, m1) + days_in_month(y, m1) <= days_before_month(y, m2),
{
}

/// Of two valid dates, the one with the smaller day number comes first in
/// the calendar.
proof fn lemma_day_number_order(a: (int, int, int), b: (int, int, int))
    requires
        is_valid_date(a.0, a.1, a.2),
        is_valid_date(b.0, b.1, b.2),
    ensures
        (day_number(a.0, a.1, a.2) < day_number(b.0, b.1, b.2)) == date_before(a, b),
{
    lemma_date_within_year(a.0, a.1, a.2);
    lemma_date_within_year(b.0, b.1, b.2);
    if a.0 < b.0 {
        lemma_years_increase(a.0 + 1, b.0);
    } else if b.0 < a.0 {
        lemma_years_increase(b.0 + 1, a.0);
    } else if a.1 < b.1 {
        lemma_months_increase(a.0, a.1, b.1);
    } else if b.1 < a.1 {
        lemma_months_increase(a.0, b.1, a.1);
    }
}

/// The days of the dates with a year from 0 to 9999 run from
/// `day_number(0, 1, 1)` to `day_number(9999, 12, 31)`.
proof fn lemma_four_digit_year(days: int)
    requires
        day_number(0, 1, 1) <= days <= day_number(9999, 12, 31),
    ensures
        0 <= date_of_day(days).0 <= 9999,
{
    lemma_date_of_day(days);
    let t = date_of_day(days);
    lemma_date_within_year(t.0, t.1, t.2);
    lemma_date_within_year(9999, 12, 31);
    if t.0 < 0 {
        lemma_years_increase(t.0 + 1, 0);
    }
    if t.0 > 9999 {
        lemma_years_increase(10000, t.0);
    }
}

proof fn lemma_fixed_ascii(n: nat, width: nat)
    ensures
        is_ascii_chars(fixed_digits(n, width)),
    decreases width,
{
    if width > 0 {
        lemma_fixed_ascii(n / 10, (width - 1) as nat);
        let s = fixed_digits(n, width);
        assert forall|i: int| 0 <= i < s.len() implies '\0' <= #[trigger] s[i] <= '\u{7f}' by {
            if i < s.len() - 1 {
                assert(s[i] == fixed_digits(n / 10, (width - 1) as nat)[i]);
            }
        }
    }
}

/// The bytes of a date text of a four-digit year: year, dash, month, dash,
/// day, each part in a fixed number of digits.
proof fn lemma_date_bytes(t: (int, int, int))
    requires
        is_valid_date(t.0, t.1, t.2),
        0 <= t.0 <= 9999,
    ensures
        encode_utf8(date_text(t.0, t.1, t.2)) == ascii_bytes(fixed_digits(t.0 as nat, 4)) + (seq![45u8]
            + ascii_bytes(fixed_digits(t.1 as nat, 2)) + (seq![45u8] + ascii_bytes(fixed_digits(t.2 as nat, 2)))),
        ascii_bytes(fixed_digits(t.0 as nat, 4)).len() == 4,
        ascii_bytes(fixed_digits(t.1 as nat, 2)).len() == 2,
{
    reveal_with_fuel(power_of_ten, 5);
    lemma_zero_padded_fixed(t.0 as nat, 4);
    lemma_zero_padded_fixed(t.1 as nat, 2);
    lemma_zero_padded_fixed(t.2 as nat, 2);
    lemma_fixed_len(t.0 as nat, 4);
    lemma_fixed_len(t.1 as nat, 2);
    let y = fixed_digits(t.0 as nat, 4);
    let m = fixed_digits(t.1 as nat, 2);
    let d = fixed_digits(t.2 as nat, 2);
    let s = date_text(t.0, t.1, t.2);
    assert(s =~= y + seq!['-'] + m + seq!['-'] + d);
    lemma_fixed_ascii(t.0 as nat, 4);
    lemma_fixed_ascii(t.1 as nat, 2);
    lemma_fixed_ascii(t.2 as nat, 2);
    assert(is_ascii_chars(s)) by {
        assert forall|i: int| 0 <= i < s.len() implies '\0' <= #[trigger] s[i] <= '\u{7f}' by {
            if i < 4 {
                assert(s[i] == y[i]);
            } else if i == 4 || i == 7 {
            } else if i < 7 {
                assert(s[i] == m[i - 5]);
            } else {
                assert(s[i] == d[i - 8]);
            }
        }
    }
    is_ascii_chars_encode_utf8(s);
    assert(encode_utf8(s) =~= ascii_bytes(y) + (seq![45u8] + ascii_bytes(m) + (seq![45u8] + ascii_bytes(d))));
}

/// Dates of the years 0 to 9999 written as `YYYY-MM-DD` sort as text in the
/// order of their days: the text of the earlier day comes first.
pub proof fn lemma_date_text_order(n1: int, n2: int)
    requires
        four_digit_day(n1),
        four_digit_day(n2),
    ensures
        text_lt(day_text(n1), day_text(n2)) == (n1 < n2),
{
    let a = date_of_day(n1);
    let b = date_of_day(n2);
    lemma_date_of_day(n1);
    lemma_date_of_day(n2);
    lemma_four_digit_year(n1);
    lemma_four_digit_year(n2);
    lemma_day_number_order(a, b);
    lemma_date_bytes(a);
    lemma_date_bytes(b);
    reveal_with_fuel(power_of_ten, 5);
    lemma_fixed_digits_order(a.0 as nat, b.0 as nat, 4);
    lemma_fixed_digits_order(a.1 as nat, b.1 as nat, 2);
    lemma_fixed_digits_order(a.2 as nat, b.2 as nat, 2);
    let ya = ascii_bytes(fixed_digits(a.0 as nat, 4));
    let yb = ascii_bytes(fixed_digits(b.0 as nat, 4));
    let ma = ascii_bytes(fixed_digits(a.1 as nat, 2));
    let mb = ascii_bytes(fixed_digits(b.1 as nat, 2));
    let da = ascii_bytes(fixed_digits(a.2 as nat, 2));
    let db = ascii_bytes(fixed_digits(b.2 as nat, 2));
    let dash = seq![45u8];
    lemma_bytes_lt_concat(ya, dash + ma + (dash + da), yb, dash + mb + (dash + db));
    assert(dash + ma + (dash + da) =~= dash + (ma + (dash + da)));
    assert(dash + mb + (dash + db) =~= dash + (mb + (dash + db)));
    lemma_bytes_lt_concat(dash, ma + (dash + da), dash, mb + (dash + db));
    lemma_bytes_lt_concat(ma, dash + da, mb, dash + db);
    lemma_bytes_lt_concat(dash, da, dash, db);
}

/// Writes a date as `YYYY-MM-DD`.
pub fn date_string(y: i64, m: u32, d: u32) -> (r: String)
    ensures
        r@ == date_text(y as int, m as int, d as int),
{
    let mut s = String::new();
    push_sign_padded(&mut s, y, 4);
    push_char(&mut s, '-');
    push_zero_padded(&mut s, m as u64, 2);
    push_char(&mut s, '-');
    push_zero_padded(&mut s, d as u64, 2);
    assert(s@ =~= date_text(y as int, m as int, d as int));
    s
}

/// The date that day number `days` names.
#[verifier::spinoff_prover]
#[verifier::rlimit(30)]
pub fn civil_from_days(days: i64) -> (r: (i64, u32, u32))
    requires
        -200_000_000_000_000 <= days <= 200_000_000_000_000,
    ensures
        is_valid_date(r.0 as int, r.1 as int, r.2 as int),
        day_number(r.0 as int, r.1 as int, r.2 as int) == days,
        (r.0 as int, r.1 as int, r.2 as int) == date_of_day(days as int),
{
    let z = days + 719468;
    let era = if z >= 0 { z } else { z - 146096 } / 146097;
    assert(era == z / 146097) by {
        if z < 0 {
            let zi = z as int;
            let q = zi / 146097;
            let r = zi % 146097;
            lemma_fundamental_div_mod_converse(zi, 146097, q, r);
            lemma_fundamental_div_mod_converse(146096 - zi, 146097, -q, 146096 - r);
        }
    }
    let doe = (z - era * 146097) as u32;
    let yoe = (doe - doe / 1460 + doe / 36524 - doe / 146096) / 365;
    proof {
        lemma_year_of_era(doe as int);
    }
    let y = yoe as i64 + era * 400;
    let doy = doe - (365 * yoe + yoe / 4 - yoe / 100);
    proof {
        lemma_assemble_date(era as int, yoe as int, doy as int);
    }
    let mp = (5 * doy + 2) / 153;
    let d = doy - (153 * mp + 2) / 5 + 1;
    let m = if mp < 10 { mp + 3 } else { mp - 9 };
    let y2 = if m <= 2 { y + 1 } else { y };
    proof {
        lemma_date_of_day(days as int);
        let t = date_of_day(days as int);
        lemma_day_number_injective(y2 as int, m as int, d as int, t.0, t.1, t.2);
    }
    (y2, m, d)
}

} // verus!
