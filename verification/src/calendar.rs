//! Dates of the Gregorian calendar, counted in days and seconds from 1970.

use crate::text;
use vstd::prelude::*;
use vstd::string::*;

verus! {

/// A year of 366 days.
pub open spec fn is_leap(y: int) -> bool {
    y % 4 == 0 && (y % 100 != 0 || y % 400 == 0)
}

/// Leap years among the years 1 to `y`, counted on backwards below that.
pub open spec fn leap_years(y: int) -> int {
    y / 4 - y / 100 + y / 400
}

/// Days from 1 January 1970 to 1 January of year `y`.
pub open spec fn days_to_year(y: int) -> int {
    365 * (y - 1970) + leap_years(y - 1) - leap_years(1969)
}

/// Days of month `m` of year `y`.
pub open spec fn days_in_month(y: int, m: int) -> int {
    if m == 2 {
        if is_leap(y) {
            29
        } else {
            28
        }
    } else if m == 4 || m == 6 || m == 9 || m == 11 {
        30
    } else {
        31
    }
}

/// Days of year `y` before the first of month `m`.
pub open spec fn days_before_month(y: int, m: int) -> int
    decreases m,
{
    if m <= 1 {
        0
    } else {
        days_before_month(y, m - 1) + days_in_month(y, m - 1)
    }
}

/// Days from 1 January 1970 to day `d` of month `m` of year `y`; a day beyond
/// the month's end runs on into the next month.
pub open spec fn day_number(y: int, m: int, d: int) -> int {
    days_to_year(y) + days_before_month(y, m) + d - 1
}

/// A date of the calendar.
pub open spec fn is_date(y: int, m: int, d: int) -> bool {
    1 <= m <= 12 && 1 <= d <= days_in_month(y, m)
}

/// Days of a year that starts in March before the first of its month `mp`,
/// March being month 0.
spec fn march_days(mp: int) -> int {
    (153 * mp + 2) / 5
}

proof fn lemma_months(y: int)
    ensures
        days_before_month(y, 1) == 0,
        days_before_month(y, 2) == 31,
        days_before_month(y, 3) == 59 + if is_leap(y) { 1int } else { 0 },
        days_before_month(y, 4) == days_before_month(y, 3) + 31,
        days_before_month(y, 5) == days_before_month(y, 3) + 61,
        days_before_month(y, 6) == days_before_month(y, 3) + 92,
        days_before_month(y, 7) == days_before_month(y, 3) + 122,
        days_before_month(y, 8) == days_before_month(y, 3) + 153,
        days_before_month(y, 9) == days_before_month(y, 3) + 184,
        days_before_month(y, 10) == days_before_month(y, 3) + 214,
        days_before_month(y, 11) == days_before_month(y, 3) + 245,
        days_before_month(y, 12) == days_before_month(y, 3) + 275,
{
    reveal_with_fuel(days_before_month, 13);
}

proof fn lemma_leap_step(y: int)
    ensures
        leap_years(y) == leap_years(y - 1) + if is_leap(y) { 1int } else { 0 },
{
    lemma_quotient_step(y, 4);
    lemma_quotient_step(y, 100);
    lemma_quotient_step(y, 400);
    assert(y % 400 == 0 ==> y % 100 == 0);
    assert(y % 100 == 0 ==> y % 4 == 0);
}

proof fn lemma_quotient_step(y: int, k: int)
    requires
        k == 4 || k == 100 || k == 400,
    ensures
        y / k == (y - 1) / k + if y % k == 0 { 1int } else { 0 },
{
    if k == 4 {
        assert(y / 4 == (y - 1) / 4 + if y % 4 == 0 { 1int } else { 0 });
    } else if k == 100 {
        assert(y / 100 == (y - 1) / 100 + if y % 100 == 0 { 1int } else { 0 });
    } else {
        assert(y / 400 == (y - 1) / 400 + if y % 400 == 0 { 1int } else { 0 });
    }
}

/// Days of the year from the days since the first of March.
proof fn lemma_march_year(y: int, m: int, d: int, yy: int, mp: int)
    requires
        1 <= m <= 12,
        yy == if m <= 2 { y - 1 } else { y },
        mp == (m + 9) % 12,
    ensures
        day_number(y, m, d) == 365 * yy + leap_years(yy) + march_days(mp) + d - 1 - 719468,
{
    lemma_months(y);
    lemma_leap_step(y);
    assert(leap_years(1969) == 477);
    if m == 1 {
    } else if m == 2 {
    } else if m == 3 {
    } else if m == 4 {
    } else if m == 5 {
    } else if m == 6 {
    } else if m == 7 {
    } else if m == 8 {
    } else if m == 9 {
    } else if m == 10 {
    } else if m == 11 {
    } else {
    }
}

proof fn lemma_era(yy: int, era: int, yoe: int)
    requires
        era == yy / 400,
        yoe == yy - era * 400,
    ensures
        0 <= yoe < 400,
        365 * yy + leap_years(yy) == era * 146097 + yoe * 365 + yoe / 4 - yoe / 100,
{
}

/// Days since 1970 of day `d` counted from the first of a month.
pub fn days_from_civil(y: i64, m: i64, d: i64) -> (days: i64)
    requires
        -1_000_000 <= y <= 1_000_000,
        1 <= m <= 12,
        1 <= d <= 31,
    ensures
        days == day_number(y as int, m as int, d as int),
{
    let yy: i64 = if m <= 2 {
        y - 1
    } else {
        y
    };
    let shifted: i64 = if yy >= 0 {
        yy
    } else {
        yy - 399
    };
    let era: i64 = if shifted >= 0 {
        shifted / 400
    } else {
        -((-shifted) / 400)
    };
    assert(era == yy as int / 400);
    let yoe: i64 = yy - era * 400;
    let mp: i64 = (m + 9) % 12;
    proof {
        lemma_era(yy as int, era as int, yoe as int);
        lemma_march_year(y as int, m as int, d as int, yy as int, mp as int);
    }
    let doy: i64 = (153 * mp + 2) / 5 + d - 1;
    let doe: i64 = yoe * 365 + yoe / 4 - yoe / 100 + doy;
    era * 146097 + doe - 719468
}

/// Days of an era before its year `k`, the era and its years starting in March.
spec fn era_days(k: int) -> int {
    365 * k + k / 4 - k / 100 + k / 400
}

#[verifier::spinoff_prover]
proof fn lemma_year_of_era(doe: int, yoe: int)
    requires
        0 <= doe < 146097,
        yoe == (doe - doe / 1460 + doe / 36524 - doe / 146096) / 365,
    ensures
        0 <= yoe < 400,
        era_days(yoe) <= doe < era_days(yoe + 1),
{
    let century: int = doe / 36524;
    if doe == 146096 {
        assert(yoe == 399);
    } else {
        assert(doe / 146096 == 0);
        lemma_year_in_century(doe, century, yoe);
    }
}

#[verifier::spinoff_prover]
proof fn lemma_year_in_century(doe: int, century: int, yoe: int)
    requires
        0 <= doe < 146096,
        century == doe / 36524,
        yoe == (doe - doe / 1460 + century) / 365,
    ensures
        0 <= yoe < 400,
        era_days(yoe) <= doe < era_days(yoe + 1),
{
    let q: int = doe / 1460;
    assert(1460 * q <= doe < 1460 * q + 1460);
    assert(365 * yoe <= doe - q + century < 365 * yoe + 365);
    assert(0 <= century <= 3);
    if century == 0 {
        assert(0 <= yoe <= 99);
        assert(yoe / 100 == 0);
    } else if century == 1 {
        assert(100 <= yoe <= 199);
        assert(yoe / 100 == 1);
    } else if century == 2 {
        assert(200 <= yoe <= 299);
        assert(yoe / 100 == 2);
    } else {
        assert(300 <= yoe <= 399);
        assert(yoe / 100 == 3);
    }
    assert(yoe / 400 == 0);
    let k: int = yoe / 4;
    assert(era_days(yoe) == 365 * yoe + k - century);
}

/// Month and day of a day of a year that starts in March.
proof fn lemma_month_of_year(doy: int, mp: int, d: int)
    requires
        0 <= doy <= 365,
        mp == (5 * doy + 2) / 153,
        d == doy - (153 * mp + 2) / 5 + 1,
    ensures
        0 <= mp <= 11,
        1 <= d <= 31,
        mp == 1 || mp == 3 || mp == 6 || mp == 8 ==> d <= 30,
        mp == 11 ==> d <= 29,
        mp == 11 && d == 29 ==> doy == 365,
{
}

/// The last day of a long year that starts in March falls into a leap year.
proof fn lemma_long_year(era: int, yoe: int)
    requires
        0 <= yoe < 400,
        era_days(yoe + 1) > era_days(yoe) + 365,
    ensures
        is_leap(yoe + era * 400 + 1),
{
    let k: int = yoe + 1;
    lemma_leap_step(k);
    assert(is_leap(k));
    let y: int = yoe + era * 400 + 1;
    assert(y % 4 == k % 4);
    assert(y % 100 == k % 100);
    assert(y % 400 == k % 400);
}

/// The date that lies `days` days after 1 January 1970.
pub fn civil_from_days(days: i64) -> (date: (i64, i64, i64))
    requires
        -9_000_000_000_000_000_000 <= days <= 9_000_000_000_000_000_000,
    ensures
        is_date(date.0 as int, date.1 as int, date.2 as int),
        day_number(date.0 as int, date.1 as int, date.2 as int) == days,
{
    let z: i64 = days + 719468;
    let shifted: i64 = if z >= 0 {
        z
    } else {
        z - 146096
    };
    let era: i64 = if shifted >= 0 {
        shifted / 146097
    } else {
        -((-shifted) / 146097)
    };
    assert(era == z as int / 146097);
    let doe: i64 = z - era * 146097;
    let yoe: i64 = (doe - doe / 1460 + doe / 36524 - doe / 146096) / 365;
    proof {
        lemma_year_of_era(doe as int, yoe as int);
    }
    let yy: i64 = yoe + era * 400;
    let doy: i64 = doe - (365 * yoe + yoe / 4 - yoe / 100);
    assert(0 <= doy <= 365);
    let mp: i64 = (5 * doy + 2) / 153;
    let d: i64 = doy - (153 * mp + 2) / 5 + 1;
    proof {
        lemma_month_of_year(doy as int, mp as int, d as int);
    }
    let m: i64 = if mp < 10 {
        mp + 3
    } else {
        mp - 9
    };
    let y: i64 = if m <= 2 {
        yy + 1
    } else {
        yy
    };
    proof {
        assert(era == yy as int / 400);
        lemma_era(yy as int, era as int, yoe as int);
        lemma_march_year(y as int, m as int, d as int, yy as int, mp as int);
        if doy == 365 {
            lemma_long_year(era as int, yoe as int);
        }
    }
    (y, m, d)
}

proof fn lemma_leap_years_grow(a: int, b: int)
    requires
        a <= b,
    ensures
        leap_years(a) <= leap_years(b),
{
}

/// A date lies in its year.
proof fn lemma_date_in_year(y: int, m: int, d: int)
    requires
        is_date(y, m, d),
    ensures
        days_to_year(y) <= day_number(y, m, d) < days_to_year(y + 1),
{
    lemma_months(y);
    lemma_leap_step(y);
}

/// Earlier dates have smaller numbers.
pub proof fn law_day_number_orders_dates(
    y: int,
    m: int,
    d: int,
    y2: int,
    m2: int,
    d2: int,
)
    requires
        is_date(y, m, d),
        is_date(y2, m2, d2),
        y < y2 || (y == y2 && (m < m2 || (m == m2 && d < d2))),
    ensures
        day_number(y, m, d) < day_number(y2, m2, d2),
{
    lemma_date_in_year(y, m, d);
    lemma_date_in_year(y2, m2, d2);
    if y < y2 {
        lemma_leap_years_grow(y, y2 - 1);
    } else {
        lemma_months(y);
    }
}

/// The value of the digits in `b`.
pub open spec fn digits_value(b: Seq<u8>) -> int
    decreases b.len(),
{
    if b.len() == 0 {
        0
    } else {
        digits_value(b.drop_last()) * 10 + (b.last() - 48)
    }
}

/// Nothing but ASCII digits.
pub open spec fn digit_bytes(b: Seq<u8>) -> bool {
    forall|i: int| 0 <= i < b.len() ==> 48 <= #[trigger] b[i] <= 57
}

/// The number that `b` writes in ASCII: digits behind at most one sign.
pub open spec fn signed_number(b: Seq<u8>) -> Option<int> {
    let signed = b.len() > 0 && (b[0] == 43 || b[0] == 45);
    let body = if signed {
        b.drop_first()
    } else {
        b
    };
    if body.len() == 0 || !digit_bytes(body) {
        None
    } else if signed && b[0] == 45 {
        Some(-digits_value(body))
    } else {
        Some(digits_value(body))
    }
}

/// The number that two digits behind a colon write. The colon stands at `at`.
pub open spec fn clock_part(b: Seq<u8>, at: int) -> Option<int> {
    if b.len() >= at + 3 && b[at] == 58 && digit_bytes(b.subrange(at + 1, at + 3)) {
        Some(digits_value(b.subrange(at + 1, at + 3)))
    } else {
        None
    }
}

/// Seconds past the hour of a time: its minutes, where they are there, and behind
/// them its seconds, where they are there.
pub open spec fn past_the_hour(b: Seq<u8>) -> int {
    match (clock_part(b, 13), clock_part(b, 16)) {
        (Some(minutes), Some(seconds)) => minutes * 60 + seconds,
        (Some(minutes), None) => minutes * 60,
        (None, _) => 0,
    }
}

/// Seconds since 1970 of a date `YYYY-MM-DD`, or of a time on it, from
/// `YYYY-MM-DDTHH` to `YYYY-MM-DDTHH:MM:SS`; what follows is not read.
pub open spec fn epoch_of(b: Seq<u8>) -> Option<int> {
    let hour = if b.len() >= 13 {
        signed_number(b.subrange(11, 13))
    } else {
        Some(0int)
    };
    if b.len() < 10 {
        None
    } else {
        match (
            signed_number(b.subrange(0, 4)),
            signed_number(b.subrange(5, 7)),
            signed_number(b.subrange(8, 10)),
            hour,
        ) {
            (Some(y), Some(m), Some(d), Some(h)) => if 1 <= m <= 12 && 1 <= d <= 31 {
                Some(day_number(y, m, d) * 86400 + h * 3600 + past_the_hour(b))
            } else {
                None
            },
            _ => None,
        }
    }
}

proof fn lemma_digits_value_bound(b: Seq<u8>)
    requires
        digit_bytes(b),
        b.len() <= 4,
    ensures
        0 <= digits_value(b) <= 9999,
        b.len() <= 2 ==> digits_value(b) <= 99,
{
    reveal_with_fuel(digits_value, 5);
}

/// Parses a short signed number.
fn parse_signed(b: &[u8], start: usize, end: usize) -> (res: Option<i64>)
    requires
        start < end <= b.len(),
        end - start <= 4,
    ensures
        match res {
            Some(n) => signed_number(b@.subrange(start as int, end as int)) == Some(n as int)
                && -9999 <= n <= 9999 && (end - start <= 2 ==> -99 <= n <= 99),
            None => signed_number(b@.subrange(start as int, end as int)) is None,
        },
{
    let ghost all = b@.subrange(start as int, end as int);
    let signed: bool = b[start] == 43 || b[start] == 45;
    let negative: bool = b[start] == 45;
    let first: usize = if signed {
        start + 1
    } else {
        start
    };
    let ghost body = b@.subrange(first as int, end as int);
    assert(all[0] == b@[start as int]);
    assert(body =~= if signed {
        all.drop_first()
    } else {
        all
    });
    if first == end {
        return None;
    }
    let mut n: i64 = 0;
    let mut i: usize = first;
    while i < end
        invariant
            start <= first <= i <= end <= b.len(),
            end - start <= 4,
            body == b@.subrange(first as int, end as int),
            all == b@.subrange(start as int, end as int),
            body == (if signed { all.drop_first() } else { all }),
            signed == (all.len() > 0 && (all[0] == 43 || all[0] == 45)),
            forall|j: int| 0 <= j < i - first ==> 48 <= #[trigger] body[j] <= 57,
            n == digits_value(body.take(i - first)),
            0 <= n,
            i - first == 0 ==> n == 0,
            i - first == 1 ==> n <= 9,
            i - first == 2 ==> n <= 99,
            i - first == 3 ==> n <= 999,
        decreases end - i,
    {
        let c: u8 = b[i];
        assert(c == body[i - first]);
        if c < 48 || c > 57 {
            assert(!digit_bytes(body));
            return None;
        }
        assert(body.take(i - first + 1).drop_last() =~= body.take(i - first));
        n = n * 10 + (c - 48) as i64;
        i += 1;
    }
    assert(body.take(i - first) =~= body);
    proof {
        lemma_digits_value_bound(body);
    }
    if negative {
        Some(-n)
    } else {
        Some(n)
    }
}

/// Parses two digits behind a colon.
fn parse_clock_part(b: &[u8], at: usize) -> (res: Option<i64>)
    requires
        at <= 16,
    ensures
        match res {
            Some(n) => clock_part(b@, at as int) == Some(n as int) && 0 <= n <= 99,
            None => clock_part(b@, at as int) is None,
        },
{
    if b.len() < at + 3 {
        return None;
    }
    let ghost digits = b@.subrange(at + 1, at + 3);
    let tens: u8 = b[at + 1];
    let ones: u8 = b[at + 2];
    assert(digits[0] == tens && digits[1] == ones);
    if b[at] != 58 || tens < 48 || tens > 57 || ones < 48 || ones > 57 {
        return None;
    }
    proof {
        assert(digit_bytes(digits));
        reveal_with_fuel(digits_value, 3);
        assert(digits.drop_last().last() == tens);
    }
    Some((tens - 48) as i64 * 10 + (ones - 48) as i64)
}

/// Seconds since epoch parsed from "YYYY-MM-DDTHH:MM:SSZ" or "YYYY-MM-DD".
pub fn parse_epoch(date: &str) -> (res: Option<i64>)
    ensures
        match res {
            Some(t) => epoch_of(date.spec_bytes()) == Some(t as int),
            None => epoch_of(date.spec_bytes()) is None,
        },
        res matches Some(t) ==> -400_000_000_000 <= t <= 400_000_000_000,
{
    let b = date.as_bytes();
    if b.len() < 10 {
        return None;
    }
    let y: i64 = match parse_signed(b, 0, 4) {
        Some(y) => y,
        None => {
            return None;
        },
    };
    let m: i64 = match parse_signed(b, 5, 7) {
        Some(m) => m,
        None => {
            return None;
        },
    };
    let d: i64 = match parse_signed(b, 8, 10) {
        Some(d) => d,
        None => {
            return None;
        },
    };
    let h: i64 = if b.len() >= 13 {
        match parse_signed(b, 11, 13) {
            Some(h) => h,
            None => {
                return None;
            },
        }
    } else {
        0
    };
    if m < 1 || m > 12 || d < 1 || d > 31 {
        return None;
    }
    let past_hour: i64 = match (parse_clock_part(b, 13), parse_clock_part(b, 16)) {
        (Some(minutes), Some(seconds)) => minutes * 60 + seconds,
        (Some(minutes), None) => minutes * 60,
        (None, _) => 0,
    };
    let days: i64 = days_from_civil(y, m, d);
    proof {
        lemma_months(y as int);
    }
    Some(days * 86400 + h * 3600 + past_hour)
}

/// The date as `YYYY-MM-DD`.
pub open spec fn iso_text(y: int, m: int, d: int) -> Seq<char> {
    text::padded_decimal(y, 4) + seq!['-'] + text::padded_decimal(m, 2) + seq!['-']
        + text::padded_decimal(d, 2)
}

/// `text` is the date that lies `days` days after 1 January 1970, written as
/// `YYYY-MM-DD`.
pub open spec fn is_iso_date_of(text: Seq<char>, days: int) -> bool {
    exists|y: int, m: int, d: int|
        is_date(y, m, d) && #[trigger] day_number(y, m, d) == days && text == iso_text(y, m, d)
}

/// Writes the date that lies `days` days after 1 January 1970.
pub fn iso_date_of(days: i64) -> (s: String)
    requires
        -9_000_000_000_000_000_000 <= days <= 9_000_000_000_000_000_000,
    ensures
        is_iso_date_of(s@, days as int),
{
    let (y, m, d) = civil_from_days(days);
    let mut s = text::to_padded_decimal(y, 4);
    s.push('-');
    s.append(text::to_padded_decimal(m, 2).as_str());
    s.push('-');
    s.append(text::to_padded_decimal(d, 2).as_str());
    assert(s@ =~= iso_text(y as int, m as int, d as int));
    s
}

proof fn lemma_two_digits(n: int)
    requires
        0 <= n <= 99,
    ensures
        text::padded_decimal(n, 2) == seq![
            text::digit_char((n / 10) as nat),
            text::digit_char((n % 10) as nat),
        ],
{
    reveal_with_fuel(text::decimal, 3);
    assert(text::padded_decimal(n, 2) =~= seq![
        text::digit_char((n / 10) as nat),
        text::digit_char((n % 10) as nat),
    ]);
}

proof fn lemma_four_digits(n: int)
    requires
        0 <= n <= 9999,
    ensures
        text::padded_decimal(n, 4) == seq![
            text::digit_char((n / 1000) as nat),
            text::digit_char((n / 100 % 10) as nat),
            text::digit_char((n / 10 % 10) as nat),
            text::digit_char((n % 10) as nat),
        ],
{
    reveal_with_fuel(text::decimal, 5);
    assert(n / 10 / 10 == n / 100);
    assert(n / 10 / 10 / 10 == n / 1000);
    assert(text::padded_decimal(n, 4) =~= seq![
        text::digit_char((n / 1000) as nat),
        text::digit_char((n / 100 % 10) as nat),
        text::digit_char((n / 10 % 10) as nat),
        text::digit_char((n % 10) as nat),
    ]);
}

#[verifier::spinoff_prover]
proof fn lemma_four_digit_number(b: Seq<u8>, n: int)
    requires
        b.len() == 4,
        0 <= n <= 9999,
        b[0] == 48 + n / 1000,
        b[1] == 48 + n / 100 % 10,
        b[2] == 48 + n / 10 % 10,
        b[3] == 48 + n % 10,
    ensures
        signed_number(b) == Some(n),
{
    lemma_split_digits(n);
    lemma_value4(b);
    assert(digit_bytes(b));
}

proof fn lemma_split_digits(n: int)
    requires
        0 <= n <= 9999,
    ensures
        n == 1000 * (n / 1000) + 100 * (n / 100 % 10) + 10 * (n / 10 % 10) + n % 10,
        0 <= n / 1000 <= 9,
{
    let t: int = n / 10;
    let h: int = n / 100;
    let k: int = n / 1000;
    assert(h == t / 10);
    assert(k == h / 10);
    assert(n == 10 * t + n % 10);
    assert(t == 10 * h + t % 10);
    assert(h == 10 * k + h % 10);
}

#[verifier::spinoff_prover]
proof fn lemma_two_digit_number(b: Seq<u8>, n: int)
    requires
        b.len() == 2,
        0 <= n <= 99,
        b[0] == 48 + n / 10,
        b[1] == 48 + n % 10,
    ensures
        signed_number(b) == Some(n),
{
    lemma_value2(b);
    assert(digit_bytes(b));
}

#[verifier::spinoff_prover]
proof fn lemma_iso_chars(y: int, m: int, d: int)
    requires
        is_date(y, m, d),
        0 <= y <= 9999,
    ensures
        iso_text(y, m, d) == seq![
            text::digit_char((y / 1000) as nat),
            text::digit_char((y / 100 % 10) as nat),
            text::digit_char((y / 10 % 10) as nat),
            text::digit_char((y % 10) as nat),
            '-',
            text::digit_char((m / 10) as nat),
            text::digit_char((m % 10) as nat),
            '-',
            text::digit_char((d / 10) as nat),
            text::digit_char((d % 10) as nat),
        ],
{
    lemma_four_digits(y);
    lemma_two_digits(m);
    lemma_two_digits(d);
    assert(iso_text(y, m, d) =~= seq![
        text::digit_char((y / 1000) as nat),
        text::digit_char((y / 100 % 10) as nat),
        text::digit_char((y / 10 % 10) as nat),
        text::digit_char((y % 10) as nat),
        '-',
        text::digit_char((m / 10) as nat),
        text::digit_char((m % 10) as nat),
        '-',
        text::digit_char((d / 10) as nat),
        text::digit_char((d % 10) as nat),
    ]);
}

/// A date of the years 0 to 9999 that is written out and parsed again is the
/// first second of that day.
#[verifier::spinoff_prover]
pub proof fn law_iso_date_reads_back(y: int, m: int, d: int)
    requires
        is_date(y, m, d),
        0 <= y <= 9999,
    ensures
        epoch_of(vstd::utf8::encode_utf8(iso_text(y, m, d))) == Some(day_number(y, m, d) * 86400),
{
    let c: Seq<char> = iso_text(y, m, d);
    lemma_iso_chars(y, m, d);
    assert(vstd::utf8::is_ascii_chars(c));
    vstd::utf8::is_ascii_chars_encode_utf8(c);
    let b: Seq<u8> = vstd::utf8::encode_utf8(c);
    lemma_four_digit_number(b.subrange(0, 4), y);
    lemma_two_digit_number(b.subrange(5, 7), m);
    lemma_two_digit_number(b.subrange(8, 10), d);
}

proof fn lemma_value4(b: Seq<u8>)
    requires
        b.len() == 4,
    ensures
        digits_value(b) == (b[0] - 48) * 1000 + (b[1] - 48) * 100 + (b[2] - 48) * 10 + (b[3] - 48),
{
    reveal_with_fuel(digits_value, 5);
}

proof fn lemma_value2(b: Seq<u8>)
    requires
        b.len() == 2,
    ensures
        digits_value(b) == (b[0] - 48) * 10 + (b[1] - 48),
{
    reveal_with_fuel(digits_value, 3);
}

/// Days are counted one by one from 1 January 1970. Months have 30 or 31 days, but
/// February has 28, or 29 in a year that four divides, unless a hundred divides it and
/// four hundred does not.
#[verifier::spinoff_prover]
pub proof fn law_days_follow_one_another(y: int, m: int, d: int)
    requires
        is_date(y, m, d),
    ensures
        day_number(1970, 1, 1) == 0,
        ({
            let long_year = y % 400 == 0 || y % 4 == 0 && y % 100 != 0;
            let last: int = if m == 2 && long_year {
                29
            } else if m == 2 {
                28
            } else if m == 4 || m == 6 || m == 9 || m == 11 {
                30
            } else {
                31
            };
            &&& d <= last
            &&& d < last ==> is_date(y, m, d + 1) && day_number(y, m, d + 1) == day_number(y, m, d)
                + 1
            &&& d == last && m < 12 ==> is_date(y, m + 1, 1) && day_number(y, m + 1, 1)
                == day_number(y, m, d) + 1
            &&& d == last && m == 12 ==> is_date(y + 1, 1, 1) && day_number(y + 1, 1, 1)
                == day_number(y, m, d) + 1
        }),
{
    assert(leap_years(1969) == 477);
    assert(day_number(1970, 1, 1) == 0);
    if m < 12 {
        lemma_month_step(y, m);
    } else {
        lemma_year_step(y);
    }
}

/// A month starts where the one before ends.
proof fn lemma_month_step(y: int, m: int)
    requires
        1 <= m,
    ensures
        days_before_month(y, m + 1) == days_before_month(y, m) + days_in_month(y, m),
{
}

/// A year starts where the December before ends.
#[verifier::spinoff_prover]
proof fn lemma_year_step(y: int)
    ensures
        day_number(y + 1, 1, 1) == day_number(y, 12, 31) + 1,
{
    lemma_months(y);
    lemma_leap_step(y);
    assert(days_before_month(y + 1, 1) == 0);
}

/// A time of day lies behind the start of its day by 3600 seconds for each hour, 60 for
/// each minute and one for each second.
pub proof fn law_time_of_day_is_added(b: Seq<u8>, start: int)
    requires
        b.len() >= 19,
        epoch_of(b.take(10)) == Some(start),
        digit_bytes(b.subrange(11, 13)),
        digit_bytes(b.subrange(14, 16)),
        digit_bytes(b.subrange(17, 19)),
        b[13] == 58,
        b[16] == 58,
    ensures
        epoch_of(b) == Some(
            start + 3600 * (10 * (b[11] - 48) + (b[12] - 48)) + 60 * (10 * (b[14] - 48) + (b[15]
                - 48)) + (10 * (b[17] - 48) + (b[18] - 48)),
        ),
        epoch_of(b.take(16)) == Some(
            start + 3600 * (10 * (b[11] - 48) + (b[12] - 48)) + 60 * (10 * (b[14] - 48) + (b[15]
                - 48)),
        ),
        epoch_of(b.take(13)) == Some(start + 3600 * (10 * (b[11] - 48) + (b[12] - 48))),
{
    let day = b.take(10);
    let hour = b.take(13);
    let minute = b.take(16);
    assert(day.subrange(0, 4) =~= b.subrange(0, 4));
    assert(day.subrange(5, 7) =~= b.subrange(5, 7));
    assert(day.subrange(8, 10) =~= b.subrange(8, 10));
    assert(hour.subrange(0, 4) =~= b.subrange(0, 4));
    assert(hour.subrange(5, 7) =~= b.subrange(5, 7));
    assert(hour.subrange(8, 10) =~= b.subrange(8, 10));
    assert(hour.subrange(11, 13) =~= b.subrange(11, 13));
    assert(minute.subrange(0, 4) =~= b.subrange(0, 4));
    assert(minute.subrange(5, 7) =~= b.subrange(5, 7));
    assert(minute.subrange(8, 10) =~= b.subrange(8, 10));
    assert(minute.subrange(11, 13) =~= b.subrange(11, 13));
    assert(minute.subrange(14, 16) =~= b.subrange(14, 16));
    lemma_value2(b.subrange(11, 13));
    lemma_value2(b.subrange(14, 16));
    lemma_value2(b.subrange(17, 19));
    assert(b.subrange(11, 13)[0] == b[11]);
    assert(48 <= b.subrange(11, 13)[0] <= 57);
}

/// A text is a time only if it starts with a date: four digits of a year, a month from 1
/// to 12 and a day from 1 to 31.
pub proof fn law_times_start_with_a_date(b: Seq<u8>)
    requires
        epoch_of(b) is Some,
    ensures
        b.len() >= 10,
        signed_number(b.subrange(0, 4)) is Some,
        signed_number(b.subrange(5, 7)) matches Some(m) && 1 <= m <= 12,
        signed_number(b.subrange(8, 10)) matches Some(d) && 1 <= d <= 31,
{
}

} // verus!
