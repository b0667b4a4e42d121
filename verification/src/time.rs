//! Time stamps: seconds since 1970 as a date and time of day in UTC.

use crate::text;
use crate::text::padded_text;
use vstd::prelude::*;

verus! {

/// Whether a year has a 29th of February.
pub open spec fn is_leap(year: int) -> bool {
    year % 4 == 0 && (year % 100 != 0 || year % 400 == 0)
}

/// The days of a year.
pub open spec fn days_in_year(year: int) -> int {
    if is_leap(year) {
        366
    } else {
        365
    }
}

/// The days of a month, from 1 to 12.
pub open spec fn days_in_month(year: int, month: int) -> int {
    if month == 2 {
        if is_leap(year) {
            29
        } else {
            28
        }
    } else if month == 4 || month == 6 || month == 9 || month == 11 {
        30
    } else {
        31
    }
}

/// The days from the first day of 1970 to the first day of a later year.
pub open spec fn days_before_year(year: int) -> int
    decreases year - 1970,
{
    if year <= 1970 {
        0
    } else {
        days_before_year(year - 1) + days_in_year(year - 1)
    }
}

/// The days from the first day of a year to the first day of one of its months.
pub open spec fn days_before_month(year: int, month: int) -> int
    decreases month,
{
    if month <= 1 {
        0
    } else {
        days_before_month(year, month - 1) + days_in_month(year, month - 1)
    }
}

/// The number of a day, counted from the first day of 1970.
pub open spec fn day_number(year: int, month: int, day: int) -> int {
    days_before_year(year) + days_before_month(year, month) + day - 1
}

/// Whether there is such a day in 1970 or later.
pub open spec fn is_date(year: int, month: int, day: int) -> bool {
    year >= 1970 && 1 <= month <= 12 && 1 <= day <= days_in_month(year, month)
}

/// The date and time of day in the form `2025-03-31T10:30:00Z`.
pub open spec fn iso8601(year: int, month: int, day: int, second: int) -> Seq<char> {
    text::zero_padded(text::decimal(year as nat), 4) + "-"@ + two(month) + "-"@ + two(day) + "T"@
        + two(second / 3600) + ":"@ + two(second / 60 % 60) + ":"@ + two(second % 60) + "Z"@
}

/// A number in at least two digits.
pub open spec fn two(n: int) -> Seq<char> {
    text::zero_padded(text::decimal(n as nat), 2)
}

/// Whether a text is the time stamp for this many seconds after the beginning of 1970.
pub open spec fn is_timestamp(seconds: int, stamp: Seq<char>, year: int, month: int, day: int) -> bool {
    &&& is_date(year, month, day)
    &&& day_number(year, month, day) == seconds / 86400
    &&& stamp == iso8601(year, month, day, seconds % 86400)
}

proof fn lemma_years_grow(a: int, b: int)
    requires
        1970 <= a <= b,
    ensures
        days_before_year(a) + 365 * (b - a) <= days_before_year(b),
    decreases b - a,
{
    if a < b {
        lemma_years_grow(a, b - 1);
    }
}

pub proof fn lemma_year_of_months(year: int)
    ensures
        days_before_month(year, 13) == days_in_year(year),
{
    reveal_with_fuel(days_before_month, 13);
}

fn leap(year: u64) -> (r: bool)
    ensures
        r == is_leap(year as int),
{
    year % 4 == 0 && (year % 100 != 0 || year % 400 == 0)
}

fn month_length(year: u64, month: u64) -> (r: u64)
    ensures
        r == days_in_month(year as int, month as int),
{
    if month == 2 {
        if leap(year) {
            29
        } else {
            28
        }
    } else if month == 4 || month == 6 || month == 9 || month == 11 {
        30
    } else {
        31
    }
}

fn year_length(year: u64) -> (r: u64)
    ensures
        r == days_in_year(year as int),
{
    if leap(year) {
        366
    } else {
        365
    }
}

/// The days of 400 years.
pub const CYCLE_DAYS: u64 = 146_097;

pub proof fn lemma_cycle(year: int)
    requires
        year >= 1970,
    ensures
        days_before_year(year + 400) == days_before_year(year) + 146_097,
    decreases year,
{
    if year == 1970 {
        lemma_first_cycle();
    } else {
        lemma_cycle(year - 1);
        assert((year - 1 + 400) % 4 == (year - 1) % 4);
        assert((year - 1 + 400) % 100 == (year - 1) % 100);
        assert((year - 1 + 400) % 400 == (year - 1) % 400);
    }
}

/// The years from 1970 on that are divisible by `n`, before `year`.
spec fn multiples_before(n: int, year: int) -> int {
    (year - 1) / n - 1969int / n
}

proof fn lemma_count(year: int)
    requires
        year >= 1970,
    ensures
        days_before_year(year) == 365 * (year - 1970) + multiples_before(4, year)
            - multiples_before(100, year) + multiples_before(400, year),
    decreases year,
{
    if year > 1970 {
        lemma_count(year - 1);
        let y = year - 1;
        assert(y / 4 - (y - 1) / 4 == if y % 4 == 0 {
            1int
        } else {
            0int
        });
        assert(y / 100 - (y - 1) / 100 == if y % 100 == 0 {
            1int
        } else {
            0int
        });
        assert(y / 400 - (y - 1) / 400 == if y % 400 == 0 {
            1int
        } else {
            0int
        });
        assert(y % 400 == 0 ==> y % 100 == 0);
        assert(y % 100 == 0 ==> y % 4 == 0);
    }
}

proof fn lemma_first_cycle()
    ensures
        days_before_year(2370) == 146_097,
{
    lemma_count(2370);
}

proof fn lemma_cycles(k: int)
    requires
        k >= 0,
    ensures
        days_before_year(1970 + 400 * k) == 146_097 * k,
    decreases k,
{
    if k > 0 {
        lemma_cycles(k - 1);
        lemma_cycle(1970 + 400 * (k - 1));
    }
}

/// The year, month and day of a day that is counted from the first day of 1970.
fn date_of(days: u64) -> (r: (u64, u64, u64))
    requires
        days <= 300_000_000_000_000,
    ensures
        is_date(r.0 as int, r.1 as int, r.2 as int),
        day_number(r.0 as int, r.1 as int, r.2 as int) == days,
        r.0 <= 1_000_000_000_000,
{
    let cycles: u64 = days / CYCLE_DAYS;
    let mut year: u64 = 1970 + 400 * cycles;
    let mut rest: u64 = days % CYCLE_DAYS;
    proof {
        lemma_cycles(cycles as int);
    }
    while rest >= year_length(year)
        invariant
            1970 <= year,
            year + rest <= 1_000_000_000_000,
            days_before_year(year as int) + rest == days,
        decreases rest,
    {
        rest -= year_length(year);
        year += 1;
    }
    let mut month: u64 = 1;
    while rest >= month_length(year, month)
        invariant
            1970 <= year <= 1_000_000_000_000,
            1 <= month <= 12,
            rest + days_before_month(year as int, month as int) < days_in_year(year as int),
            days_before_year(year as int) + days_before_month(year as int, month as int) + rest
                == days,
        decreases rest,
    {
        proof {
            lemma_year_of_months(year as int);
        }
        rest -= month_length(year, month);
        month += 1;
    }
    (year, month, rest + 1)
}

fn two_digits(n: u64) -> (r: String)
    ensures
        r@ == two(n as int),
{
    padded_text(n as u128, 2)
}

/// The time stamp for this many seconds after the beginning of 1970, in the form
/// `2025-03-31T10:30:00Z`.
pub fn timestamp(seconds: u64) -> (r: String)
    ensures
        exists|year: int, month: int, day: int| #[trigger]
            is_timestamp(seconds as int, r@, year, month, day),
{
    let (year, month, day) = date_of(seconds / 86400);
    let s: u64 = seconds % 86400;
    let mut r = padded_text(year as u128, 4);
    r.append("-");
    r.append(two_digits(month).as_str());
    r.append("-");
    r.append(two_digits(day).as_str());
    r.append("T");
    r.append(two_digits(s / 3600).as_str());
    r.append(":");
    r.append(two_digits(s / 60 % 60).as_str());
    r.append(":");
    r.append(two_digits(s % 60).as_str());
    r.append("Z");
    assert(is_timestamp(seconds as int, r@, year as int, month as int, day as int));
    r
}

/// A day has one date only.
pub proof fn law_dates_are_unique(y1: int, m1: int, d1: int, y2: int, m2: int, d2: int)
    requires
        is_date(y1, m1, d1),
        is_date(y2, m2, d2),
        day_number(y1, m1, d1) == day_number(y2, m2, d2),
    ensures
        y1 == y2 && m1 == m2 && d1 == d2,
{
    lemma_within_year(y1, m1, d1);
    lemma_within_year(y2, m2, d2);
    if y1 < y2 {
        lemma_years_grow(y1 + 1, y2);
    } else if y2 < y1 {
        lemma_years_grow(y2 + 1, y1);
    } else if m1 < m2 {
        lemma_months_grow(y1, m1 + 1, m2);
    } else if m2 < m1 {
        lemma_months_grow(y1, m2 + 1, m1);
    }
}

proof fn lemma_months_grow(year: int, a: int, b: int)
    requires
        1 <= a <= b,
    ensures
        days_before_month(year, a) <= days_before_month(year, b),
    decreases b - a,
{
    if a < b {
        lemma_months_grow(year, a, b - 1);
    }
}

proof fn lemma_within_year(year: int, month: int, day: int)
    requires
        is_date(year, month, day),
    ensures
        days_before_year(year) <= day_number(year, month, day) < days_before_year(year + 1),
        day_number(year, month, day) < days_before_year(year) + days_before_month(year, month + 1),
{
    lemma_months_grow(year, 1, month);
    lemma_months_grow(year, month + 1, 13);
    lemma_year_of_months(year);
}

} // verus!
