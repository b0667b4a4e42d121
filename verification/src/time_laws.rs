//! What holds of every date and time stamp.

use crate::text;
use crate::text_laws;
use crate::time;
use vstd::prelude::*;

verus! {

/// The calendar begins with the first day of 1970, and every date is one day before the next:
/// the next day of the month, or the first of the next month, or the first of the next year.
pub proof fn law_days_follow_each_other(year: int, month: int, day: int)
    requires
        time::is_date(year, month, day),
    ensures
        time::day_number(1970, 1, 1) == 0,
        time::is_date(year, month, day + 1) ==> time::day_number(year, month, day + 1)
            == time::day_number(year, month, day) + 1,
        !time::is_date(year, month, day + 1) && month < 12 ==> time::day_number(year, month + 1, 1)
            == time::day_number(year, month, day) + 1,
        !time::is_date(year, month, day + 1) && month == 12 ==> time::day_number(year + 1, 1, 1)
            == time::day_number(year, month, day) + 1,
{
    time::lemma_year_of_months(year);
}

/// How long the months are: they add up to the year, February is the only one that a leap year
/// makes longer, and four centuries always have as many days.
pub proof fn law_calendar(year: int, month: int)
    requires
        year >= 1970,
        1 <= month <= 12,
    ensures
        28 <= time::days_in_month(year, month) <= 31,
        time::days_in_month(year, month) == 31 <==> month == 1 || month == 3 || month == 5 || month
            == 7 || month == 8 || month == 10 || month == 12,
        time::days_in_month(year, month) < 30 <==> month == 2,
        time::days_in_month(year, 2) == 29 <==> time::days_in_year(year) == 366,
        time::days_before_month(year, 13) == time::days_in_year(year),
        time::days_before_year(year + 400) == time::days_before_year(year) + 146_097,
        year % 4 != 0 ==> time::days_in_year(year) == 365,
        year % 4 == 0 && year % 100 != 0 ==> time::days_in_year(year) == 366,
        year % 100 == 0 && year % 400 != 0 ==> time::days_in_year(year) == 365,
{
    time::lemma_year_of_months(year);
    time::lemma_cycle(year);
}

/// The number between two places of a stamp.
pub open spec fn read(stamp: Seq<char>, from: int, to: int) -> int {
    text::value(stamp.subrange(from, to))
}

/// A stamp reads back as the second that it was made for: its year, month and day, counted from
/// 1970, and its hours, minutes and seconds make up that second. So no two seconds share a stamp.
pub proof fn law_stamps_read_back(
    seconds: int,
    stamp: Seq<char>,
    year: int,
    month: int,
    day: int,
)
    requires
        seconds >= 0,
        time::is_timestamp(seconds, stamp, year, month, day),
    ensures
        ({
            let n = stamp.len() as int;
            let y = read(stamp, 0, n - 16);
            let m = read(stamp, n - 15, n - 13);
            let d = read(stamp, n - 12, n - 10);
            let hour = read(stamp, n - 9, n - 7);
            let minute = read(stamp, n - 6, n - 4);
            let second = read(stamp, n - 3, n - 1);
            &&& n >= 20
            &&& time::is_date(y, m, d)
            &&& 0 <= hour < 24 && 0 <= minute < 60 && 0 <= second < 60
            &&& seconds == 86400 * time::day_number(y, m, d) + 3600 * hour + 60 * minute + second
            &&& stamp[n - 16] == '-' && stamp[n - 13] == '-' && stamp[n - 10] == 'T'
            &&& stamp[n - 7] == ':' && stamp[n - 4] == ':' && stamp[n - 1] == 'Z'
        }),
{
    reveal_strlit("-");
    reveal_strlit("T");
    reveal_strlit(":");
    reveal_strlit("Z");
    let s = seconds % 86400;
    let a = text::zero_padded(text::decimal(year as nat), 4);
    text_laws::law_digits_read_back(year as nat, 4);
    lemma_two(month);
    lemma_two(day);
    lemma_two(s / 3600);
    lemma_two(s / 60 % 60);
    lemma_two(s % 60);
    let n = stamp.len() as int;
    assert(stamp.subrange(0, n - 16) =~= a);
    assert(stamp.subrange(n - 15, n - 13) =~= time::two(month));
    assert(stamp.subrange(n - 12, n - 10) =~= time::two(day));
    assert(stamp.subrange(n - 9, n - 7) =~= time::two(s / 3600));
    assert(stamp.subrange(n - 6, n - 4) =~= time::two(s / 60 % 60));
    assert(stamp.subrange(n - 3, n - 1) =~= time::two(s % 60));
}

proof fn lemma_two(n: int)
    requires
        0 <= n < 100,
    ensures
        time::two(n).len() == 2,
        text::value(time::two(n)) == n,
{
    text_laws::law_digits_read_back(n as nat, 2);
    reveal_with_fuel(text::decimal, 2);
}

} // verus!
