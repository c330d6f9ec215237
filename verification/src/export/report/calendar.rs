//! Times and dates as a report gives them.
use crate::text::{decimal, push_decimal, push_two_digits, two_digits};
use vstd::prelude::*;

verus! {

/// A year has a 29th of February.
pub open spec fn leap(year: int) -> bool {
    year % 4 == 0 && (year % 100 != 0 || year % 400 == 0)
}

/// How many days a month has.
pub open spec fn month_days(year: int, month: int) -> int {
    if month == 2 {
        if leap(year) {
            29
        } else {
            28
        }
    } else if month == 4 || month == 6 || month == 9 || month == 11 {
        30
    } else {
        31
    }
}

/// A date of the calendar.
pub open spec fn is_date(year: int, month: int, day: int) -> bool {
    1 <= month <= 12 && 1 <= day <= month_days(year, month)
}

/// How many days of a year of 365 days come before a month.
pub open spec fn days_before(month: int) -> int {
    if month == 1 {
        0
    } else if month == 2 {
        31
    } else if month == 3 {
        59
    } else if month == 4 {
        90
    } else if month == 5 {
        120
    } else if month == 6 {
        151
    } else if month == 7 {
        181
    } else if month == 8 {
        212
    } else if month == 9 {
        243
    } else if month == 10 {
        273
    } else if month == 11 {
        304
    } else {
        334
    }
}

/// How many days of the calendar come before a year, counted from the year
/// zero: 365 each, and one more for every leap year.
pub open spec fn days_before_year(year: int) -> int {
    365 * year + (year + 3) / 4 - (year + 99) / 100 + (year + 399) / 400
}

/// How many days lie between the first day of 1970 and a date.
pub open spec fn day_number(year: int, month: int, day: int) -> int {
    days_before_year(year) - days_before_year(1970) + days_before(month) + (if leap(year) && month
        > 2 {
        1int
    } else {
        0
    }) + day - 1
}

/// A date of the calendar.
#[derive(Debug, Clone, Copy, PartialEq, Eq, Structural)]
pub struct Date {
    pub year: u64,
    pub month: u64,
    pub day: u64,
}

/// The year of a cycle of four hundred that a day falls in, years counted from
/// March.
proof fn lemma_year_of_cycle(day: int)
    requires
        0 <= day < 146_097,
    ensures
        ({
            let year = (day - day / 1460 + day / 36_524 - day / 146_096) / 365;
            let first = 365 * year + year / 4 - year / 100;
            let next = 365 * (year + 1) + (year + 1) / 4 - (year + 1) / 100 + (year + 1) / 400;
            0 <= year < 400 && first <= day < next
        }),
{
    let a = day / 1460;
    let b = day / 36_524;
    let c = day / 146_096;
    let year = (day - a + b - c) / 365;
    assert(0 <= year < 400);
    let century = year / 100;
    assert(0 <= century < 4);
}

/// The leap years before a year, counted from March of each, against those
/// counted from January.
proof fn lemma_march(year: int)
    requires
        year >= 0,
    ensures
        days_before_year(year) + 59 + (if leap(year) {
            1int
        } else {
            0
        }) == 365 * year + year / 4 - year / 100 + year / 400 + 60,
        days_before_year(year + 1) == 365 * year + year / 4 - year / 100 + year / 400 + 366,
{
    assert((year + 3) / 4 + (if year % 4 == 0 {
        1int
    } else {
        0
    }) == year / 4 + 1);
    assert((year + 99) / 100 + (if year % 100 == 0 {
        1int
    } else {
        0
    }) == year / 100 + 1);
    assert((year + 399) / 400 + (if year % 400 == 0 {
        1int
    } else {
        0
    }) == year / 400 + 1);
    assert((year + 1 + 3) / 4 == year / 4 + 1);
    assert((year + 1 + 99) / 100 == year / 100 + 1);
    assert((year + 1 + 399) / 400 == year / 400 + 1);
}

/// The month that a day falls in, days counted from the first of March.
proof fn lemma_month(day: int)
    requires
        0 <= day <= 365,
    ensures
        ({
            let index = (5 * day + 2) / 153;
            let start = (153 * index + 2) / 5;
            let month = if index < 10 {
                index + 3
            } else {
                index - 9
            };
            &&& 0 <= index <= 11
            &&& start <= day
            &&& month > 2 ==> start == days_before(month) - 59 && day - start < month_days(1, month)
            &&& month == 1 ==> start == 306 && day - start < 31
            &&& month == 2 ==> start == 337 && day - start <= 28
        }),
{
    let index = (5 * day + 2) / 153;
    assert(0 <= index <= 11);
    assert(index == 0 || index == 1 || index == 2 || index == 3 || index == 4 || index == 5 || index
        == 6 || index == 7 || index == 8 || index == 9 || index == 10 || index == 11);
}

/// Four hundred years are one cycle.
proof fn lemma_cycles(year: int, cycles: int)
    requires
        0 <= year < 400,
        cycles >= 0,
    ensures
        ({
            let all = year + 400 * cycles;
            &&& all / 4 == year / 4 + 100 * cycles
            &&& all / 100 == year / 100 + 4 * cycles
            &&& all / 400 == cycles
            &&& all % 4 == year % 4
            &&& all % 100 == year % 100
            &&& all % 400 == year
        }),
{
}

/// A year that has a 366th day, counted from March, ends in a leap February.
proof fn lemma_last_day(year: int, cycles: int, day: int)
    requires
        0 <= year < 400,
        cycles >= 0,
        365 * year + year / 4 - year / 100 <= day,
        day < 365 * (year + 1) + (year + 1) / 4 - (year + 1) / 100 + (year + 1) / 400,
    ensures
        day - (365 * year + year / 4 - year / 100) <= 365,
        day - (365 * year + year / 4 - year / 100) == 365 ==> leap(year + 400 * cycles + 1),
{
    let next = year + 1;
    assert(next / 4 <= year / 4 + 1);
    if day - (365 * year + year / 4 - year / 100) == 365 {
        assert(next / 4 - next / 100 + next / 400 > year / 4 - year / 100);
        assert(leap(next));
        let all = year + 400 * cycles + 1;
        assert(all % 4 == next % 4);
        assert(all % 100 == next % 100);
        assert(all % 400 == next % 400);
    }
}

/// The days of the calendar before the March of a year, counted from the
/// first March.
pub open spec fn days_before_march(year: int) -> int {
    365 * year + year / 4 - year / 100 + year / 400
}

/// Whole cycles of four hundred years come before the March of a year.
proof fn lemma_march_cycles(year: int, cycles: int)
    requires
        0 <= year < 400,
        cycles >= 0,
    ensures
        days_before_march(year + 400 * cycles) == 146_097 * cycles + 365 * year + year / 4 - year
            / 100,
{
    lemma_cycles(year, cycles);
}

/// A day of a year that starts in March is a date, and its number is the days
/// before that March and its place behind it.
proof fn lemma_date(year: int, day: int)
    requires
        year >= 0,
        0 <= day <= 365,
        day == 365 ==> leap(year + 1),
    ensures
        ({
            let index = (5 * day + 2) / 153;
            let start = (153 * index + 2) / 5;
            let month = if index < 10 {
                index + 3
            } else {
                index - 9
            };
            let named = if month <= 2 {
                year + 1
            } else {
                year
            };
            &&& is_date(named, month, day - start + 1)
            &&& day_number(named, month, day - start + 1) == days_before_march(year) + 60 + day
                - days_before_year(1970)
        }),
{
    lemma_month(day);
    lemma_march(year);
    let index = (5 * day + 2) / 153;
    let start = (153 * index + 2) / 5;
    if index >= 10 {
        let month = index - 9;
        assert(month == 1 || month == 2);
        if month == 2 && day - start == 28 {
            assert(day == 365);
        }
    } else {
        let month = index + 3;
        assert(month_days(1, month) == month_days(year, month));
    }
}

/// The date so many days after the first of January 1970.
pub fn date_of(days: u64) -> (date: Date)
    requires
        days <= 1_000_000_000_000,
    ensures
        is_date(date.year as int, date.month as int, date.day as int),
        day_number(date.year as int, date.month as int, date.day as int) == days,
        date.year >= 1970,
{
    let shifted: u64 = days + 719_468;
    let cycles: u64 = shifted / 146_097;
    let in_cycle: u64 = shifted % 146_097;
    proof {
        lemma_year_of_cycle(in_cycle as int);
    }
    let year_of_cycle: u64 = (in_cycle - in_cycle / 1460 + in_cycle / 36_524 - in_cycle / 146_096)
        / 365;
    let of_year: u64 = in_cycle - (365 * year_of_cycle + year_of_cycle / 4 - year_of_cycle / 100);
    proof {
        lemma_last_day(year_of_cycle as int, cycles as int, in_cycle as int);
        lemma_march_cycles(year_of_cycle as int, cycles as int);
        lemma_month(of_year as int);
    }
    let march_year: u64 = year_of_cycle + 400 * cycles;
    proof {
        lemma_date(march_year as int, of_year as int);
        assert(days_before_year(1970) == 719_528);
        lemma_since(march_year as int, of_year as int, days as int);
    }
    let index: u64 = (5 * of_year + 2) / 153;
    let day: u64 = of_year - (153 * index + 2) / 5 + 1;
    if index < 10 {
        Date { year: march_year, month: index + 3, day }
    } else {
        Date { year: march_year + 1, month: index - 9, day }
    }
}

/// A day that is not before 1970 falls in a year that is not.
proof fn lemma_since(year: int, day: int, days: int)
    requires
        year >= 0,
        0 <= day <= 365,
        days >= 0,
        days_before_march(year) + day == days + 719_468,
    ensures
        year >= 1970 || (year == 1969 && (5 * day + 2) / 153 >= 10),
{
    if year < 1969 {
        assert(days_before_march(year) <= 366 * 1968);
        assert(365 * year + year / 4 <= 365 * 1968 + 492);
        assert(year / 100 - year / 400 >= 0);
        if year >= 1000 {
            assert(year / 100 >= 10 && year / 400 <= 4);
        }
    }
}

/// A year has 365 days, and one more where it is a leap year.
proof fn lemma_year_length(year: int)
    ensures
        days_before_year(year + 1) == days_before_year(year) + 365 + (if leap(year) {
            1int
        } else {
            0
        }),
{
    assert((year + 4) / 4 == (year + 3) / 4 + (if year % 4 == 0 {
        1int
    } else {
        0
    }));
    assert((year + 100) / 100 == (year + 99) / 100 + (if year % 100 == 0 {
        1int
    } else {
        0
    }));
    assert((year + 400) / 400 == (year + 399) / 400 + (if year % 400 == 0 {
        1int
    } else {
        0
    }));
}

/// A later year comes behind all days of an earlier one.
proof fn lemma_years_in_order(year: int, later: int)
    requires
        year < later,
    ensures
        days_before_year(year + 1) <= days_before_year(later),
    decreases later - year,
{
    if year + 1 < later {
        lemma_years_in_order(year, later - 1);
        lemma_year_length(later - 1);
    }
}

/// How many days of its year come before a date.
pub open spec fn day_of_year(year: int, month: int, day: int) -> int {
    days_before(month) + (if leap(year) && month > 2 {
        1int
    } else {
        0
    }) + day - 1
}

/// A date falls within its year, and a date of a later month behind it.
proof fn lemma_day_of_year(year: int, month: int, day: int, later: int, other: int)
    requires
        is_date(year, month, day),
        is_date(year, later, other),
    ensures
        0 <= day_of_year(year, month, day) < 365 + (if leap(year) {
            1int
        } else {
            0
        }),
        month < later ==> day_of_year(year, month, day) < day_of_year(year, later, other),
{
}

/// A day has one date: two dates of the same day number are the same.
pub proof fn a_day_has_one_date(
    year: int,
    month: int,
    day: int,
    other_year: int,
    other_month: int,
    other_day: int,
)
    requires
        is_date(year, month, day),
        is_date(other_year, other_month, other_day),
        day_number(year, month, day) == day_number(other_year, other_month, other_day),
    ensures
        year == other_year && month == other_month && day == other_day,
{
    lemma_day_of_year(year, month, day, month, day);
    lemma_day_of_year(other_year, other_month, other_day, other_month, other_day);
    lemma_year_length(year);
    lemma_year_length(other_year);
    if year < other_year {
        lemma_years_in_order(year, other_year);
    } else if other_year < year {
        lemma_years_in_order(other_year, year);
    } else {
        lemma_day_of_year(year, month, day, other_month, other_day);
        lemma_day_of_year(year, other_month, other_day, month, day);
    }
}

/// A number in four digits at least.
pub open spec fn four_digits(n: nat) -> Seq<char> {
    if n < 10 {
        "000"@ + decimal(n)
    } else if n < 100 {
        "00"@ + decimal(n)
    } else if n < 1000 {
        "0"@ + decimal(n)
    } else {
        decimal(n)
    }
}

/// A moment in words: its date, and the hour and minute of its day.
pub open spec fn moment(year: nat, month: nat, day: nat, second: nat) -> Seq<char> {
    four_digits(year) + "-"@ + two_digits(month) + "-"@ + two_digits(day) + " "@ + two_digits(
        second / 3600,
    ) + ":"@ + two_digits(second % 3600 / 60) + " UTC"@
}

/// `2026-09-26 21:40 UTC` for milliseconds since the Unix epoch.
pub fn utc(millis: u64) -> (text: String)
    ensures
        exists|year: nat, month: nat, day: nat|
            {
                &&& is_date(year as int, month as int, day as int)
                &&& day_number(year as int, month as int, day as int) == millis / 1000 / 86_400
                &&& text@ == #[trigger] moment(
                    year,
                    month,
                    day,
                    (millis / 1000 % 86_400) as nat,
                )
            },
{
    let seconds: u64 = millis / 1000;
    let (days, of_day): (u64, u64) = (seconds / 86_400, seconds % 86_400);
    let date = date_of(days);
    let mut text = String::new();
    push_decimal(&mut text, date.year);
    text.append("-");
    push_two_digits(&mut text, date.month);
    text.append("-");
    push_two_digits(&mut text, date.day);
    text.append(" ");
    push_two_digits(&mut text, of_day / 3600);
    text.append(":");
    push_two_digits(&mut text, of_day % 3600 / 60);
    text.append(" UTC");
    proof {
        assert(text@ =~= moment(
            date.year as nat,
            date.month as nat,
            date.day as nat,
            of_day as nat,
        ));
    }
    text
}

/// A number in three digits at least.
pub open spec fn three_digits(n: nat) -> Seq<char> {
    if n < 10 {
        "00"@ + decimal(n)
    } else if n < 100 {
        "0"@ + decimal(n)
    } else {
        decimal(n)
    }
}

/// A time in minutes, seconds and milliseconds, with hours where there are any.
pub open spec fn clock_words(millis: nat) -> Seq<char> {
    let minutes = millis / 60_000;
    let rest = two_digits(millis % 60_000 / 1000) + "."@ + three_digits(millis % 1000);
    if minutes >= 60 {
        decimal(minutes / 60) + ":"@ + two_digits(minutes % 60) + ":"@ + rest
    } else {
        decimal(minutes) + ":"@ + rest
    }
}

/// Append a number in three digits at least.
fn push_three_digits(text: &mut String, n: u64)
    ensures
        final(text)@ == old(text)@ + three_digits(n as nat),
{
    let ghost before = text@;
    if n < 10 {
        text.append("00");
    } else if n < 100 {
        text.append("0");
    }
    push_decimal(text, n);
    proof {
        assert(text@ =~= before + three_digits(n as nat));
    }
}

/// `1:05.400`.
pub fn clock(millis: u64) -> (text: String)
    ensures
        text@ == clock_words(millis as nat),
{
    let minutes: u64 = millis / 60_000;
    let mut text = String::new();
    if minutes >= 60 {
        push_decimal(&mut text, minutes / 60);
        text.append(":");
        push_two_digits(&mut text, minutes % 60);
    } else {
        push_decimal(&mut text, minutes);
    }
    text.append(":");
    push_two_digits(&mut text, millis % 60_000 / 1000);
    text.append(".");
    push_three_digits(&mut text, millis % 1000);
    proof {
        assert(text@ =~= clock_words(millis as nat));
    }
    text
}

} // verus!
