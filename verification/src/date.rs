//! A simple calendar date in the proleptic Gregorian calendar, with day
//! arithmetic specified through the date's absolute day index.

use vstd::prelude::*;
use crate::text::spec_dec_digits;
use crate::text::spec_dec_value;
use crate::text::is_dec_digit;
use crate::text::u32_to_decimal;
use crate::text::parse_u32_digits;

verus! {

/// A calendar date: a year, a month of that year, and a day of that month.
pub struct Date {
    pub day: u32,
    pub month: u32,
    pub year: u32,
}

/// A year divisible by four is a leap year, unless it opens a century that
/// is not divisible by four hundred.
pub open spec fn spec_is_leap(year: int) -> bool {
    (year % 4 == 0 && year % 100 != 0) || year % 400 == 0
}

/// The number of days in a month of a given year.
pub open spec fn spec_month_length(year: int, month: int) -> int
    recommends
        1 <= month <= 12,
{
    if month == 2 {
        if spec_is_leap(year) {
            29
        } else {
            28
        }
    } else if month == 4 || month == 6 || month == 9 || month == 11 {
        30
    } else {
        31
    }
}

/// The number of days in a year.
pub open spec fn spec_year_length(year: int) -> int {
    if spec_is_leap(year) {
        366
    } else {
        365
    }
}

/// Days in months `1..month` of a year: what precedes the given month.
pub open spec fn spec_days_before_month(year: int, month: int) -> int
    recommends
        1 <= month <= 13,
    decreases month,
{
    if month <= 1 {
        0
    } else {
        spec_days_before_month(year, month - 1) + spec_month_length(year, month - 1)
    }
}

/// Days in all years `0..year`: what precedes the given year.
pub open spec fn spec_days_before_year(year: nat) -> int
    decreases year,
{
    if year == 0 {
        0
    } else {
        spec_days_before_year((year - 1) as nat) + spec_year_length(year - 1)
    }
}

/// The absolute day index of a date: days strictly before it, counted from
/// the first day of year zero, plus the day of the month.
pub open spec fn spec_abs_day(year: int, month: int, day: int) -> int
    recommends
        0 <= year,
{
    spec_days_before_year(year as nat) + spec_days_before_month(year, month) + day
}

/// A date is valid when the month exists and the day fits its month.
pub open spec fn spec_is_valid(year: int, month: int, day: int) -> bool {
    &&& 1 <= month <= 12
    &&& 1 <= day <= spec_month_length(year, month)
}

/// The whole year is what precedes month thirteen.
proof fn lemma_days_before_month_full(year: int)
    ensures
        spec_days_before_month(year, 13) == spec_year_length(year),
{
    reveal_with_fuel(spec_days_before_month, 14);
    assert(spec_days_before_month(year, 13) == spec_year_length(year));
}

/// Month counts grow with the month.
proof fn lemma_days_before_month_monotonic(year: int, m1: int, m2: int)
    requires
        1 <= m1 <= m2 <= 13,
    ensures
        spec_days_before_month(year, m1) <= spec_days_before_month(year, m2),
        m1 < m2 ==> spec_days_before_month(year, m1) + spec_month_length(year, m1)
            <= spec_days_before_month(year, m2),
    decreases m2,
{
    if m1 < m2 {
        lemma_days_before_month_monotonic(year, m1, m2 - 1);
    }
}

/// Year counts grow with the year, by at least 365 days a year.
proof fn lemma_days_before_year_monotonic(y1: nat, y2: nat)
    requires
        y1 <= y2,
    ensures
        spec_days_before_year(y1) + 365 * (y2 - y1) <= spec_days_before_year(y2),
    decreases y2,
{
    if y1 < y2 {
        lemma_days_before_year_monotonic(y1, (y2 - 1) as nat);
    }
}

impl Date {
    /// Whether the year is a leap year.
    pub fn is_leap(year: u32) -> (r: bool)
        ensures
            r == spec_is_leap(year as int),
    {
        (year % 4 == 0 && year % 100 != 0) || year % 400 == 0
    }

    /// The number of days in the given month.
    pub fn month_length(year: u32, month: u32) -> (r: u32)
        requires
            1 <= month <= 12,
        ensures
            r == spec_month_length(year as int, month as int),
    {
        if month < 1 || month > 12 {
            unreached()
        } else if month == 2 {
            if Date::is_leap(year) {
                29
            } else {
                28
            }
        } else if month == 4 || month == 6 || month == 9 || month == 11 {
            30
        } else {
            31
        }
    }

    /// Whether the held date is valid.
    pub fn is_valid(&self) -> (r: bool)
        ensures
            r == spec_is_valid(self.year as int, self.month as int, self.day as int),
    {
        if self.month < 1 || self.month > 12 {
            false
        } else if self.day < 1 || self.day > Date::month_length(self.year, self.month) {
            false
        } else {
            true
        }
    }

    /// The day's rank within its year, counting from one.
    pub fn get_day_of_year(&self) -> (r: u32)
        requires
            spec_is_valid(self.year as int, self.month as int, self.day as int),
        ensures
            r == spec_days_before_month(self.year as int, self.month as int) + self.day,
    {
        let mut doy: u32 = self.day;
        let mut month: u32 = 1;
        while month < self.month
            invariant
                1 <= month <= self.month <= 12,
                self.day <= 31,
                doy == spec_days_before_month(self.year as int, month as int) + self.day,
            decreases self.month - month,
        {
            proof {
                lemma_days_before_month_monotonic(self.year as int, month as int, 13);
                reveal_with_fuel(spec_days_before_month, 14);
                assert(spec_days_before_month(self.year as int, 13) <= 12 * 31);
            }
            doy = doy + Date::month_length(self.year, month);
            month = month + 1;
        }
        doy
    }

    /// Moves the date by the given number of days, negative to go back.
    /// The result is the valid date whose absolute day index differs from the
    /// old one by exactly `days`; the result must land between the years one
    /// and two hundred thousand, so the year arithmetic stays in range.
    pub fn add_days(&mut self, days: i32)
        requires
            spec_is_valid(old(self).year as int, old(self).month as int, old(self).day as int),
            spec_days_before_year(1) <= spec_abs_day(
                old(self).year as int,
                old(self).month as int,
                old(self).day as int,
            ) + days,
            spec_abs_day(
                old(self).year as int,
                old(self).month as int,
                old(self).day as int,
            ) + days <= spec_days_before_year(200_000),
        ensures
            spec_is_valid(final(self).year as int, final(self).month as int, final(self).day as int),
            spec_abs_day(final(self).year as int, final(self).month as int, final(self).day as int)
                == spec_abs_day(
                old(self).year as int,
                old(self).month as int,
                old(self).day as int,
            ) + days,
    {
        let ghost target: int = spec_abs_day(
            old(self).year as int,
            old(self).month as int,
            old(self).day as int,
        ) + days;
        let mut day: i64 = self.day as i64;
        let mut month: u32 = self.month;
        let mut year: u32 = self.year;
        day = day + days as i64;
        if days > 0 {
            let mut month_length = Date::month_length(year, month) as i64;
            while day > month_length
                invariant
                    1 <= month <= 12,
                    1 <= day,
                    day <= i64::MAX - 31,
                    month_length == spec_month_length(year as int, month as int),
                    spec_days_before_year(year as nat) + spec_days_before_month(
                        year as int,
                        month as int,
                    ) + day == target,
                    target <= spec_days_before_year(200_000),
                decreases day,
            {
                proof {
                    lemma_days_before_month_monotonic(year as int, 1, month as int);
                    lemma_days_before_month_full(year as int);
                    if month == 12 && year + 1 > 200_000 {
                        lemma_days_before_year_monotonic(200_000, (year + 1) as nat);
                        assert(false);
                    }
                }
                day = day - month_length;
                month = month + 1;
                if month > 12 {
                    year = year + 1;
                    month = 1;
                }
                month_length = Date::month_length(year, month) as i64;
            }
            assert(1 <= day <= spec_month_length(year as int, month as int));
        }
        if day == 0 {
            month = month - 1;
            if month < 1 {
                month = 12;
                proof {
                    if year == 0 {
                        lemma_days_before_month_monotonic(0, 1, old(self).month as int);
                        assert(spec_days_before_year(1nat) == spec_year_length(0));
                        assert(false);
                    }
                }
                year = year - 1;
                proof {
                    lemma_days_before_month_full(year as int);
                }
            }
            day = Date::month_length(year, month) as i64;
        }
        if days < 0 {
            while day < 1
                invariant
                    1 <= month <= 12,
                    i64::MIN / 2 <= day <= 31,
                    day < 1 || day <= spec_month_length(year as int, month as int),
                    spec_days_before_year(year as nat) + spec_days_before_month(
                        year as int,
                        month as int,
                    ) + day == target,
                    spec_days_before_year(1) <= target,
                decreases 31 - day,
            {
                proof {
                    if year == 0 && month == 1 {
                        lemma_days_before_month_monotonic(0, 1, month as int);
                        assert(spec_days_before_year(1nat) == spec_year_length(0));
                        assert(false);
                    }
                }
                month = month - 1;
                if month < 1 {
                    year = year - 1;
                    month = 12;
                    proof {
                        lemma_days_before_month_full(year as int);
                    }
                }
                let month_length = Date::month_length(year, month) as i64;
                day = day + month_length;
            }
        }
        assert(1 <= day <= spec_month_length(year as int, month as int));
        self.day = day as u32;
        self.month = month;
        self.year = year;
    }

    /// Builds a date from its parts, unchecked as given.
    pub fn new(year: u32, month: u32, day: u32) -> (r: Date)
        ensures
            r.year == year,
            r.month == month,
            r.day == day,
    {
        Date { day: day, month: month, year: year }
    }

    /// Builds a date from the first ten characters of a string shaped like
    /// `2013-10-24`; anything after them is ignored.
    pub fn new_from_string(string: &str) -> (r: Date)
        requires
            string@.len() >= 10,
            forall|i: int| #![auto] 0 <= i < 4 ==> is_dec_digit(string@[i]),
            forall|i: int| #![auto] 5 <= i < 7 ==> is_dec_digit(string@[i]),
            forall|i: int| #![auto] 8 <= i < 10 ==> is_dec_digit(string@[i]),
        ensures
            r.year == spec_dec_value(string@.subrange(0, 4)),
            r.month == spec_dec_value(string@.subrange(5, 7)),
            r.day == spec_dec_value(string@.subrange(8, 10)),
    {
        proof {
            crate::text::lemma_dec_value_bound(string@.subrange(0, 4));
            crate::text::lemma_dec_value_bound(string@.subrange(5, 7));
            crate::text::lemma_dec_value_bound(string@.subrange(8, 10));
        }
        let year: u32 = parse_u32_digits(string, 0, 4);
        let month: u32 = parse_u32_digits(string, 5, 7);
        let day: u32 = parse_u32_digits(string, 8, 10);
        Date { day: day, month: month, year: year }
    }

    /// Renders the date as `year-month-day`, each part padded with spaces on
    /// the left to widths four, two and two.
    pub fn to_string(&self) -> (r: String)
        ensures
            r@ == crate::text::pad_left(spec_dec_digits(self.year as nat), 4) + seq!['-']
                + crate::text::pad_left(spec_dec_digits(self.month as nat), 2) + seq!['-']
                + crate::text::pad_left(spec_dec_digits(self.day as nat), 2),
    {
        let mut out = u32_to_decimal(self.year, 4);
        out.append("-");
        let month = u32_to_decimal(self.month, 2);
        out.append(month.as_str());
        out.append("-");
        let day = u32_to_decimal(self.day, 2);
        out.append(day.as_str());
        proof {
            reveal_strlit("-");
            assert(out@ =~= crate::text::pad_left(spec_dec_digits(self.year as nat), 4)
                + seq!['-'] + crate::text::pad_left(spec_dec_digits(self.month as nat), 2)
                + seq!['-'] + crate::text::pad_left(spec_dec_digits(self.day as nat), 2));
        }
        out
    }
}

} // verus!
