//! Calendar dates in the proleptic Gregorian calendar, years 1 to 9999.
//!
//! A date is modelled by its day number: the count of days since the
//! first supported day (year 1, January 1st — a Monday). Day numbers
//! order dates, measure distances, and anchor the Monday-based week
//! used for grouping.

use vstd::prelude::*;

use crate::text::{dec_pad, fmt_pad2, fmt_pad4};

verus! {

/// A calendar date, day precision, no time of day.
#[derive(Debug, Clone, Copy, PartialEq, Eq, Hash, Structural)]
pub struct Date {
    pub year: u16,
    pub month: u8,
    pub day: u8,
}

/// Gregorian leap-year rule.
pub open spec fn is_leap_year(y: int) -> bool {
    y % 4 == 0 && (y % 100 != 0 || y % 400 == 0)
}

/// Days in year `y`.
pub open spec fn days_in_year(y: int) -> int {
    if is_leap_year(y) {
        366
    } else {
        365
    }
}

/// Days in month `m` of year `y`.
pub open spec fn days_in_month(y: int, m: int) -> int {
    if m == 2 {
        if is_leap_year(y) {
            29
        } else {
            28
        }
    } else if m == 4 || m == 6 || m == 9 || m == 11 {
        30
    } else {
        31
    }
}

/// Days of year `y` that precede month `m`.
pub open spec fn days_before_month(y: int, m: int) -> int
    decreases m,
{
    if m <= 1 {
        0
    } else {
        days_before_month(y, m - 1) + days_in_month(y, m - 1)
    }
}

/// Days that precede January 1st of year `y`, counted from year 1.
pub open spec fn days_before_year(y: int) -> int
    decreases y,
{
    if y <= 1 {
        0
    } else {
        days_before_year(y - 1) + days_in_year(y - 1)
    }
}

impl Date {
    /// Calendar validity: the supported year span, a real month, and a
    /// day that exists in that month.
    pub open spec fn wf(&self) -> bool {
        &&& 1 <= self.year <= 9999
        &&& 1 <= self.month <= 12
        &&& 1 <= self.day <= days_in_month(self.year as int, self.month as int)
    }

    /// Days since year 1, January 1st.
    pub open spec fn day_number(&self) -> int {
        days_before_year(self.year as int) + days_before_month(
            self.year as int,
            self.month as int,
        ) + self.day - 1
    }
}

/// The running month lengths of a year, written out.
pub proof fn lemma_month_sums(y: int)
    ensures
        days_before_month(y, 1) == 0,
        days_before_month(y, 2) == 31,
        days_before_month(y, 3) == 31 + days_in_month(y, 2),
        days_before_month(y, 4) == 62 + days_in_month(y, 2),
        days_before_month(y, 5) == 92 + days_in_month(y, 2),
        days_before_month(y, 6) == 123 + days_in_month(y, 2),
        days_before_month(y, 7) == 153 + days_in_month(y, 2),
        days_before_month(y, 8) == 184 + days_in_month(y, 2),
        days_before_month(y, 9) == 215 + days_in_month(y, 2),
        days_before_month(y, 10) == 245 + days_in_month(y, 2),
        days_before_month(y, 11) == 276 + days_in_month(y, 2),
        days_before_month(y, 12) == 306 + days_in_month(y, 2),
        days_before_month(y, 12) + days_in_month(y, 12) == days_in_year(y),
{
    assert(days_before_month(y, 1) == 0);
    assert(days_before_month(y, 2) == 31);
    assert(days_before_month(y, 3) == 31 + days_in_month(y, 2));
    assert(days_before_month(y, 4) == 62 + days_in_month(y, 2));
    assert(days_before_month(y, 5) == 92 + days_in_month(y, 2));
    assert(days_before_month(y, 6) == 123 + days_in_month(y, 2));
    assert(days_before_month(y, 7) == 153 + days_in_month(y, 2));
    assert(days_before_month(y, 8) == 184 + days_in_month(y, 2));
    assert(days_before_month(y, 9) == 215 + days_in_month(y, 2));
    assert(days_before_month(y, 10) == 245 + days_in_month(y, 2));
    assert(days_before_month(y, 11) == 276 + days_in_month(y, 2));
    assert(days_before_month(y, 12) == 306 + days_in_month(y, 2));
}

/// Day counts before a year grow with the year.
pub proof fn lemma_days_before_year_monotone(y1: int, y2: int)
    requires
        y1 <= y2,
    ensures
        days_before_year(y1) <= days_before_year(y2),
    decreases y2 - y1,
{
    if y1 < y2 {
        lemma_days_before_year_monotone(y1, y2 - 1);
    }
}

/// Day counts before a year are non-negative.
pub proof fn lemma_days_before_year_nonneg(y: int)
    ensures
        days_before_year(y) >= 0,
    decreases y,
{
    if y > 1 {
        lemma_days_before_year_nonneg(y - 1);
    }
}

/// A valid date's day number lies within its year's span of days.
pub proof fn lemma_year_span(d: Date)
    requires
        d.wf(),
    ensures
        days_before_year(d.year as int) <= d.day_number(),
        d.day_number() < days_before_year(d.year as int + 1),
        d.day_number() >= 0,
{
    let y = d.year as int;
    let m = d.month as int;
    lemma_month_sums(y);
    assert(days_before_year(y + 1) == days_before_year(y) + days_in_year(y));
    lemma_days_before_year_nonneg(y);
}

/// Whether the three components name a real calendar day in the
/// supported span.
pub open spec fn valid_ymd(y: int, m: int, d: int) -> bool {
    1 <= y <= 9999 && 1 <= m <= 12 && 1 <= d <= days_in_month(y, m)
}

impl Date {
    /// Builds the date when the three components name a real calendar
    /// day in the supported span, and reports failure otherwise.
    pub fn from_ymd(year: u64, month: u64, day: u64) -> (r: Option<Date>)
        ensures
            r matches Some(d) ==> d.wf() && d.year == year && d.month == month && d.day == day,
            r is Some <==> valid_ymd(year as int, month as int, day as int),
    {
        if !(1 <= year && year <= 9999 && 1 <= month && month <= 12) {
            return None;
        }
        let y = year as u16;
        let m = month as u8;
        let dim = Self::days_in_month_x(y, m);
        if 1 <= day && day <= dim as u64 {
            Some(Date { year: y, month: m, day: day as u8 })
        } else {
            None
        }
    }

    /// Whether year `y` is a leap year.
    pub fn leap_year(y: u16) -> (r: bool)
        ensures
            r == is_leap_year(y as int),
    {
        y % 4 == 0 && (y % 100 != 0 || y % 400 == 0)
    }

    /// The number of days in month `m` of year `y`.
    pub fn days_in_month_x(y: u16, m: u8) -> (r: u8)
        requires
            1 <= m <= 12,
        ensures
            r == days_in_month(y as int, m as int),
    {
        if m == 2 {
            if Self::leap_year(y) {
                29
            } else {
                28
            }
        } else if m == 4 || m == 6 || m == 9 || m == 11 {
            30
        } else {
            31
        }
    }

    /// Computes the day number by summing whole years, then whole
    /// months, then the days into the month.
    pub fn to_days(&self) -> (r: u64)
        requires
            self.wf(),
        ensures
            r == self.day_number(),
    {
        let mut acc: u64 = 0;
        let mut i: u16 = 1;
        while i < self.year
            invariant
                1 <= i <= self.year,
                acc == days_before_year(i as int),
                acc <= 366 * (i as int - 1),
            decreases self.year - i,
        {
            let len: u64 = if Self::leap_year(i) {
                366
            } else {
                365
            };
            acc = acc + len;
            i = i + 1;
        }
        let mut m: u8 = 1;
        while m < self.month
            invariant
                1 <= m <= self.month <= 12,
                self.wf(),
                acc == days_before_year(self.year as int) + days_before_month(
                    self.year as int,
                    m as int,
                ),
                acc <= 366 * 9999 + 31 * (m as int - 1),
            decreases self.month - m,
        {
            acc = acc + Self::days_in_month_x(self.year, m) as u64;
            m = m + 1;
        }
        acc + (self.day - 1) as u64
    }

    /// Date order is day-number order.
    pub fn le(&self, other: &Date) -> (r: bool)
        requires
            self.wf(),
            other.wf(),
        ensures
            r == (self.day_number() <= other.day_number()),
    {
        self.to_days() <= other.to_days()
    }

    /// The day before this one.
    pub fn prev_day(&self) -> (r: Date)
        requires
            self.wf(),
            self.day_number() >= 1,
        ensures
            r.wf(),
            r.day_number() == self.day_number() - 1,
    {
        let ghost y = self.year as int;
        if self.day > 1 {
            Date { year: self.year, month: self.month, day: self.day - 1 }
        } else if self.month > 1 {
            proof {
                lemma_month_sums(y);
            }
            let dim = Self::days_in_month_x(self.year, self.month - 1);
            Date { year: self.year, month: self.month - 1, day: dim }
        } else {
            proof {
                lemma_days_before_year_nonneg(y - 1);
                lemma_month_sums(y - 1);
                assert(self.year >= 2);
            }
            Date { year: self.year - 1, month: 12, day: 31 }
        }
    }

    /// Days since the Monday of this date's week: 0 for Monday up to 6
    /// for Sunday. Year 1, January 1st is a Monday.
    pub fn weekday(&self) -> (r: u8)
        requires
            self.wf(),
        ensures
            r == self.day_number() % 7,
    {
        (self.to_days() % 7) as u8
    }

    /// The Monday on or before this date: the anchor of its week.
    pub fn week_start(&self) -> (r: Date)
        requires
            self.wf(),
        ensures
            r.wf(),
            r.day_number() == self.day_number() - self.day_number() % 7,
            r.day_number() % 7 == 0,
    {
        proof {
            lemma_year_span(*self);
        }
        let wd = self.weekday();
        let mut d: Date = *self;
        let mut k: u8 = 0;
        while k < wd
            invariant
                self.wf(),
                d.wf(),
                k <= wd,
                wd == self.day_number() % 7,
                d.day_number() == self.day_number() - k,
                self.day_number() >= 0,
            decreases wd - k,
        {
            d = d.prev_day();
            k = k + 1;
        }
        d
    }

    /// The first day of the month of `d`.
    pub open spec fn month_first(d: Date) -> Date {
        Date { year: d.year, month: d.month, day: 1 }
    }

    /// The first day of this date's month.
    pub fn month_start(&self) -> (r: Date)
        requires
            self.wf(),
        ensures
            r == Self::month_first(*self),
            r.wf(),
            r.day_number() == self.day_number() - (self.day - 1),
    {
        Date { year: self.year, month: self.month, day: 1 }
    }
}

/// The canonical text of a date: `YYYY-MM-DD`, each part zero-padded.
pub open spec fn spec_format_date(d: Date) -> Seq<char> {
    dec_pad(d.year as int, 4) + seq!['-'] + dec_pad(d.month as int, 2) + seq!['-'] + dec_pad(
        d.day as int,
        2,
    )
}

impl Date {
    /// Writes the date as `YYYY-MM-DD`.
    pub fn format(&self) -> (r: String)
        requires
            self.wf(),
        ensures
            r@ == spec_format_date(*self),
    {
        proof {
            reveal_strlit("-");
        }
        let mut s = fmt_pad4(self.year as u64);
        s.append("-");
        let m = fmt_pad2(self.month as u64);
        s.append(m.as_str());
        s.append("-");
        let d = fmt_pad2(self.day as u64);
        s.append(d.as_str());
        assert(s@ =~= spec_format_date(*self));
        s
    }
}

/// Anchors of earlier dates are not later: taking the Monday of the
/// week keeps chronological order.
pub proof fn lemma_week_anchor_monotone(a: int, b: int)
    requires
        0 <= a <= b,
    ensures
        a - a % 7 <= b - b % 7,
{
    vstd::arithmetic::div_mod::lemma_div_is_ordered(a, b, 7);
    assert(a - a % 7 == 7 * (a / 7)) by {
        vstd::arithmetic::div_mod::lemma_fundamental_div_mod(a, 7);
    }
    assert(b - b % 7 == 7 * (b / 7)) by {
        vstd::arithmetic::div_mod::lemma_fundamental_div_mod(b, 7);
    }
}

/// Taking the first day of the month keeps chronological order.
pub proof fn lemma_month_start_monotone(a: Date, b: Date)
    requires
        a.wf(),
        b.wf(),
        a.day_number() <= b.day_number(),
    ensures
        Date::month_first(a).day_number() <= Date::month_first(b).day_number(),
{
    let ya = a.year as int;
    let yb = b.year as int;
    lemma_month_sums(ya);
    lemma_month_sums(yb);
    lemma_year_span(a);
    lemma_year_span(b);
    if ya < yb {
        lemma_days_before_year_monotone(ya + 1, yb);
        lemma_days_before_year_nonneg(ya);
    } else if ya > yb {
        lemma_days_before_year_monotone(yb + 1, ya);
        assert(false);
    }
}

} // verus!
