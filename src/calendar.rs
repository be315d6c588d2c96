//! Proleptic Gregorian calendar dates and clock times.
//!
//! A `Date` is a valid calendar date held as year, month and day. Its model
//! is a `Ymd`, on which day numbers, weekdays and the successor and
//! predecessor of a day are defined.
use vstd::arithmetic::div_mod::{lemma_fundamental_div_mod, lemma_fundamental_div_mod_converse};
use chrono::{Datelike, Timelike};
use vstd::prelude::*;

verus! {

/// A date as mathematical integers.
pub struct Ymd {
    pub year: int,
    pub month: int,
    pub day: int,
}

pub open spec fn is_leap_year(year: int) -> bool {
    year % 4 == 0 && (year % 100 != 0 || year % 400 == 0)
}

pub open spec fn days_in_month(year: int, month: int) -> int {
    if month == 2 {
        if is_leap_year(year) {
            29
        } else {
            28
        }
    } else if month == 4 || month == 6 || month == 9 || month == 11 {
        30
    } else {
        31
    }
}

pub open spec fn days_in_year(year: int) -> int {
    if is_leap_year(year) {
        366
    } else {
        365
    }
}

/// Days of `year` that come before the first day of `month` (1 to 13).
pub open spec fn days_before_month(year: int, month: int) -> int {
    let leap: int = if is_leap_year(year) {
        1
    } else {
        0
    };
    if month <= 1 {
        0
    } else if month == 2 {
        31
    } else if month == 3 {
        59 + leap
    } else if month == 4 {
        90 + leap
    } else if month == 5 {
        120 + leap
    } else if month == 6 {
        151 + leap
    } else if month == 7 {
        181 + leap
    } else if month == 8 {
        212 + leap
    } else if month == 9 {
        243 + leap
    } else if month == 10 {
        273 + leap
    } else if month == 11 {
        304 + leap
    } else if month == 12 {
        334 + leap
    } else {
        365 + leap
    }
}

/// Days from 0000-01-01 to the first of January of `year`: 365 for each year
/// before it, and one more for each leap year among them.
#[verifier::opaque]
pub open spec fn days_before_year(year: int) -> int {
    365 * year + (year - 1) / 4 - (year - 1) / 100 + (year - 1) / 400 + 1
}

/// Place in the week of the day numbered `n`, from 0 for Monday to 6 for
/// Sunday (0001-01-01, day 366, was a Monday).
#[verifier::opaque]
pub open spec fn weekday(n: int) -> int {
    (n + 5) % 7
}

/// Number of the Monday that opens the week of the day numbered `n`.
pub open spec fn week_start(n: int) -> int {
    n - weekday(n)
}

impl Ymd {
    pub open spec fn wf(self) -> bool {
        1 <= self.month <= 12 && 1 <= self.day <= days_in_month(self.year, self.month)
    }

    /// Days since 0000-01-01.
    pub open spec fn day_number(self) -> int {
        days_before_year(self.year) + days_before_month(self.year, self.month) + self.day - 1
    }

    /// Months since January of year 0.
    pub open spec fn month_index(self) -> int {
        self.year * 12 + self.month - 1
    }

    /// Calendar order: by year, then month, then day.
    pub open spec fn on_or_before(self, other: Ymd) -> bool {
        self.year < other.year || (self.year == other.year && (self.month < other.month || (
        self.month == other.month && self.day <= other.day)))
    }

    pub open spec fn next(self) -> Ymd {
        if self.day < days_in_month(self.year, self.month) {
            Ymd { year: self.year, month: self.month, day: self.day + 1 }
        } else if self.month < 12 {
            Ymd { year: self.year, month: self.month + 1, day: 1 }
        } else {
            Ymd { year: self.year + 1, month: 1, day: 1 }
        }
    }

    pub open spec fn prev(self) -> Ymd {
        if self.day > 1 {
            Ymd { year: self.year, month: self.month, day: self.day - 1 }
        } else if self.month > 1 {
            Ymd {
                year: self.year,
                month: self.month - 1,
                day: days_in_month(self.year, self.month - 1),
            }
        } else {
            Ymd { year: self.year - 1, month: 12, day: 31 }
        }
    }
}

proof fn lemma_floor_step(x: int, n: int)
    requires
        n > 0,
    ensures
        x / n - (x - 1) / n == (if x % n == 0 {
            1int
        } else {
            0int
        }),
{
    lemma_fundamental_div_mod(x, n);
    let q = x / n;
    let r = x % n;
    assert(x - 1 == q * n + r - 1) by (nonlinear_arith)
        requires
            x == n * q + r,
    ;
    if r == 0 {
        assert(x - 1 == (q - 1) * n + (n - 1)) by (nonlinear_arith)
            requires
                x - 1 == q * n + r - 1,
                r == 0,
        ;
        lemma_fundamental_div_mod_converse(x - 1, n, q - 1, n - 1);
    } else {
        lemma_fundamental_div_mod_converse(x - 1, n, q, r - 1);
    }
}

/// The first of January of `year + 1` follows that of `year` by the length
/// of `year`.
pub proof fn lemma_days_before_year_step(year: int)
    ensures
        days_before_year(year + 1) == days_before_year(year) + days_in_year(year),
{
    reveal(days_before_year);
    lemma_floor_step(year, 4);
    lemma_floor_step(year, 100);
    lemma_floor_step(year, 400);
    lemma_fundamental_div_mod(year, 400);
    lemma_fundamental_div_mod(year, 100);
    if year % 400 == 0 {
        let q = year / 400;
        assert(year == (4 * q) * 100 + 0) by (nonlinear_arith)
            requires
                year == 400 * q + 0,
        ;
        lemma_fundamental_div_mod_converse(year, 100, 4 * q, 0);
    }
    if year % 100 == 0 {
        let q = year / 100;
        assert(year == (25 * q) * 4 + 0) by (nonlinear_arith)
            requires
                year == 100 * q + 0,
        ;
        lemma_fundamental_div_mod_converse(year, 4, 25 * q, 0);
    }
}

proof fn lemma_days_before_year_monotone(y1: int, y2: int)
    requires
        y1 <= y2,
    ensures
        days_before_year(y1) <= days_before_year(y2),
    decreases y2 - y1,
{
    if y1 < y2 {
        lemma_days_before_year_monotone(y1, y2 - 1);
        lemma_days_before_year_step(y2 - 1);
    }
}

/// A valid date of an earlier year has a smaller day number.
pub proof fn lemma_year_order(a: Ymd, b: Ymd)
    requires
        a.wf(),
        b.wf(),
        a.year < b.year,
    ensures
        a.day_number() < b.day_number(),
{
    lemma_days_before_year_step(a.year);
    lemma_days_before_year_monotone(a.year + 1, b.year);
}

/// A week starts on a Monday, within the six days before the day it holds.
pub proof fn lemma_week_start(n: int)
    ensures
        0 <= weekday(n) < 7,
        weekday(week_start(n)) == 0,
        week_start(n) <= n < week_start(n) + 7,
{
    reveal(weekday);
    lemma_fundamental_div_mod(n + 5, 7);
    let q = (n + 5) / 7;
    assert(week_start(n) + 5 == q * 7 + 0) by (nonlinear_arith)
        requires
            n + 5 == 7 * q + weekday(n),
            week_start(n) == n - weekday(n),
    ;
    lemma_fundamental_div_mod_converse(week_start(n) + 5, 7, q, 0);
}

/// A day seven days on falls on the same weekday.
pub proof fn lemma_weekday_shift(n: int)
    ensures
        weekday(n + 7) == weekday(n),
{
    reveal(weekday);
    lemma_fundamental_div_mod(n + 5, 7);
    let q = (n + 5) / 7;
    assert(n + 12 == (q + 1) * 7 + weekday(n)) by (nonlinear_arith)
        requires
            n + 5 == 7 * q + weekday(n),
    ;
    lemma_fundamental_div_mod_converse(n + 12, 7, q + 1, weekday(n));
}

/// The day after a valid date is valid and numbered one more.
pub proof fn lemma_next_day(d: Ymd)
    requires
        d.wf(),
    ensures
        d.next().wf(),
        d.next().day_number() == d.day_number() + 1,
        d.next().prev() == d,
{
    if d.day == days_in_month(d.year, d.month) && d.month == 12 {
        lemma_days_before_year_step(d.year);
    }
}

/// The day before a valid date is valid and numbered one less.
pub proof fn lemma_prev_day(d: Ymd)
    requires
        d.wf(),
    ensures
        d.prev().wf(),
        d.prev().day_number() == d.day_number() - 1,
        d.prev().next() == d,
{
    if d.day == 1 && d.month == 1 {
        lemma_days_before_year_step(d.year - 1);
    }
}

/// A valid calendar date.
#[derive(Clone, Copy, Debug, PartialEq, Eq, Structural)]
pub struct Date {
    year: i32,
    month: u32,
    day: u32,
}

impl View for Date {
    type V = Ymd;

    closed spec fn view(&self) -> Ymd {
        Ymd { year: self.year as int, month: self.month as int, day: self.day as int }
    }
}

/// Offset that makes every year of an `i32`, less one, non-negative; a
/// multiple of 400, so that it leaves the leap-year cycle in place.
const YEAR_SHIFT: u64 = 2_147_484_000;

fn is_leap(year: i32) -> (r: bool)
    ensures
        r == is_leap_year(year as int),
{
    let t: u64 = (year as i64 + YEAR_SHIFT as i64) as u64;
    proof {
        lemma_fundamental_div_mod(t as int, 4);
        lemma_fundamental_div_mod(t as int, 100);
        lemma_fundamental_div_mod(t as int, 400);
        lemma_fundamental_div_mod_converse(year as int, 4, (t / 4) as int - 536_871_000, (t % 4) as int);
        lemma_fundamental_div_mod_converse(year as int, 100, (t / 100) as int - 21_474_840, (t % 100) as int);
        lemma_fundamental_div_mod_converse(year as int, 400, (t / 400) as int - 5_368_710, (t % 400) as int);
    }
    t % 4 == 0 && (t % 100 != 0 || t % 400 == 0)
}

/// Number of days in `month` of `year`.
pub fn month_length(year: i32, month: u32) -> (r: u32)
    ensures
        r == days_in_month(year as int, month as int),
{
    if month == 2 {
        if is_leap(year) {
            29
        } else {
            28
        }
    } else if month == 4 || month == 6 || month == 9 || month == 11 {
        30
    } else {
        31
    }
}

fn month_offset(year: i32, month: u32) -> (r: i64)
    requires
        1 <= month <= 12,
    ensures
        r == days_before_month(year as int, month as int),
{
    let leap: i64 = if is_leap(year) {
        1
    } else {
        0
    };
    if month == 1 {
        0
    } else if month == 2 {
        31
    } else if month == 3 {
        59 + leap
    } else if month == 4 {
        90 + leap
    } else if month == 5 {
        120 + leap
    } else if month == 6 {
        151 + leap
    } else if month == 7 {
        181 + leap
    } else if month == 8 {
        212 + leap
    } else if month == 9 {
        243 + leap
    } else if month == 10 {
        273 + leap
    } else if month == 11 {
        304 + leap
    } else {
        334 + leap
    }
}

fn year_offset(year: i32) -> (r: i64)
    ensures
        r == days_before_year(year as int),
        -790_000_000_000 < r < 790_000_000_000,
{
    // (year - 1) + YEAR_SHIFT, never negative
    let t: u64 = (year as i64 - 1 + YEAR_SHIFT as i64) as u64;
    proof {
        reveal(days_before_year);
        let y = year as int - 1;
        lemma_fundamental_div_mod(t as int, 4);
        lemma_fundamental_div_mod(t as int, 100);
        lemma_fundamental_div_mod(t as int, 400);
        lemma_fundamental_div_mod_converse(y, 4, (t / 4) as int - 536_871_000, (t % 4) as int);
        lemma_fundamental_div_mod_converse(y, 100, (t / 100) as int - 21_474_840, (t % 100) as int);
        lemma_fundamental_div_mod_converse(y, 400, (t / 400) as int - 5_368_710, (t % 400) as int);
    }
    let q4: i64 = (t / 4) as i64 - 536_871_000;
    let q100: i64 = (t / 100) as i64 - 21_474_840;
    let q400: i64 = (t / 400) as i64 - 5_368_710;
    365 * (year as i64) + q4 - q100 + q400 + 1
}

impl Date {
    #[verifier::type_invariant]
    pub open spec fn inv(&self) -> bool {
        self@.wf()
    }

    /// The date with these year, month and day, if there is one.
    pub fn from_ymd_opt(year: i32, month: u32, day: u32) -> (r: Option<Date>)
        ensures
            r is Some <==> (Ymd { year: year as int, month: month as int, day: day as int }).wf(),
            r matches Some(d) ==> d@ == (Ymd { year: year as int, month: month as int, day: day as int }),
    {
        if 1 <= month && month <= 12 && 1 <= day && day <= month_length(year, month) {
            Some(Date { year, month, day })
        } else {
            None
        }
    }

    pub fn year(&self) -> (r: i32)
        ensures
            r as int == self@.year,
    {
        self.year
    }

    pub fn month(&self) -> (r: u32)
        ensures
            r as int == self@.month,
            1 <= r <= 12,
    {
        proof {
            use_type_invariant(self);
        }
        self.month
    }

    pub fn day(&self) -> (r: u32)
        ensures
            r as int == self@.day,
            1 <= r <= days_in_month(self@.year, self@.month),
    {
        proof {
            use_type_invariant(self);
        }
        self.day
    }

    /// Days since 0000-01-01.
    pub fn day_number(&self) -> (r: i64)
        ensures
            r == self@.day_number(),
            -800_000_000_000 < r < 800_000_000_000,
    {
        proof {
            use_type_invariant(self);
        }
        year_offset(self.year) + month_offset(self.year, self.month) + self.day as i64 - 1
    }

    /// Months since January of year 0.
    pub fn month_index(&self) -> (r: i64)
        ensures
            r == self@.month_index(),
    {
        self.year as i64 * 12 + self.month as i64 - 1
    }

    /// Place in the week, from 0 for Monday to 6 for Sunday.
    pub fn weekday_from_monday(&self) -> (r: u32)
        ensures
            r == weekday(self@.day_number()),
            r < 7,
    {
        let n = self.day_number();
        // day numbers of i32 years stay well above -7 * 200_000_000_000
        let t: u64 = (n + 5 + 1_400_000_000_000) as u64;
        proof {
            reveal(weekday);
            lemma_fundamental_div_mod(t as int, 7);
            lemma_fundamental_div_mod_converse(
                n + 5,
                7,
                (t / 7) as int - 200_000_000_000,
                (t % 7) as int,
            );
        }
        (t % 7) as u32
    }

    pub fn on_or_before(&self, other: &Date) -> (r: bool)
        ensures
            r == self@.on_or_before(other@),
    {
        self.year < other.year || (self.year == other.year && (self.month < other.month || (
        self.month == other.month && self.day <= other.day)))
    }

    /// The first day of this date's month.
    pub fn first_of_month(&self) -> (r: Date)
        ensures
            r@ == (Ymd { year: self@.year, month: self@.month, day: 1 }),
    {
        proof {
            use_type_invariant(self);
        }
        Date { year: self.year, month: self.month, day: 1 }
    }

    /// The last day of this date's month.
    pub fn last_of_month(&self) -> (r: Date)
        ensures
            r@ == (Ymd {
                year: self@.year,
                month: self@.month,
                day: days_in_month(self@.year, self@.month),
            }),
    {
        proof {
            use_type_invariant(self);
        }
        Date { year: self.year, month: self.month, day: month_length(self.year, self.month) }
    }

    /// The first of January of this date's year.
    pub fn first_of_year(&self) -> (r: Date)
        ensures
            r@ == (Ymd { year: self@.year, month: 1, day: 1 }),
    {
        Date { year: self.year, month: 1, day: 1 }
    }

    /// The last of December of this date's year.
    pub fn last_of_year(&self) -> (r: Date)
        ensures
            r@ == (Ymd { year: self@.year, month: 12, day: 31 }),
    {
        Date { year: self.year, month: 12, day: 31 }
    }

    /// The following day.
    pub fn next_day(&self) -> (r: Date)
        requires
            self@.year < i32::MAX || self@.month < 12 || self@.day < 31,
        ensures
            r@ == self@.next(),
            r@.day_number() == self@.day_number() + 1,
    {
        proof {
            use_type_invariant(self);
            lemma_next_day(self@);
        }
        let len = month_length(self.year, self.month);
        if self.day < len {
            Date { year: self.year, month: self.month, day: self.day + 1 }
        } else if self.month < 12 {
            Date { year: self.year, month: self.month + 1, day: 1 }
        } else {
            Date { year: self.year + 1, month: 1, day: 1 }
        }
    }

    /// The preceding day.
    pub fn prev_day(&self) -> (r: Date)
        requires
            self@.year > i32::MIN || self@.month > 1 || self@.day > 1,
        ensures
            r@ == self@.prev(),
            r@.day_number() == self@.day_number() - 1,
    {
        proof {
            use_type_invariant(self);
            lemma_prev_day(self@);
        }
        if self.day > 1 {
            Date { year: self.year, month: self.month, day: self.day - 1 }
        } else if self.month > 1 {
            Date {
                year: self.year,
                month: self.month - 1,
                day: month_length(self.year, self.month - 1),
            }
        } else {
            Date { year: self.year - 1, month: 12, day: 31 }
        }
    }
}

/// The year, month and day that chrono reads from `s` by the pattern
/// `fmt`, or `None` where it reads no date.
pub uninterp spec fn parsed_date(s: Seq<char>, fmt: Seq<char>) -> Option<(i32, u32, u32)>;

/// Relies on chrono's `NaiveDate::parse_from_str`: what it reads depends on
/// the text and the pattern alone, and a date it returns is a valid
/// calendar date.
#[verifier::external_body]
fn chrono_parse_date(s: &str, fmt: &str) -> (r: Option<(i32, u32, u32)>)
    ensures
        r == parsed_date(s@, fmt@),
        r matches Some((y, m, d)) ==> (Ymd { year: y as int, month: m as int, day: d as int }).wf(),
{
    match chrono::NaiveDate::parse_from_str(s, fmt) {
        Ok(d) => Some((d.year(), d.month(), d.day())),
        Err(_) => None,
    }
}

impl Date {
    /// The date that `s` writes as year-month-day, such as "2021-01-05".
    pub fn parse_iso(s: &str) -> (r: Option<Date>)
        ensures
            r is Some <==> parsed_date(s@, "%Y-%m-%d"@) is Some,
            r matches Some(d) ==> parsed_date(s@, "%Y-%m-%d"@) == Some(
                (d@.year as i32, d@.month as u32, d@.day as u32),
            ),
    {
        match chrono_parse_date(s, "%Y-%m-%d") {
            Some((y, m, d)) => Date::from_ymd_opt(y, m, d),
            None => None,
        }
    }

    /// The date that `s` writes as month/day/two-digit year, such as
    /// "01/05/21".
    pub fn parse_mdy(s: &str) -> (r: Option<Date>)
        ensures
            r is Some <==> parsed_date(s@, "%m/%d/%y"@) is Some,
            r matches Some(d) ==> parsed_date(s@, "%m/%d/%y"@) == Some(
                (d@.year as i32, d@.month as u32, d@.day as u32),
            ),
    {
        match chrono_parse_date(s, "%m/%d/%y") {
            Some((y, m, d)) => Date::from_ymd_opt(y, m, d),
            None => None,
        }
    }
}

/// The hour and minute that chrono reads from `s` by the pattern `fmt`, or
/// `None` where it reads no time.
pub uninterp spec fn parsed_time(s: Seq<char>, fmt: Seq<char>) -> Option<(u32, u32)>;

/// Relies on chrono's `NaiveTime::parse_from_str`: what it reads depends on
/// the text and the pattern alone; a time it returns has an hour from 0 to
/// 23 and a minute from 0 to 59.
#[verifier::external_body]
fn chrono_parse_time(s: &str, fmt: &str) -> (r: Option<(u32, u32)>)
    ensures
        r == parsed_time(s@, fmt@),
        r matches Some((h, m)) ==> h < 24 && m < 60,
{
    match chrono::NaiveTime::parse_from_str(s, fmt) {
        Ok(t) => Some((t.hour(), t.minute())),
        Err(_) => None,
    }
}

/// A time of day, to the second, with no date attached.
#[derive(Clone, Copy, Debug, PartialEq, Eq, Structural)]
pub struct Time {
    secs: u32,
}

impl View for Time {
    /// Seconds since midnight.
    type V = int;

    closed spec fn view(&self) -> int {
        self.secs as int
    }
}

impl Time {
    #[verifier::type_invariant]
    pub open spec fn inv(&self) -> bool {
        0 <= self@ < 86400
    }

    /// The time `hour:minute:second`, if each part is in range.
    pub fn from_hms_opt(hour: u32, minute: u32, second: u32) -> (r: Option<Time>)
        ensures
            r is Some <==> hour < 24 && minute < 60 && second < 60,
            r matches Some(t) ==> t@ == hour * 3600 + minute * 60 + second,
    {
        if hour < 24 && minute < 60 && second < 60 {
            Some(Time { secs: hour * 3600 + minute * 60 + second })
        } else {
            None
        }
    }

    /// Seconds since midnight.
    pub fn seconds_from_midnight(&self) -> (r: u32)
        ensures
            r == self@,
            r < 86400,
    {
        proof {
            use_type_invariant(self);
        }
        self.secs
    }

    pub fn hour(&self) -> (r: u32)
        ensures
            r == self@ / 3600,
    {
        self.secs / 3600
    }

    pub fn minute(&self) -> (r: u32)
        ensures
            r == self@ % 3600 / 60,
    {
        self.secs % 3600 / 60
    }

    pub fn second(&self) -> (r: u32)
        ensures
            r == self@ % 60,
    {
        self.secs % 60
    }

    /// The time that `s` writes as four digits of hour and minute, such as
    /// "0930".
    pub fn parse_hhmm(s: &str) -> (r: Option<Time>)
        ensures
            r is Some <==> parsed_time(s@, "%H%M"@) is Some,
            r matches Some(t) ==> parsed_time(s@, "%H%M"@) matches Some((h, m)) && t@ == h * 3600
                + m * 60,
    {
        match chrono_parse_time(s, "%H%M") {
            Some((h, m)) => Time::from_hms_opt(h, m, 0),
            None => None,
        }
    }

    pub fn is_before(&self, other: &Time) -> (r: bool)
        ensures
            r == (self@ < other@),
    {
        self.secs < other.secs
    }
}

} // verus!
