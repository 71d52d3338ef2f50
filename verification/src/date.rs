//! Calendar dates of the proleptic Gregorian calendar: day numbers, order, arithmetic and text.

use chrono::{Datelike, NaiveDate, TimeDelta};
use vstd::prelude::*;

use crate::text;

verus! {

// ---------------------------------------------------------------- the calendar

/// The years that dates reach.
pub const FIRST_YEAR: i32 = -262143;

pub const LAST_YEAR: i32 = 262142;

pub open spec fn leap(year: int) -> bool {
    year % 4 == 0 && (year % 100 != 0 || year % 400 == 0)
}

/// How many days a month has.
pub open spec fn month_len(year: int, month: int) -> int {
    if month == 2 {
        if leap(year) {
            29
        } else {
            28
        }
    } else if month == 4 || month == 6 || month == 9 || month == 11 {
        30
    } else {
        31
    }
}

/// How many days of `year` lie before the first of `month`.
pub open spec fn days_before_month(year: int, month: int) -> int
    decreases month,
{
    if month <= 1 {
        0
    } else {
        days_before_month(year, month - 1) + month_len(year, month - 1)
    }
}

/// How many days lie between the first of January of year 1 and that of `year`.
pub open spec fn days_before_year(year: int) -> int {
    365 * (year - 1) + (year - 1) / 4 - (year - 1) / 100 + (year - 1) / 400
}

/// The number of a day, counted from the first of January of year 1, which is day 1.
pub open spec fn number(year: int, month: int, day: int) -> int {
    days_before_year(year) + days_before_month(year, month) + day
}

/// Whether a year, a month and a day make a date.
pub open spec fn valid(year: int, month: int, day: int) -> bool {
    &&& FIRST_YEAR <= year <= LAST_YEAR
    &&& 1 <= month <= 12
    &&& 1 <= day <= month_len(year, month)
}

/// The numbers of the first and of the last day there is.
pub open spec fn first_number() -> int {
    number(FIRST_YEAR as int, 1, 1)
}

pub open spec fn last_number() -> int {
    number(LAST_YEAR as int, 12, 31)
}

/// A calendar date.
#[derive(Clone, Copy, Debug, PartialEq, Eq, Structural)]
pub struct Date {
    pub year: i32,
    pub month: u32,
    pub day: u32,
}

impl Date {
    /// The date exists.
    pub open spec fn wf(self) -> bool {
        valid(self.year as int, self.month as int, self.day as int)
    }

    /// The number of the day.
    pub open spec fn number(self) -> int {
        number(self.year as int, self.month as int, self.day as int)
    }

    /// The year and the month as one number that grows by one from month to month.
    pub open spec fn month_number(self) -> int {
        self.year * 12 + self.month - 1
    }
}

/// `span` is a pair of dates.
pub open spec fn span_wf(span: Option<(Date, Date)>) -> bool {
    match span {
        Some(s) => s.0.wf() && s.1.wf(),
        None => true,
    }
}

// ---------------------------------------------------------------- facts about the calendar

/// One step further, a quotient grows by one where the divisor divides.
proof fn lemma_next_quotient(n: int)
    ensures
        n / 4 - (n - 1) / 4 == if n % 4 == 0 { 1int } else { 0 },
        n / 100 - (n - 1) / 100 == if n % 100 == 0 { 1int } else { 0 },
        n / 400 - (n - 1) / 400 == if n % 400 == 0 { 1int } else { 0 },
{
}

#[verifier::spinoff_prover]
proof fn lemma_year_len(year: int)
    ensures
        days_before_year(year + 1) - days_before_year(year) == if leap(year) {
            366int
        } else {
            365
        },
{
    lemma_next_quotient(year);
    assert(year % 400 == 0 ==> year % 100 == 0);
    assert(year % 100 == 0 ==> year % 4 == 0);
}

proof fn lemma_years_apart(a: int, b: int)
    requires
        a <= b,
    ensures
        days_before_year(b) - days_before_year(a) >= 365 * (b - a),
    decreases b - a,
{
    if a < b {
        lemma_years_apart(a, b - 1);
        lemma_year_len(b - 1);
    }
}

proof fn lemma_months_apart(year: int, a: int, b: int)
    requires
        1 <= a < b <= 13,
    ensures
        days_before_month(year, a) + month_len(year, a) <= days_before_month(year, b),
        days_before_month(year, a) >= 0,
    decreases b - a,
{
    if a + 1 < b {
        lemma_months_apart(year, a, b - 1);
    }
    lemma_before_month_nonneg(year, a);
}

proof fn lemma_before_month_nonneg(year: int, a: int)
    ensures
        days_before_month(year, a) >= 0,
    decreases a,
{
    if a > 1 {
        lemma_before_month_nonneg(year, a - 1);
    }
}

proof fn lemma_whole_year(year: int)
    ensures
        days_before_month(year, 13) == if leap(year) {
            366int
        } else {
            365
        },
{
    reveal_with_fuel(days_before_month, 14);
}

/// A later year means a larger number.
proof fn lemma_year_order(a: Date, b: Date)
    requires
        a.wf(),
        b.wf(),
        a.year < b.year,
    ensures
        a.number() < b.number(),
{
    lemma_whole_year(a.year as int);
    lemma_months_apart(a.year as int, a.month as int, 13);
    lemma_before_month_nonneg(b.year as int, b.month as int);
    lemma_year_len(a.year as int);
    lemma_years_apart(a.year + 1, b.year as int);
}

/// The day numbers of dates are ordered as their years, months and days are.
pub proof fn lemma_order(a: Date, b: Date)
    requires
        a.wf(),
        b.wf(),
    ensures
        a.number() < b.number() <==> (a.year < b.year || (a.year == b.year && (a.month < b.month
            || (a.month == b.month && a.day < b.day)))),
        a.number() == b.number() <==> a == b,
{
    if a.year < b.year {
        lemma_year_order(a, b);
    } else if b.year < a.year {
        lemma_year_order(b, a);
    } else if a.month < b.month {
        lemma_months_apart(a.year as int, a.month as int, b.month as int);
    } else if b.month < a.month {
        lemma_months_apart(a.year as int, b.month as int, a.month as int);
    }
}

/// A day number belongs to at most one date.
pub proof fn lemma_number_injective(a: Date, b: Date)
    requires
        a.wf(),
        b.wf(),
        a.number() == b.number(),
    ensures
        a == b,
{
    lemma_order(a, b);
}

/// Every date lies between the first and the last one.
pub proof fn lemma_number_range(d: Date)
    requires
        d.wf(),
    ensures
        first_number() <= d.number() <= last_number(),
        -95_746_129 <= d.number() <= 95_745_399,
{
    lemma_order(d, Date { year: FIRST_YEAR, month: 1, day: 1 });
    lemma_order(d, Date { year: LAST_YEAR, month: 12, day: 31 });
    reveal_with_fuel(days_before_month, 14);
}

/// The day after `d`, by the calendar's rules.
pub open spec fn day_after(d: Date) -> Date {
    if d.day < month_len(d.year as int, d.month as int) {
        Date { day: (d.day + 1) as u32, ..d }
    } else if d.month < 12 {
        Date { year: d.year, month: (d.month + 1) as u32, day: 1 }
    } else {
        Date { year: (d.year + 1) as i32, month: 1, day: 1 }
    }
}

/// The day after has the next number.
pub proof fn lemma_day_after(d: Date)
    requires
        d.wf(),
        d.number() < last_number(),
    ensures
        day_after(d).wf(),
        day_after(d).number() == d.number() + 1,
{
    if d.day < month_len(d.year as int, d.month as int) {
    } else if d.month < 12 {
    } else {
        lemma_whole_year(d.year as int);
        lemma_year_len(d.year as int);
        reveal_with_fuel(days_before_month, 2);
        if d.year == LAST_YEAR {
            assert(d.number() == last_number());
        }
    }
}

/// Every number between those of two dates is the number of a date.
pub proof fn lemma_numbers_between(from: Date, to: Date, n: int)
    requires
        from.wf(),
        to.wf(),
        from.number() <= n <= to.number(),
    ensures
        numbered(n).wf(),
        numbered(n).number() == n,
    decreases n - from.number(),
{
    if n == from.number() {
        assert(from.wf() && from.number() == n);
    } else {
        lemma_number_range(to);
        lemma_numbers_between(from, to, n - 1);
        let d = numbered(n - 1);
        lemma_day_after(d);
        assert(day_after(d).wf() && day_after(d).number() == n);
    }
}

// ---------------------------------------------------------------- what chrono computes

/// `NaiveDate::from_ymd_opt` makes a date of a year, a month and a day, and refuses exactly the
/// triples that are no date of the calendar or lie outside chrono's years.
#[verifier::external_body]
fn from_ymd(year: i32, month: u32, day: u32) -> (r: Option<Date>)
    ensures
        match r {
            Some(d) => valid(year as int, month as int, day as int) && d == (Date {
                year,
                month,
                day,
            }),
            None => !valid(year as int, month as int, day as int),
        },
{
    NaiveDate::from_ymd_opt(year, month, day)
        .map(|d| Date { year: d.year(), month: d.month(), day: d.day() })
}

/// `NaiveDate::checked_add_signed` moves a date by whole days, and fails exactly where the day
/// that it would reach lies outside chrono's years.
#[verifier::external_body]
fn add_days(date: Date, days: i64) -> (r: Option<Date>)
    requires
        date.wf(),
    ensures
        match r {
            Some(d) => d.wf() && d.number() == date.number() + days,
            None => !(first_number() <= date.number() + days <= last_number()),
        },
{
    NaiveDate::from_ymd_opt(date.year, date.month, date.day)?
        .checked_add_signed(TimeDelta::try_days(days)?)
        .map(|d| Date { year: d.year(), month: d.month(), day: d.day() })
}

/// `Datelike::weekday` with `Weekday::num_days_from_sunday`: day 1 was a Monday, so the count from
/// Sunday is the day's number modulo seven.
#[verifier::external_body]
fn days_from_sunday(date: Date) -> (r: u32)
    requires
        date.wf(),
    ensures
        r == date.number() % 7,
{
    NaiveDate::from_ymd_opt(date.year, date.month, date.day)
        .map_or(0, |d| d.weekday().num_days_from_sunday())
}

/// The year, the month and the day that chrono reads in a text by the format `%Y-%m-%d`.
pub uninterp spec fn ymd_of(text: Seq<char>) -> Option<(i32, u32, u32)>;

/// `NaiveDate::parse_from_str` with the format `%Y-%m-%d`. What texts it takes is chrono's
/// grammar and is not spelled out here; what it returns is a date, and a date of the years from 0
/// to 9999 that is written out in full reads as itself.
#[verifier::external_body]
fn parse_ymd(text: &str) -> (r: Option<Date>)
    ensures
        match r {
            Some(d) => d.wf() && ymd_of(text@) == Some((d.year, d.month, d.day)),
            None => ymd_of(text@) is None,
        },
        forall|d: Date|
            d.wf() && 0 <= d.year <= 9999 && text@ == #[trigger] date_text(d) ==> r == Some(d),
{
    NaiveDate::parse_from_str(text, "%Y-%m-%d")
        .ok()
        .map(|d| Date { year: d.year(), month: d.month(), day: d.day() })
}

/// The instant that chrono reads in a text as RFC 3339: the seconds since the first of January
/// 1970 in UTC, and the nanoseconds beyond them, which run on past a second in a leap second.
pub uninterp spec fn instant_of(text: Seq<char>) -> Option<(i64, u32)>;

/// `DateTime::parse_from_rfc3339`. What texts it takes is the grammar of RFC 3339 and is not
/// spelled out here. Its years have four digits and its offsets are less than a day, which bounds
/// the seconds.
#[verifier::external_body]
fn parse_rfc3339(text: &str) -> (r: Option<(i64, u32)>)
    ensures
        r == instant_of(text@),
        r matches Some(t) ==> -62_167_305_600 < t.0 < 253_402_387_200,
{
    chrono::DateTime::parse_from_rfc3339(text)
        .ok()
        .map(|d| (d.timestamp(), d.timestamp_subsec_nanos()))
}

/// How far the local clock is ahead of UTC at an instant, in seconds: `DateTime::with_timezone`
/// with `Local`. It depends on the machine; an offset is always shorter than a day.
#[verifier::external_body]
fn local_offset(seconds: i64) -> (r: i32)
    ensures
        -86_400 < r < 86_400,
{
    chrono::DateTime::from_timestamp(seconds, 0)
        .map_or(0, |d| d.with_timezone(&chrono::Local).offset().local_minus_utc())
}

// ---------------------------------------------------------------- dates

/// The date that the text stands for, white space around it left out.
pub open spec fn date_in(text: Seq<char>) -> Option<Date> {
    match ymd_of(text::trim(text)) {
        Some(p) => Some(Date { year: p.0, month: p.1, day: p.2 }),
        None => None,
    }
}

/// The date in `text`, written year-month-day. What `to_text` writes of the years from 0 to 9999
/// reads back.
pub fn parse_date(text: &str) -> (r: Option<Date>)
    ensures
        r == date_in(text@),
        r is Some ==> r->0.wf(),
        forall|d: Date|
            d.wf() && 0 <= d.year <= 9999 && text@ == #[trigger] date_text(d) ==> r == Some(d),
{
    let t = text::trimmed(text);
    assert forall|d: Date|
        d.wf() && 0 <= d.year <= 9999 && text@ == #[trigger] date_text(d) implies t@ == text@ by {
        text::lemma_padded_four(d.year as int);
        text::lemma_padded_two(d.day as int);
        let s = date_text(d);
        assert(!text::is_space(s[0]));
        assert(!text::is_space(s[s.len() - 1]));
    }
    parse_ymd(t.as_str())
}

impl Date {
    /// The date of a year, a month and a day, if there is one.
    pub fn new(year: i32, month: u32, day: u32) -> (r: Option<Date>)
        ensures
            match r {
                Some(d) => valid(year as int, month as int, day as int) && d == (Date {
                    year,
                    month,
                    day,
                }),
                None => !valid(year as int, month as int, day as int),
            },
    {
        from_ymd(year, month, day)
    }

    /// The date `days` later (earlier, where `days` is negative), if there is one.
    pub fn shifted(self, days: i64) -> (r: Option<Date>)
        requires
            self.wf(),
        ensures
            match r {
                Some(d) => d.wf() && d.number() == self.number() + days,
                None => !(first_number() <= self.number() + days <= last_number()),
            },
    {
        add_days(self, days)
    }

    /// The date `days` later, where there is one.
    pub fn moved(self, days: i64) -> (r: Date)
        requires
            self.wf(),
            first_number() <= self.number() + days <= last_number(),
        ensures
            r.wf(),
            r.number() == self.number() + days,
    {
        match add_days(self, days) {
            Some(d) => d,
            None => self,
        }
    }

    /// How many days have passed since Monday.
    pub fn since_monday(self) -> (r: usize)
        requires
            self.wf(),
        ensures
            r == (self.number() + 6) % 7,
            r < 7,
    {
        ((days_from_sunday(self) + 6) % 7) as usize
    }

    /// Whether the date comes before `other`.
    pub fn is_before(self, other: Date) -> (r: bool)
        requires
            self.wf(),
            other.wf(),
        ensures
            r == (self.number() < other.number()),
    {
        proof {
            lemma_order(self, other);
        }
        self.year < other.year || (self.year == other.year && (self.month < other.month || (
        self.month == other.month && self.day < other.day)))
    }

    /// How many days `self` lies after `other`.
    pub fn days_since(self, other: Date) -> (r: i64)
        requires
            self.wf(),
            other.wf(),
        ensures
            r == self.number() - other.number(),
            -200_000_000 <= r <= 200_000_000,
    {
        self.day_number() - other.day_number()
    }

    /// The number of the day, counted from the first of January of year 1.
    pub fn day_number(self) -> (r: i64)
        requires
            self.wf(),
        ensures
            r == self.number(),
            -95_746_129 <= r <= 95_745_399,
    {
        let mut days: i64 = length_before_year(self.year) + self.day as i64;
        let mut m: u32 = 1;
        while m < self.month
            invariant
                self.wf(),
                1 <= m <= self.month,
                days == days_before_year(self.year as int) + days_before_month(
                    self.year as int,
                    m as int,
                ) + self.day,
                -100_000_000 <= days <= 96_000_000 + 31 * m,
            decreases self.month - m,
        {
            days = days + length_of_month(self.year, m) as i64;
            m += 1;
        }
        proof {
            lemma_number_range(self);
        }
        days
    }
}

/// How many days lie between the first of January of year 1 and that of `year`.
fn length_before_year(year: i32) -> (r: i64)
    requires
        FIRST_YEAR <= year <= LAST_YEAR,
    ensures
        r == days_before_year(year as int),
        -99_000_000 <= r <= 96_000_000,
{
    // Shifted by whole cycles of 400 years, so that nothing divided is negative.
    let last: i64 = year as i64 - 1 + 262400;
    proof {
        let n: int = year - 1;
        assert(last / 4 == n / 4 + 65_600);
        assert(last / 100 == n / 100 + 2_624);
        assert(last / 400 == n / 400 + 656);
    }
    365 * last + last / 4 - last / 100 + last / 400 - 95_839_632
}

/// Whether a year has a 29th of February.
pub fn is_leap(year: i32) -> (r: bool)
    requires
        FIRST_YEAR <= year <= LAST_YEAR,
    ensures
        r == leap(year as int),
{
    let y: i32 = year + 262400;
    proof {
        assert(y % 4 == year as int % 4);
        assert(y % 100 == year as int % 100);
        assert(y % 400 == year as int % 400);
    }
    y % 4 == 0 && (y % 100 != 0 || y % 400 == 0)
}

/// How many days a month has.
pub fn length_of_month(year: i32, month: u32) -> (r: u32)
    requires
        FIRST_YEAR <= year <= LAST_YEAR,
        1 <= month <= 12,
    ensures
        r == month_len(year as int, month as int),
        28 <= r <= 31,
{
    if month == 2 {
        if is_leap(year) {
            29
        } else {
            28
        }
    } else if month == 4 || month == 6 || month == 9 || month == 11 {
        30
    } else {
        31
    }
}

// ---------------------------------------------------------------- dates as text

/// A year in at least four digits, with its sign where it does not lie between 0 and 9999.
pub open spec fn year_text(year: int) -> Seq<char> {
    if year < 0 {
        seq!['-'] + text::padded(-year, 4)
    } else if year > 9999 {
        seq!['+'] + text::padded(year, 4)
    } else {
        text::padded(year, 4)
    }
}

/// A year and a month, written `2026-09`.
pub open spec fn month_text(d: Date) -> Seq<char> {
    year_text(d.year as int) + seq!['-'] + text::padded(d.month as int, 2)
}

/// A date, written `2026-09-01`.
pub open spec fn date_text(d: Date) -> Seq<char> {
    month_text(d) + seq!['-'] + text::padded(d.day as int, 2)
}

/// Two years are written the same only where they are the same.
proof fn lemma_year_text_injective(a: int, b: int)
    requires
        year_text(a) == year_text(b),
    ensures
        a == b,
{
    let x = if a < 0 {
        -a
    } else {
        a
    };
    let y = if b < 0 {
        -b
    } else {
        b
    };
    text::lemma_padded_value(x, 4);
    text::lemma_padded_value(y, 4);
    let p = text::padded(x, 4);
    let q = text::padded(y, 4);
    assert('0' <= p[0] <= '9' && '0' <= q[0] <= '9');
    let s = year_text(a);
    let t = year_text(b);
    assert(s[0] == t[0]);
    if 0 <= a <= 9999 {
        assert(s[0] == p[0]);
        assert(p == q);
    } else {
        assert(text::after(s, 1) =~= p);
        assert(text::after(t, 1) =~= q);
    }
}

/// Two dates are written the same only where they are the same.
pub proof fn lemma_date_text_injective(a: Date, b: Date)
    requires
        a.wf(),
        b.wf(),
        date_text(a) == date_text(b),
    ensures
        a == b,
{
    text::lemma_padded_two(a.month as int);
    text::lemma_padded_two(b.month as int);
    text::lemma_padded_two(a.day as int);
    text::lemma_padded_two(b.day as int);
    let s = date_text(a);
    let t = date_text(b);
    let n = year_text(a.year as int).len() as int;
    assert(s.len() == n + 6);
    assert(year_text(b.year as int).len() == n);
    assert(s.take(n) =~= year_text(a.year as int));
    assert(t.take(n) =~= year_text(b.year as int));
    lemma_year_text_injective(a.year as int, b.year as int);
    assert(s[n + 1] == t[n + 1] && s[n + 2] == t[n + 2] && s[n + 4] == t[n + 4] && s[n + 5]
        == t[n + 5]);
    text::lemma_digits_differ(a.month as int / 10, b.month as int / 10);
    text::lemma_digits_differ(a.month as int % 10, b.month as int % 10);
    text::lemma_digits_differ(a.day as int / 10, b.day as int / 10);
    text::lemma_digits_differ(a.day as int % 10, b.day as int % 10);
}

fn year_string(year: i32) -> (r: String)
    ensures
        r@ == year_text(year as int),
{
    let mut r: String = String::new();
    let size: u64 = if year < 0 {
        r.push('-');
        (-(year as i64)) as u64
    } else {
        if year > 9999 {
            r.push('+');
        }
        year as u64
    };
    let digits = text::zero_filled(size, 4);
    r.append(digits.as_str());
    assert(r@ =~= year_text(year as int));
    r
}

impl Date {
    /// The year and the month, written `2026-09`.
    pub fn month_string(self) -> (r: String)
        ensures
            r@ == month_text(self),
    {
        let mut r = year_string(self.year);
        r.push('-');
        let month = text::zero_filled(self.month as u64, 2);
        r.append(month.as_str());
        assert(r@ =~= month_text(self));
        r
    }

    /// The date, written `2026-09-01`.
    pub fn to_text(self) -> (r: String)
        ensures
            r@ == date_text(self),
    {
        let mut r = self.month_string();
        r.push('-');
        let day = text::zero_filled(self.day as u64, 2);
        r.append(day.as_str());
        assert(r@ =~= date_text(self));
        r
    }
}

// ---------------------------------------------------------------- points in time

/// The number of the first of January 1970.
pub const EPOCH: i64 = 719_163;

/// The date with a day number.
pub open spec fn numbered(n: int) -> Date {
    choose|d: Date| d.wf() && d.number() == n
}

/// What a clock shows `seconds` after the first of January 1970, written
/// `2026-09-01 10:00:00`; in a leap second it shows the sixtieth second.
pub open spec fn clock_text(seconds: int, leap: bool) -> Seq<char> {
    let rest = seconds % 86_400;
    let second = if leap {
        rest % 60 + 1
    } else {
        rest % 60
    };
    date_text(numbered(seconds / 86_400 + EPOCH)) + seq![' '] + text::padded(rest / 3600, 2)
        + seq![':'] + text::padded(rest / 60 % 60, 2) + seq![':'] + text::padded(second, 2)
}

/// What a clock shows `seconds` after the first of January 1970.
pub fn clock_string(seconds: i64, leap: bool) -> (r: String)
    requires
        -62_167_400_000 <= seconds <= 253_402_500_000,
    ensures
        r@ == clock_text(seconds as int, leap),
{
    // Shifted by whole days, so that nothing divided is negative.
    let shifted: i64 = seconds + 86_400 * 800_000;
    let day: i64 = shifted / 86_400 - 800_000;
    let rest: i64 = shifted % 86_400;
    proof {
        assert(day == seconds as int / 86_400);
        assert(rest == seconds as int % 86_400);
        lemma_epoch();
    }
    let epoch = Date { year: 1970, month: 1, day: 1 };
    let date = epoch.moved(day);
    proof {
        let d = numbered(seconds as int / 86_400 + EPOCH);
        assert(date.wf() && date.number() == seconds as int / 86_400 + EPOCH);
        lemma_number_injective(d, date);
    }
    let second: i64 = if leap {
        rest % 60 + 1
    } else {
        rest % 60
    };
    let h = text::zero_filled((rest / 3600) as u64, 2);
    let m = text::zero_filled((rest / 60 % 60) as u64, 2);
    let s = text::zero_filled(second as u64, 2);
    let mut r = date.to_text();
    r.push(' ');
    r.append(h.as_str());
    r.push(':');
    r.append(m.as_str());
    r.push(':');
    r.append(s.as_str());
    assert(r@ =~= clock_text(seconds as int, leap));
    r
}

proof fn lemma_epoch()
    ensures
        (Date { year: 1970, month: 1, day: 1 }).wf(),
        (Date { year: 1970, month: 1, day: 1 }).number() == EPOCH,
        first_number() == -95_746_129,
        last_number() == 95_745_399,
{
    reveal_with_fuel(days_before_month, 14);
}

/// `raw` with its fraction of a second cut to five bytes where it takes more than six; one that
/// cannot be cut there, inside a character, stays.
pub open spec fn cut_fraction(raw: Seq<char>) -> Seq<char> {
    let dot = text::index_of(raw, '.');
    let tail = zone_start(raw, dot + 1);
    let fraction = raw.subrange(dot + 1, tail);
    if dot >= raw.len() || text::size(fraction) <= 6 {
        raw
    } else {
        match text::byte_prefix(fraction, 5) {
            Some(digits) => raw.subrange(0, dot + 1) + digits + text::after(raw, tail),
            None => raw,
        }
    }
}

/// The position of the first `Z`, `+` or `-` from `from` on, or the length.
pub open spec fn zone_start(raw: Seq<char>, from: int) -> int
    decreases raw.len() - from,
{
    if from >= raw.len() || raw[from] == 'Z' || raw[from] == '+' || raw[from] == '-' {
        from
    } else {
        zone_start(raw, from + 1)
    }
}

fn trim_fractional(raw: &str) -> (r: String)
    ensures
        r@ == cut_fraction(raw@),
{
    let s = text::chars_of(raw);
    let dot = text::find_char(&s, '.', 0);
    assert(text::after(s@, 0) =~= s@);
    if dot == s.len() {
        return raw.to_owned();
    }
    let mut tail: usize = dot + 1;
    while tail < s.len() && s[tail] != 'Z' && s[tail] != '+' && s[tail] != '-'
        invariant
            dot < tail <= s.len(),
            zone_start(s@, dot + 1) == zone_start(s@, tail as int),
        decreases s.len() - tail,
    {
        tail += 1;
    }
    let fraction = text::string_from(&s, dot + 1, tail);
    if text::byte_len(fraction.as_str()) <= 6 {
        return raw.to_owned();
    }
    match text::first_bytes(fraction.as_str(), 5) {
        Some(digits) => {
            let mut r = text::string_from(&s, 0, dot + 1);
            let rest = text::string_from(&s, tail, s.len());
            r.append(digits.as_str());
            r.append(rest.as_str());
            r
        },
        None => raw.to_owned(),
    }
}

/// A date of Subversion on a clock that is `offset` seconds ahead of UTC; a text that is no date
/// stays as it is.
pub open spec fn shown_at(raw: Seq<char>, offset: int) -> Seq<char> {
    match instant_of(cut_fraction(raw)) {
        Some(t) => if raw.len() == 0 {
            raw
        } else {
            clock_text(t.0 + offset, t.1 >= 1_000_000_000)
        },
        None => raw,
    }
}

/// `shown` is what the local clock shows for a date of Subversion, wherever the machine stands.
pub open spec fn shown_locally(raw: Seq<char>, shown: Seq<char>) -> bool {
    exists|offset: int| -86_400 < offset < 86_400 && shown == #[trigger] shown_at(raw, offset)
}

/// A date of Subversion on a clock that is `offset` seconds ahead of UTC.
pub fn format_at(raw: &str, offset: i32) -> (r: String)
    requires
        -86_400 < offset < 86_400,
    ensures
        r@ == shown_at(raw@, offset as int),
{
    if raw.is_empty() {
        return raw.to_owned();
    }
    let plain = trim_fractional(raw);
    match parse_rfc3339(plain.as_str()) {
        Some(t) => clock_string(t.0 + offset as i64, t.1 >= 1_000_000_000),
        None => raw.to_owned(),
    }
}

/// A date of Subversion on the local clock. Subversion gives UTC with up to seven digits of a
/// second. A text that is no date stays as it is. What the clock's offset is depends on the
/// machine.
pub fn format_svn_date(raw: &str) -> (r: String)
    ensures
        shown_locally(raw@, r@),
        instant_of(cut_fraction(raw@)) is None || raw@.len() == 0 ==> r@ == raw@,
{
    let plain = trim_fractional(raw);
    let offset = match parse_rfc3339(plain.as_str()) {
        Some(t) => local_offset(t.0),
        None => 0,
    };
    let r = format_at(raw, offset);
    assert(r@ == shown_at(raw@, offset as int));
    r
}

// ---------------------------------------------------------------- laws

/// A clock shows the day, the hour, the minute and the second that make up the time.
pub proof fn law_clocks_show_the_time(d: Date, h: int, m: int, s: int)
    requires
        d.wf(),
        0 <= h < 24,
        0 <= m < 60,
        0 <= s < 60,
    ensures
        clock_text(
            (d.number() - Date { year: 1970, month: 1, day: 1 }.number()) * 86_400 + h * 3600 + m
                * 60 + s,
            false,
        ) == date_text(d) + seq![' ', text::digit(h / 10), text::digit(h % 10), ':'] + seq![
            text::digit(m / 10),
            text::digit(m % 10),
            ':',
            text::digit(s / 10),
            text::digit(s % 10),
        ],
{
    lemma_epoch();
    let day = d.number() - EPOCH;
    let rest = h * 3600 + m * 60 + s;
    let seconds = day * 86_400 + rest;
    assert(seconds / 86_400 == day && seconds % 86_400 == rest);
    assert(rest / 3600 == h);
    assert(rest / 60 % 60 == m);
    assert(rest % 60 == s);
    lemma_number_injective(numbered(d.number()), d);
    text::lemma_padded_two(h);
    text::lemma_padded_two(m);
    text::lemma_padded_two(s);
    assert(clock_text(seconds, false) =~= date_text(d) + seq![
        ' ',
        text::digit(h / 10),
        text::digit(h % 10),
        ':',
    ] + seq![
        text::digit(m / 10),
        text::digit(m % 10),
        ':',
        text::digit(s / 10),
        text::digit(s % 10),
    ]);
}

proof fn lemma_ascii_size(s: Seq<char>)
    requires
        forall|i: int| 0 <= i < s.len() ==> '0' <= #[trigger] s[i] <= '9',
    ensures
        text::size(s) == s.len(),
    decreases s.len(),
{
    if s.len() > 0 {
        let t = s.drop_last();
        assert forall|i: int| 0 <= i < t.len() implies '0' <= #[trigger] t[i] <= '9' by {
            assert(t[i] == s[i]);
        }
        lemma_ascii_size(t);
        assert('0' <= s[s.len() - 1] <= '9');
    }
}

proof fn lemma_ascii_prefix(s: Seq<char>, n: int)
    requires
        0 <= n <= s.len(),
        forall|i: int| 0 <= i < s.len() ==> '0' <= #[trigger] s[i] <= '9',
    ensures
        text::chars_in_bytes(s, n) == Some(n),
    decreases n,
{
    if n > 0 {
        let t = text::after(s, 1);
        assert('0' <= s[0] <= '9');
        assert forall|i: int| 0 <= i < t.len() implies '0' <= #[trigger] t[i] <= '9' by {
            assert(t[i] == s[i + 1]);
        }
        lemma_ascii_prefix(t, n - 1);
    }
}

proof fn lemma_zone_start(raw: Seq<char>, from: int, to: int)
    requires
        0 <= from <= to <= raw.len(),
        forall|i: int| from <= i < to ==> '0' <= #[trigger] raw[i] <= '9',
        to < raw.len() ==> raw[to] == 'Z' || raw[to] == '+' || raw[to] == '-',
    ensures
        zone_start(raw, from) == to,
    decreases to - from,
{
    if from < to {
        assert('0' <= raw[from] <= '9');
        lemma_zone_start(raw, from + 1, to);
    }
}

/// Of a fraction with more than six digits five are kept; a shorter one stays whole. What stands
/// before the point and the zone behind the digits stay as they are.
pub proof fn law_long_fractions_are_cut(front: Seq<char>, digits: Seq<char>, zone: Seq<char>)
    requires
        !front.contains('.'),
        forall|i: int| 0 <= i < digits.len() ==> '0' <= #[trigger] digits[i] <= '9',
        zone.len() > 0 ==> zone[0] == 'Z' || zone[0] == '+' || zone[0] == '-',
    ensures
        cut_fraction(front + seq!['.'] + digits + zone) == front + seq!['.'] + (if digits.len() > 6 {
            digits.take(5)
        } else {
            digits
        }) + zone,
        cut_fraction(front) == front,
{
    let raw = front + seq!['.'] + digits + zone;
    let n = front.len() as int;
    assert forall|j: int| 0 <= j < n implies #[trigger] raw[j] != '.' && front[j] != '.' by {
        assert(raw[j] == front[j]);
        assert(front.contains(front[j]));
    }
    assert(raw[n] == '.');
    text::lemma_index_of_is(raw, '.', n);
    text::lemma_index_of(front, '.');
    if text::index_of(front, '.') < n {
        assert(front[text::index_of(front, '.')] != '.');
    }
    let tail = n + 1 + digits.len();
    assert forall|i: int| n + 1 <= i < tail implies '0' <= #[trigger] raw[i] <= '9' by {
        assert(raw[i] == digits[i - n - 1]);
    }
    if zone.len() > 0 {
        assert(raw[tail] == zone[0]);
    }
    lemma_zone_start(raw, n + 1, tail);
    assert(raw.subrange(n + 1, tail) =~= digits);
    lemma_ascii_size(digits);
    assert(raw.subrange(0, n + 1) =~= front + seq!['.']);
    assert(text::after(raw, tail) =~= zone);
    if digits.len() > 6 {
        lemma_ascii_prefix(digits, 5);
        assert(digits.subrange(0, 5) =~= digits.take(5));
    }
}

} // verus!
