//! Calendar dates of the proleptic Gregorian calendar and the day numbers that
//! the statistics are keyed by: day 0 is 1970-01-01.
use chrono::{DateTime, Datelike, Days, Months, NaiveDate};
use vstd::prelude::*;

use crate::text;

verus! {

/// The first year that a date can have.
pub const FIRST_YEAR: i32 = -262143;

/// The last year that a date can have.
pub const LAST_YEAR: i32 = 262142;

/// A calendar date.
#[derive(Clone, Copy, PartialEq, Eq, Structural, Debug)]
pub struct Date {
    pub year: i32,
    pub month: u32,
    pub day: u32,
}

/// Whether `y` is a leap year.
pub open spec fn is_leap(y: int) -> bool {
    y % 4 == 0 && (y % 100 != 0 || y % 400 == 0)
}

/// The number of days of month `m` of year `y`.
pub open spec fn month_len(y: int, m: int) -> int {
    if m == 2 {
        if is_leap(y) {
            29
        } else {
            28
        }
    } else if m == 4 || m == 6 || m == 9 || m == 11 {
        30
    } else {
        31
    }
}

/// The number of days of year `y`.
pub open spec fn year_len(y: int) -> int {
    if is_leap(y) {
        366
    } else {
        365
    }
}

/// The number of days from 0001-01-01 to the first day of year `y`.
pub open spec fn days_before_year(y: int) -> int {
    365 * (y - 1) + (y - 1) / 4 - (y - 1) / 100 + (y - 1) / 400
}

/// The number of days of year `y` before month `m`.
pub open spec fn days_before_month(y: int, m: int) -> int
    decreases m,
{
    if m <= 1 {
        0
    } else {
        days_before_month(y, m - 1) + month_len(y, m - 1)
    }
}

/// The day number of a date: the days since 1970-01-01.
pub open spec fn day_number(y: int, m: int, d: int) -> int {
    days_before_year(y) + days_before_month(y, m) + d - 1 - 719_162
}

/// The day number of the first day of year `y`.
pub open spec fn new_year(y: int) -> int {
    days_before_year(y) - 719_162
}

/// The last day number that a date can have.
pub open spec fn last_day() -> int {
    day_number(LAST_YEAR as int, 12, 31)
}

/// The first day number that a date can have.
pub open spec fn first_day() -> int {
    day_number(FIRST_YEAR as int, 1, 1)
}

impl Date {
    /// Whether the date exists.
    pub open spec fn valid(&self) -> bool {
        &&& FIRST_YEAR <= self.year <= LAST_YEAR
        &&& 1 <= self.month <= 12
        &&& 1 <= self.day <= month_len(self.year as int, self.month as int)
    }

    /// The day number of the date.
    pub open spec fn number(&self) -> int {
        day_number(self.year as int, self.month as int, self.day as int)
    }
}

pub proof fn lemma_year_step(y: int)
    ensures
        days_before_year(y + 1) == days_before_year(y) + year_len(y),
{
}

/// Later years begin later, by at least the length of the year.
pub proof fn lemma_years_ordered(a: int, b: int)
    requires
        a < b,
    ensures
        days_before_year(a) + year_len(a) <= days_before_year(b),
    decreases b - a,
{
    lemma_year_step(a);
    if a + 1 < b {
        lemma_years_ordered(a + 1, b);
    }
}

pub proof fn lemma_months_ordered(y: int, a: int, b: int)
    requires
        1 <= a < b,
    ensures
        days_before_month(y, a) + month_len(y, a) <= days_before_month(y, b),
    decreases b - a,
{
    if a + 1 < b {
        lemma_months_ordered(y, a, b - 1);
    }
}

pub proof fn lemma_year_months(y: int)
    ensures
        days_before_month(y, 12) + 31 == year_len(y),
{
    reveal_with_fuel(days_before_month, 13);
}

/// The day of the year lies within the year.
pub proof fn lemma_day_of_year(y: int, m: int, d: int)
    requires
        1 <= m <= 12,
        1 <= d <= month_len(y, m),
    ensures
        new_year(y) <= day_number(y, m, d) < new_year(y) + year_len(y),
        new_year(y) + year_len(y) == new_year(y + 1),
{
    lemma_year_months(y);
    lemma_year_step(y);
    if m < 12 {
        lemma_months_ordered(y, m, 12);
    }
    lemma_month_nonneg(y, m);
}

proof fn lemma_month_nonneg(y: int, m: int)
    ensures
        days_before_month(y, m) >= 0,
    decreases m,
{
    if m > 1 {
        lemma_month_nonneg(y, m - 1);
    }
}

/// Two dates with the same day number are the same date.
pub proof fn lemma_number_injective(a: Date, b: Date)
    requires
        a.valid(),
        b.valid(),
        a.number() == b.number(),
    ensures
        a == b,
{
    lemma_day_of_year(a.year as int, a.month as int, a.day as int);
    lemma_day_of_year(b.year as int, b.month as int, b.day as int);
    if a.year < b.year {
        lemma_years_ordered(a.year as int, b.year as int);
    }
    if b.year < a.year {
        lemma_years_ordered(b.year as int, a.year as int);
    }
    if a.month < b.month {
        lemma_months_ordered(a.year as int, a.month as int, b.month as int);
    }
    if b.month < a.month {
        lemma_months_ordered(a.year as int, b.month as int, a.month as int);
    }
}

/// A date lies in year `y` exactly when its day number lies between two new years.
pub proof fn lemma_year_of_number(a: Date, y: int)
    requires
        a.valid(),
    ensures
        a.year == y <==> new_year(y) <= a.number() < new_year(y + 1),
{
    lemma_day_of_year(a.year as int, a.month as int, a.day as int);
    if a.year < y {
        lemma_years_ordered(a.year as int, y);
    }
    if y < a.year {
        lemma_years_ordered(y, a.year as int);
        lemma_year_step(y);
    }
}

/// Dates lie between the first and the last day.
pub proof fn lemma_number_range(a: Date)
    requires
        a.valid(),
    ensures
        first_day() <= a.number() <= last_day(),
        -97_000_000 < first_day(),
        last_day() < 96_000_000,
{
    lemma_day_of_year(a.year as int, a.month as int, a.day as int);
    lemma_year_months(LAST_YEAR as int);
    lemma_year_step(LAST_YEAR as int);
    if FIRST_YEAR < a.year {
        lemma_years_ordered(FIRST_YEAR as int, a.year as int);
    }
    if a.year < LAST_YEAR {
        lemma_years_ordered(a.year as int, LAST_YEAR as int);
    }
    lemma_month_nonneg(FIRST_YEAR as int, 1);
}

// -------------------------------------------------- what the date crate computes

/// `NaiveDate::from_ymd_opt`: gives a date exactly where the day exists and the year
/// is in range.
#[verifier::external_body]
pub(crate) fn date_exists(year: i32, month: u32, day: u32) -> (r: bool)
    ensures
        r == (Date { year, month, day }).valid(),
{
    NaiveDate::from_ymd_opt(year, month, day).is_some()
}

/// `NaiveDate::signed_duration_since` and `TimeDelta::num_days`: the number of days
/// from `b` to `a`.
#[verifier::external_body]
pub(crate) fn days_between(a: &Date, b: &Date) -> (r: i64)
    requires
        a.valid(),
        b.valid(),
    ensures
        r == a.number() - b.number(),
{
    let x = NaiveDate::from_ymd_opt(a.year, a.month, a.day).unwrap();
    let y = NaiveDate::from_ymd_opt(b.year, b.month, b.day).unwrap();
    x.signed_duration_since(y).num_days()
}

/// `NaiveDate::checked_add_days`: the date `n` days later, and nothing where that
/// is after the last date.
#[verifier::external_body]
pub(crate) fn add_days(a: &Date, n: u64) -> (r: Option<Date>)
    requires
        a.valid(),
    ensures
        match r {
            Some(d) => d.valid() && d.number() == a.number() + n,
            None => a.number() + n > last_day(),
        },
{
    let x = NaiveDate::from_ymd_opt(a.year, a.month, a.day).unwrap();
    x.checked_add_days(Days::new(n)).map(
        |d| Date { year: d.year(), month: d.month(), day: d.day() },
    )
}

/// `NaiveDate::checked_sub_days`: the date `n` days earlier, and nothing where that
/// is before the first date.
#[verifier::external_body]
pub(crate) fn sub_days(a: &Date, n: u64) -> (r: Option<Date>)
    requires
        a.valid(),
    ensures
        match r {
            Some(d) => d.valid() && d.number() == a.number() - n,
            None => a.number() - n < first_day(),
        },
{
    let x = NaiveDate::from_ymd_opt(a.year, a.month, a.day).unwrap();
    x.checked_sub_days(Days::new(n)).map(
        |d| Date { year: d.year(), month: d.month(), day: d.day() },
    )
}

/// The year that is `n` months after month `m` of year `y`.
pub open spec fn months_later_year(y: int, m: int, n: int) -> int {
    (y * 12 + m - 1 + n) / 12
}

/// The month that is `n` months after month `m` of year `y`.
pub open spec fn months_later_month(y: int, m: int, n: int) -> int {
    (y * 12 + m - 1 + n) % 12 + 1
}

/// `NaiveDate::checked_add_months`: the same day `n` months later, or the last day of
/// that month where it is shorter, and nothing where the year is out of range.
#[verifier::external_body]
pub(crate) fn add_months(a: &Date, n: u32) -> (r: Option<Date>)
    requires
        a.valid(),
    ensures
        match r {
            Some(d) => {
                &&& d.valid()
                &&& d.year == months_later_year(a.year as int, a.month as int, n as int)
                &&& d.month == months_later_month(a.year as int, a.month as int, n as int)
                &&& d.day == (if a.day <= month_len(d.year as int, d.month as int) {
                    a.day as int
                } else {
                    month_len(d.year as int, d.month as int)
                })
            },
            None => months_later_year(a.year as int, a.month as int, n as int) > LAST_YEAR,
        },
{
    let x = NaiveDate::from_ymd_opt(a.year, a.month, a.day).unwrap();
    x.checked_add_months(Months::new(n)).map(
        |d| Date { year: d.year(), month: d.month(), day: d.day() },
    )
}

/// The weekday of a day number: 0 is Monday, 6 is Sunday.
pub open spec fn weekday_of(day: int) -> int {
    (day + 3) % 7
}

/// `Datelike::weekday` and `Weekday::num_days_from_monday`: the weekday of a date.
#[verifier::external_body]
pub(crate) fn weekday(a: &Date) -> (r: u32)
    requires
        a.valid(),
    ensures
        r == weekday_of(a.number()),
{
    let x = NaiveDate::from_ymd_opt(a.year, a.month, a.day).unwrap();
    x.weekday().num_days_from_monday()
}

/// The Thursday of the week that `day` lies in; its year is the year of the week.
pub open spec fn thursday_of(day: int) -> int {
    day - weekday_of(day) + 3
}

/// Whether `(y, w)` are the year and number of the ISO 8601 week of `day`.
pub open spec fn is_iso_week(day: int, y: int, w: int) -> bool {
    let t = thursday_of(day);
    new_year(y) <= t < new_year(y + 1) && w == (t - new_year(y)) / 7 + 1
}

/// `Datelike::iso_week`: year and number of the ISO 8601 week of a date.
#[verifier::external_body]
pub(crate) fn iso_week(a: &Date) -> (r: (i32, u32))
    requires
        a.valid(),
    ensures
        is_iso_week(a.number(), r.0 as int, r.1 as int),
{
    let x = NaiveDate::from_ymd_opt(a.year, a.month, a.day).unwrap();
    (x.iso_week().year(), x.iso_week().week())
}

/// A year as dates are written: four digits, and beyond those with a sign.
pub open spec fn year_text(y: int) -> Seq<char> {
    if 0 <= y <= 9999 {
        text::padded(y as nat, 4)
    } else if y < 0 {
        seq!['-'] + text::padded((-y) as nat, 4)
    } else {
        seq!['+'] + text::padded(y as nat, 4)
    }
}

/// `YYYY-MM-DD`.
pub open spec fn iso_text(d: Date) -> Seq<char> {
    year_text(d.year as int) + seq!['-'] + text::padded(d.month as nat, 2) + seq!['-'] + text::padded(
        d.day as nat,
        2,
    )
}

/// `YYYYMM`.
pub open spec fn month_text(d: Date) -> Seq<char> {
    year_text(d.year as int) + text::padded(d.month as nat, 2)
}

/// `YYYYMMDD`.
pub open spec fn compact_text(d: Date) -> Seq<char> {
    month_text(d) + text::padded(d.day as nat, 2)
}

/// `NaiveDate::format` with one of three formats: the year in at least four digits,
/// with a sign where it is negative or over 9999, month and day in two digits each.
#[verifier::external_body]
pub(crate) fn format_date(a: &Date, fmt: &str) -> (r: String)
    requires
        a.valid(),
        fmt@ == "%Y-%m-%d"@ || fmt@ == "%Y%m%d"@ || fmt@ == "%Y%m"@,
    ensures
        fmt@ == "%Y-%m-%d"@ ==> r@ == iso_text(*a),
        fmt@ == "%Y%m%d"@ ==> r@ == compact_text(*a),
        fmt@ == "%Y%m"@ ==> r@ == month_text(*a),
{
    let x = NaiveDate::from_ymd_opt(a.year, a.month, a.day).unwrap();
    x.format(fmt).to_string()
}

/// The date that `NaiveDate::parse_from_str` reads in a text by a format.
pub uninterp spec fn parsed_date(text: Seq<char>, fmt: Seq<char>) -> Option<Date>;

/// `NaiveDate::parse_from_str`: what it reads is a date that exists, and of a date of
/// the years 0 to 9999 it reads back what `NaiveDate::format` wrote by the same format.
#[verifier::external_body]
pub(crate) fn parse_date(text: &str, fmt: &str) -> (r: Option<Date>)
    ensures
        r == parsed_date(text@, fmt@),
        r is Some ==> r->0.valid(),
        fmt@ == "%Y-%m-%d"@ ==> forall|d: Date|
            #![trigger iso_text(d)]
            d.valid() && 0 <= d.year <= 9999 && text@ == iso_text(d) ==> r == Some(d),
        fmt@ == "%Y%m%d"@ ==> forall|d: Date|
            #![trigger compact_text(d)]
            d.valid() && 0 <= d.year <= 9999 && text@ == compact_text(d) ==> r == Some(d),
{
    NaiveDate::parse_from_str(text, fmt).ok().map(
        |d| Date { year: d.year(), month: d.month(), day: d.day() },
    )
}

/// The instant that `DateTime::parse_from_rfc3339` reads in a text, in seconds since 1970
/// and the nanoseconds beyond them.
pub uninterp spec fn parsed_instant(text: Seq<char>) -> Option<(i64, u32)>;

/// `DateTime::parse_from_rfc3339`, and `timestamp` and `timestamp_subsec_nanos` of what it
/// reads.
#[verifier::external_body]
pub(crate) fn parse_instant(text: &str) -> (r: Option<(i64, u32)>)
    ensures
        r == parsed_instant(text@),
{
    DateTime::parse_from_rfc3339(text).ok().map(
        |d| (d.timestamp(), d.timestamp_subsec_nanos()),
    )
}

// ------------------------------------------------------------------- day numbers

/// The day number of a date.
pub fn day_key_of_date(date: &Date) -> (r: i64)
    requires
        date.valid(),
    ensures
        r == date.number(),
{
    let epoch = Date { year: 1970, month: 1, day: 1 };
    proof {
        reveal_with_fuel(days_before_month, 2);
        assert(epoch.number() == 0);
    }
    days_between(date, &epoch)
}

/// The date of a day number; nothing for days before 1970-01-01 and after the last date.
pub fn day_key_to_date(day_key: i64) -> (r: Option<Date>)
    ensures
        match r {
            Some(d) => 0 <= day_key && d.valid() && d.number() == day_key,
            None => day_key < 0 || day_key > last_day(),
        },
{
    if day_key < 0 {
        return None;
    }
    let epoch = Date { year: 1970, month: 1, day: 1 };
    proof {
        reveal_with_fuel(days_before_month, 2);
        assert(epoch.number() == 0);
    }
    add_days(&epoch, day_key as u64)
}

/// The date of a day number that a date can have from 1970 on.
pub open spec fn date_of(day: int) -> Date {
    choose|d: Date| d.valid() && d.number() == day
}

/// Whether a day number is that of a date from 1970 on.
pub open spec fn has_date(day: int) -> bool {
    exists|d: Date| d.valid() && d.number() == day
}

/// Turning a date into its day number and back gives the date again.
pub proof fn lemma_day_key_round_trip(d: Date)
    requires
        d.valid(),
    ensures
        has_date(d.number()),
        date_of(d.number()) == d,
{
    let e = date_of(d.number());
    assert(e.valid() && e.number() == d.number());
    lemma_number_injective(d, e);
}

/// The day number of the first day of `year`, where that day exists.
pub fn new_year_key(year: i32) -> (r: Option<i64>)
    ensures
        match r {
            Some(k) => k == new_year(year as int) && FIRST_YEAR <= year <= LAST_YEAR,
            None => !(FIRST_YEAR <= year <= LAST_YEAR),
        },
{
    proof {
        reveal_with_fuel(days_before_month, 2);
    }
    if date_exists(year, 1, 1) {
        Some(day_key_of_date(&Date { year, month: 1, day: 1 }))
    } else {
        None
    }
}

/// Every day number from 1970-01-01 to the last date is that of a date.
pub proof fn lemma_has_date(day: int)
    requires
        0 <= day <= last_day(),
    ensures
        has_date(day),
        date_of(day).valid(),
        date_of(day).number() == day,
    decreases day,
{
    if day == 0 {
        let d = Date { year: 1970, month: 1, day: 1 };
        reveal_with_fuel(days_before_month, 2);
        assert(d.valid() && d.number() == 0);
    } else {
        lemma_has_date(day - 1);
        let d = date_of(day - 1);
        let y = d.year as int;
        let m = d.month as int;
        if d.day < month_len(y, m) {
            let e = Date { day: (d.day + 1) as u32, ..d };
            assert(e.valid() && e.number() == day);
        } else if m < 12 {
            let e = Date { year: d.year, month: (d.month + 1) as u32, day: 1 };
            assert(e.valid() && e.number() == day);
        } else {
            lemma_year_months(y);
            lemma_year_step(y);
            if d.year == LAST_YEAR {
                assert(day - 1 == last_day());
            }
            let e = Date { year: (d.year + 1) as i32, month: 1, day: 1 };
            reveal_with_fuel(days_before_month, 2);
            assert(e.valid() && e.number() == day);
        }
    }
}

/// The text of a day number as `YYYY-MM-DD`; empty where it is no date from 1970 on.
pub open spec fn day_text(day: int) -> Seq<char> {
    if 0 <= day <= last_day() {
        iso_text(date_of(day))
    } else {
        Seq::empty()
    }
}

/// The text of a day number as `YYYY-MM-DD`; empty where it is no date from 1970 on.
pub fn day_key_text(day_key: i64) -> (r: String)
    ensures
        r@ == day_text(day_key as int),
{
    match day_key_to_date(day_key) {
        Some(d) => {
            proof {
                lemma_day_key_round_trip(d);
                lemma_number_range(d);
            }
            format_date(&d, "%Y-%m-%d")
        },
        None => String::new(),
    }
}

/// A year is told by its digits, four at least, behind a sign where it is below 0 or above
/// 9999.
pub proof fn lemma_year_is_told(y: int)
    ensures
        0 <= y <= 9999 ==> year_text(y).len() == 4 && text::all_digits(year_text(y))
            && text::digits_value(year_text(y)) == y,
        y < 0 || y > 9999 ==> {
            let t = year_text(y);
            &&& t.len() >= 5
            &&& t[0] == (if y < 0 {
                '-'
            } else {
                '+'
            })
            &&& text::all_digits(t.drop_first())
            &&& text::digits_value(t.drop_first()) == (if y < 0 {
                -y
            } else {
                y
            })
        },
{
    let a = if y < 0 {
        -y
    } else {
        y
    };
    let p = text::padded(a as nat, 4);
    text::lemma_padded(a as nat, 4);
    if 0 <= y <= 9999 {
        reveal_with_fuel(text::dec_nat, 5);
    } else {
        assert(year_text(y).drop_first() =~= p);
    }
}

} // verus!
