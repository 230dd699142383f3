//! Days and hours of timestamps, and the ranges of days that queries cover.
use vstd::prelude::*;

use crate::calendar;
use crate::calendar::{day_key_to_date, Date};

verus! {

/// The largest number of days that a query covers (about 100 years).
pub const MAX_QUERY_DAYS: i64 = 36_500;

/// `days` brought into the range `1..=MAX_QUERY_DAYS`.
pub open spec fn clamped_days(days: int) -> int {
    if days < 1 {
        1
    } else if days > MAX_QUERY_DAYS {
        MAX_QUERY_DAYS as int
    } else {
        days
    }
}

/// `days` brought into the range `1..=MAX_QUERY_DAYS`.
pub fn clamp_query_days(days: i64) -> (r: i64)
    ensures
        r == clamped_days(days as int),
        1 <= r <= MAX_QUERY_DAYS,
{
    if days < 1 {
        1
    } else if days > MAX_QUERY_DAYS {
        MAX_QUERY_DAYS
    } else {
        days
    }
}

/// Whether `period` is one of -1 (today), 0 (everything) and `1..=MAX_QUERY_DAYS` days.
pub fn is_valid_period(period: i64) -> (r: bool)
    ensures
        r == (-1 <= period <= MAX_QUERY_DAYS),
{
    period == -1 || (0 <= period && period <= MAX_QUERY_DAYS)
}

/// A number of days is a valid period exactly where clamping leaves it alone.
pub proof fn lemma_valid_periods_are_clamped(period: int)
    requires
        period > 0,
    ensures
        period <= MAX_QUERY_DAYS <==> clamped_days(period) == period,
{
}

/// The date `days` days before `date`, the days clamped first; nothing where there is
/// no such date.
pub fn date_minus_days(date: &Date, days: i64) -> (r: Option<Date>)
    requires
        date.valid(),
    ensures
        match r {
            Some(d) => d.valid() && d.number() == date.number() - clamped_days(days as int),
            None => date.number() - clamped_days(days as int) < calendar::first_day(),
        },
{
    calendar::sub_days(date, clamp_query_days(days) as u64)
}

/// The day number of the time `ts` (seconds since 1970 in UTC) where local time is
/// `offset` seconds ahead of UTC.
pub open spec fn day_at(ts: int, offset: int) -> int {
    (ts + offset) / 86_400
}

/// The hour of the day of `ts`, 0 to 23.
pub open spec fn hour_at(ts: int, offset: int) -> int {
    ((ts + offset) % 86_400) / 3600
}

fn floor_div(a: i128, b: i128) -> (r: i128)
    requires
        b > 0,
        -0x2_0000_0000_0000_0000 < a < 0x2_0000_0000_0000_0000,
    ensures
        r == a as int / b as int,
        -0x2_0000_0000_0000_0000 < r < 0x2_0000_0000_0000_0000,
{
    if a >= 0 {
        proof {
            vstd::arithmetic::div_mod::lemma_div_is_ordered_by_denominator(a as int, 1, b as int);
            vstd::arithmetic::div_mod::lemma_div_pos_is_pos(a as int, b as int);
        }
        a / b
    } else {
        let m: i128 = -(a + 1);
        let q: i128 = m / b;
        proof {
            let (x, y, mm) = (a as int, b as int, m as int);
            vstd::arithmetic::div_mod::lemma_fundamental_div_mod(mm, y);
            vstd::arithmetic::div_mod::lemma_div_pos_is_pos(mm, y);
            vstd::arithmetic::div_mod::lemma_div_is_ordered_by_denominator(mm, 1, y);
            let k = mm / y;
            let rem = mm % y;
            assert(y * (-(k + 1)) == -(y * k) - y) by (nonlinear_arith);
            assert(x == (-(k + 1)) * y + (y - 1 - rem)) by (nonlinear_arith)
                requires
                    mm == y * k + rem,
                    mm == -(x + 1),
            ;
            vstd::arithmetic::div_mod::lemma_fundamental_div_mod_converse(
                x,
                y,
                -(k + 1),
                y - 1 - rem,
            );
        }
        -(q + 1)
    }
}

/// The day number of the time `ts` where local time is `offset` seconds ahead of UTC.
pub fn day_key_of_ts(ts: i64, offset: i64) -> (r: i64)
    ensures
        r == day_at(ts as int, offset as int),
{
    let q = floor_div(ts as i128 + offset as i128, 86_400);
    q as i64
}

/// The hour of the day of the time `ts`, in local time.
pub fn hour_of_ts(ts: i64, offset: i64) -> (r: i64)
    ensures
        r == hour_at(ts as int, offset as int),
        0 <= r <= 23,
{
    let t: i128 = ts as i128 + offset as i128;
    let q = floor_div(t, 86_400);
    let second: i128 = t - q * 86_400;
    (second / 3600) as i64
}

/// The year of a day number; `current_year` where it is no date from 1970 on.
pub open spec fn year_of(day: int, current_year: int) -> int {
    if 0 <= day <= calendar::last_day() {
        calendar::date_of(day).year as int
    } else {
        current_year
    }
}

/// The year of a day number; `current_year` where it is no date from 1970 on.
pub fn year_of_day_key(day_key: i64, current_year: i32) -> (r: i32)
    ensures
        r == year_of(day_key as int, current_year as int),
{
    match day_key_to_date(day_key) {
        Some(d) => {
            proof {
                calendar::lemma_day_key_round_trip(d);
                calendar::lemma_number_range(d);
            }
            d.year
        },
        None => current_year,
    }
}

/// The days from 1970 on of a year are those between two new years.
pub proof fn lemma_year_of(day: int, current_year: int, y: int)
    requires
        0 <= day <= calendar::last_day(),
    ensures
        year_of(day, current_year) == y <==> calendar::new_year(y) <= day < calendar::new_year(
            y + 1,
        ),
{
    let d = calendar::date_of(day);
    calendar::lemma_has_date(day);
    calendar::lemma_year_of_number(d, y);
}

/// The first day of a period of `days` days that ends with `today`; a period of no
/// length covers all days.
pub open spec fn period_start(days: Option<i64>, today: int) -> Option<int> {
    match days {
        Some(d) => Some(today - clamped_days(d as int) + 1),
        None => None,
    }
}

/// The first day of a period of `days` days that ends with `today`.
pub fn cutoff_day_key(days: Option<i64>, today: i64) -> (r: Option<i64>)
    requires
        today >= i64::MIN + MAX_QUERY_DAYS,
    ensures
        match r {
            Some(k) => period_start(days, today as int) == Some(k as int),
            None => period_start(days, today as int) is None,
        },
{
    match days {
        Some(d) => Some(today - clamp_query_days(d) + 1),
        None => None,
    }
}

/// The day number of local noon is that of the date, whatever the offset from UTC.
pub proof fn lemma_noon_is_on_its_day(day: int, offset: int)
    requires
        -43_200 <= offset < 43_200,
    ensures
        day_at(day * 86_400 + 43_200 - offset, offset) == day,
{
}

} // verus!
