//! Civil dates of the proleptic Gregorian calendar, and the month arithmetic done with chrono.
use chrono::{Datelike, Months, NaiveDate};
use vstd::arithmetic::div_mod::{lemma_fundamental_div_mod, lemma_fundamental_div_mod_converse};
use vstd::prelude::*;

verus! {

/// A calendar date: year, month `1..=12` and day of the month.
#[derive(Clone, Copy, Debug, PartialEq, Eq, Structural)]
pub struct CivilDate {
    pub year: i32,
    pub month: u32,
    pub day: u32,
}

/// Smallest year that chrono's `NaiveDate` represents.
pub const MIN_YEAR: i32 = -262143;

/// Largest year that chrono's `NaiveDate` represents.
pub const MAX_YEAR: i32 = 262142;

pub open spec fn in_range(year: int) -> bool {
    MIN_YEAR <= year <= MAX_YEAR
}

pub open spec fn is_leap(year: int) -> bool {
    (year % 4 == 0 && year % 100 != 0) || year % 400 == 0
}

pub open spec fn days_in_month(year: int, month: int) -> int {
    if month == 2 {
        if is_leap(year) {
            29
        } else {
            28
        }
    } else if month == 4 || month == 6 || month == 9 || month == 11 {
        30
    } else {
        31
    }
}

/// Days of the year that come before the first of `month`.
pub open spec fn days_before_month(year: int, month: int) -> int
    decreases month,
{
    if month <= 1 {
        0
    } else {
        days_before_month(year, month - 1) + days_in_month(year, month - 1)
    }
}

/// Days of all years before `year`, counting from year 1.
pub open spec fn days_before_year(year: int) -> int {
    365 * (year - 1) + (year - 1) / 4 - (year - 1) / 100 + (year - 1) / 400
}

/// Serial number of a day; 0001-01-01 is day 1.
pub open spec fn day_number(year: int, month: int, day: int) -> int {
    days_before_year(year) + days_before_month(year, month) + day
}

/// Day of the week, 1 for Monday up to 7 for Sunday (0001-01-01 was a Monday).
pub open spec fn weekday_from_monday(year: int, month: int, day: int) -> int {
    (day_number(year, month, day) - 1) % 7 + 1
}

pub open spec fn date_exists(year: int, month: int, day: int) -> bool {
    1 <= month <= 12 && 1 <= day <= days_in_month(year, month)
}

/// The month after `(year, month)`.
pub open spec fn following_month(year: int, month: int) -> (int, int) {
    if month == 12 {
        (year + 1, 1)
    } else {
        (year, month + 1)
    }
}

/// A month whose first day and whose following month's first day chrono represents.
pub open spec fn month_in_reach(year: int, month: int) -> bool {
    &&& in_range(year)
    &&& 1 <= month <= 12
    &&& in_range(following_month(year, month).0)
}

impl CivilDate {
    pub open spec fn wf(self) -> bool {
        date_exists(self.year as int, self.month as int, self.day as int)
    }

    /// Whether both dates lie in the same month of the same year.
    pub fn same_month(&self, other: &CivilDate) -> (r: bool)
        ensures
            r == (self.year == other.year && self.month == other.month),
    {
        self.year == other.year && self.month == other.month
    }
}

/// Relies on `NaiveDate::from_ymd_opt`: it returns `Some` exactly for an existing
/// Gregorian date whose year lies in `MIN_YEAR..=MAX_YEAR`.
#[verifier::external_body]
fn date_is_valid(year: i32, month: u32, day: u32) -> (r: bool)
    ensures
        r == (in_range(year as int) && date_exists(year as int, month as int, day as int)),
{
    NaiveDate::from_ymd_opt(year, month, day).is_some()
}

/// Relies on `Datelike::weekday` of `NaiveDate` and `Weekday::number_from_monday`:
/// the day of the week, Monday as 1.
#[verifier::external_body]
fn weekday_number(d: CivilDate) -> (r: u32)
    requires
        in_range(d.year as int),
        d.wf(),
    ensures
        r as int == weekday_from_monday(d.year as int, d.month as int, d.day as int),
{
    NaiveDate::from_ymd_opt(d.year, d.month, d.day).unwrap().weekday().number_from_monday()
}

/// Relies on `NaiveDate::checked_add_months`: the month moves on by `n`, the day is clamped
/// to the last day of the new month, and `None` comes when the result is out of range.
#[verifier::external_body]
fn add_months(d: CivilDate, n: u32) -> (r: Option<CivilDate>)
    requires
        in_range(d.year as int),
        d.wf(),
    ensures
        ({
            let t = d.year * 12 + d.month - 1 + n;
            let y = t / 12;
            let m = t % 12 + 1;
            let last = days_in_month(y, m);
            r == if in_range(y) {
                Some(
                    CivilDate {
                        year: y as i32,
                        month: m as u32,
                        day: if d.day <= last {
                            d.day
                        } else {
                            last as u32
                        },
                    },
                )
            } else {
                None
            }
        }),
{
    let start = NaiveDate::from_ymd_opt(d.year, d.month, d.day).unwrap();
    match start.checked_add_months(Months::new(n)) {
        Some(e) => Some(CivilDate { year: e.year(), month: e.month(), day: e.day() }),
        None => None,
    }
}

/// Relies on `NaiveDate::signed_duration_since` and `TimeDelta::num_days`: the number of
/// days from `b` to `a`.
#[verifier::external_body]
fn days_between(a: CivilDate, b: CivilDate) -> (r: i64)
    requires
        in_range(a.year as int),
        a.wf(),
        in_range(b.year as int),
        b.wf(),
    ensures
        r == day_number(a.year as int, a.month as int, a.day as int) - day_number(
            b.year as int,
            b.month as int,
            b.day as int,
        ),
{
    let a = NaiveDate::from_ymd_opt(a.year, a.month, a.day).unwrap();
    let b = NaiveDate::from_ymd_opt(b.year, b.month, b.day).unwrap();
    a.signed_duration_since(b).num_days()
}

/// `x / d` grows by one exactly when `x` is a multiple of `d`.
proof fn lemma_div_step(x: int, d: int)
    requires
        d > 0,
    ensures
        x / d - (x - 1) / d == if x % d == 0 {
            1int
        } else {
            0int
        },
{
    lemma_fundamental_div_mod(x, d);
    lemma_fundamental_div_mod(x - 1, d);
    let q = x / d;
    let m = x % d;
    assert(x - 1 == (q - 1) * d + (d - 1) + m && x - 1 == q * d + (m - 1)) by (nonlinear_arith)
        requires
            x == d * q + m,
    ;
    if m == 0 {
        lemma_fundamental_div_mod_converse(x - 1, d, q - 1, d - 1);
    } else {
        lemma_fundamental_div_mod_converse(x - 1, d, q, m - 1);
    }
}

/// A year has 365 days, 366 in a leap year.
proof fn lemma_year_length(year: int)
    ensures
        days_before_year(year + 1) - days_before_year(year) == if is_leap(year) {
            366int
        } else {
            365int
        },
{
    lemma_div_step(year, 4);
    lemma_div_step(year, 100);
    lemma_div_step(year, 400);
    lemma_fundamental_div_mod(year, 400);
    lemma_fundamental_div_mod(year, 100);
    lemma_fundamental_div_mod(year, 4);
    if year % 400 == 0 {
        lemma_fundamental_div_mod_converse(year, 100, 4 * (year / 400), 0);
        lemma_fundamental_div_mod_converse(year, 4, 100 * (year / 400), 0);
    } else if year % 100 == 0 {
        lemma_fundamental_div_mod_converse(year, 4, 25 * (year / 100), 0);
    }
}

/// The first of the following month comes `days_in_month` days after the first of this one.
proof fn lemma_month_length(year: int, month: int)
    requires
        1 <= month <= 12,
    ensures
        day_number(following_month(year, month).0, following_month(year, month).1, 1)
            - day_number(year, month, 1) == days_in_month(year, month),
{
    if month == 12 {
        lemma_year_length(year);
        reveal_with_fuel(days_before_month, 12);
    }
}

/// Moving one month on reaches the following month.
proof fn lemma_one_month_on(year: int, month: int)
    requires
        1 <= month <= 12,
    ensures
        (year * 12 + month - 1 + 1) / 12 == following_month(year, month).0,
        (year * 12 + month - 1 + 1) % 12 + 1 == following_month(year, month).1,
{
    if month == 12 {
        lemma_fundamental_div_mod_converse(year * 12 + 12, 12, year + 1, 0);
    } else {
        lemma_fundamental_div_mod_converse(year * 12 + month, 12, year, month);
    }
}

/// The first day of the month of `date`, or `None` when chrono cannot represent it.
pub fn normalize_month(date: &CivilDate) -> (r: Option<CivilDate>)
    ensures
        r == if in_range(date.year as int) && 1 <= date.month <= 12 {
            Some(CivilDate { year: date.year, month: date.month, day: 1 })
        } else {
            None
        },
{
    if date_is_valid(date.year, date.month, 1) {
        Some(CivilDate { year: date.year, month: date.month, day: 1 })
    } else {
        None
    }
}

/// The number of days in the month of `date`, measured from its first day to the first day
/// of the following month.
pub fn get_days_from_month(date: &CivilDate) -> (r: Option<usize>)
    ensures
        r == if month_in_reach(date.year as int, date.month as int) {
            Some(days_in_month(date.year as int, date.month as int) as usize)
        } else {
            None
        },
{
    let first = match normalize_month(date) {
        Some(f) => f,
        None => return None,
    };
    proof {
        lemma_one_month_on(date.year as int, date.month as int);
    }
    let next = match add_months(first, 1) {
        Some(n) => n,
        None => return None,
    };
    proof {
        lemma_month_length(date.year as int, date.month as int);
    }
    let days = days_between(next, first);
    Some(days as usize)
}

/// How many weekdays come before the first of the month of `date` in a Monday-first week.
pub fn get_offset_of_month(date: &CivilDate) -> (r: Option<usize>)
    ensures
        r == if in_range(date.year as int) && 1 <= date.month <= 12 {
            Some((weekday_from_monday(date.year as int, date.month as int, 1) - 1) as usize)
        } else {
            None
        },
{
    let first = match normalize_month(date) {
        Some(f) => f,
        None => return None,
    };
    let weekday = weekday_number(first);
    Some((weekday - 1) as usize)
}

/// The date one month after `date`, its day clamped to the length of that month;
/// `None` for a date that does not exist or a result out of range.
pub fn next_month(date: &CivilDate) -> (r: Option<CivilDate>)
    ensures
        ({
            let (y, m) = following_month(date.year as int, date.month as int);
            let last = days_in_month(y, m);
            r == if in_range(date.year as int) && date.wf() && in_range(y) {
                Some(
                    CivilDate {
                        year: y as i32,
                        month: m as u32,
                        day: if date.day <= last {
                            date.day
                        } else {
                            last as u32
                        },
                    },
                )
            } else {
                None
            }
        }),
{
    if !date_is_valid(date.year, date.month, date.day) {
        return None;
    }
    proof {
        lemma_one_month_on(date.year as int, date.month as int);
    }
    add_months(*date, 1)
}

} // verus!
