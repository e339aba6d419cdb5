//! Calendar dates as plain values, and the Sundays of a month.

use vstd::prelude::*;
use chrono::Datelike;

verus! {

/// A calendar date without time.
#[derive(Clone, Copy, Debug, PartialEq, Eq, Structural)]
pub struct Date {
    pub year: i32,
    pub month: u32,
    pub day: u32,
}

impl Date {
    /// Chronological order: by year, then month, then day.
    pub open spec fn before_or_on(self, other: Date) -> bool {
        self.year < other.year || (self.year == other.year && (self.month < other.month || (
        self.month == other.month && self.day <= other.day)))
    }

    pub open spec fn strictly_before(self, other: Date) -> bool {
        self.before_or_on(other) && self != other
    }

    /// Whether `self` comes no later than `other`.
    pub fn le(&self, other: &Date) -> (r: bool)
        ensures
            r == self.before_or_on(*other),
    {
        self.year < other.year || (self.year == other.year && (self.month < other.month || (
        self.month == other.month && self.day <= other.day)))
    }
}

pub open spec fn is_leap_year(y: int) -> bool {
    (y % 4 == 0 && y % 100 != 0) || y % 400 == 0
}

/// Days in a month of the proleptic Gregorian calendar.
pub open spec fn days_in_month(y: int, m: int) -> int {
    if m == 2 {
        if is_leap_year(y) { 29 } else { 28 }
    } else if m == 4 || m == 6 || m == 9 || m == 11 {
        30
    } else {
        31
    }
}

/// Whether year, month and day name a day of the proleptic Gregorian calendar.
pub open spec fn valid_ymd(y: int, m: int, d: int) -> bool {
    1 <= m <= 12 && 1 <= d <= days_in_month(y, m)
}

/// The date exists and its year lies in the range that chrono represents.
pub open spec fn date_in_range(y: int, m: int, d: int) -> bool {
    valid_ymd(y, m, d) && -262143 <= y <= 262142
}

/// Days of the year before the first of month `m`.
pub open spec fn days_before_month(y: int, m: int) -> int
    decreases m,
{
    if m <= 1 {
        0
    } else {
        days_before_month(y, m - 1) + days_in_month(y, m - 1)
    }
}

/// How many multiples of `k` lie in [1, y): ceil(y / k) - 1.
pub open spec fn multiples_before(y: int, k: int) -> int {
    -((-y) / k) - 1
}

/// The day count of the proleptic Gregorian calendar, January 1 of year 1 being day 1.
pub open spec fn day_count(y: int, m: int, d: int) -> int {
    days_before_month(y, m) + d + 365 * (y - 1) + multiples_before(y, 4) - multiples_before(y, 100)
        + multiples_before(y, 400)
}

/// Day of the week of a date, counted from Sunday as 0 (day 1 was a Monday); none where
/// the date does not exist or lies out of range.
pub open spec fn weekday_lookup(y: int, m: int, d: int) -> Option<int> {
    if date_in_range(y, m, d) {
        Some(day_count(y, m, d) % 7)
    } else {
        None
    }
}

/// Relies on chrono's NaiveDate::from_ymd_opt, which gives no date for a day that does not
/// exist or a year outside MIN_YEAR..=MAX_YEAR, and on Datelike::weekday with
/// Weekday::num_days_from_sunday.
#[verifier::external_body]
fn weekday_from_sunday(year: i32, month: u32, day: u32) -> (r: Option<u32>)
    ensures
        weekday_lookup(year as int, month as int, day as int) == match r {
            Some(w) => Some(w as int),
            None => None::<int>,
        },
        r is Some ==> valid_ymd(year as int, month as int, day as int),
        r matches Some(w) ==> w < 7,
{
    match chrono::NaiveDate::from_ymd_opt(year, month, day) {
        Some(d) => Some(d.weekday().num_days_from_sunday()),
        None => None,
    }
}

/// The ISO week-numbering year and week of a date; none where the date does not exist.
pub uninterp spec fn iso_week_lookup(y: int, m: int, d: int) -> Option<(int, int)>;

/// Relies on chrono's NaiveDate::from_ymd_opt and Datelike::iso_week, whose IsoWeek gives
/// the week-numbering year and the week, 1 to 53.
#[verifier::external_body]
pub(crate) fn iso_week_of(date: Date) -> (r: Option<(i32, u32)>)
    ensures
        iso_week_lookup(date.year as int, date.month as int, date.day as int) == match r {
            Some(w) => Some((w.0 as int, w.1 as int)),
            None => None::<(int, int)>,
        },
        r matches Some(w) ==> 1 <= w.1 <= 53,
{
    match chrono::NaiveDate::from_ymd_opt(date.year, date.month, date.day) {
        Some(d) => Some((d.iso_week().year(), d.iso_week().week())),
        None => None,
    }
}

/// The Sundays among days 1 to `k` of a month, in order.
pub open spec fn sundays_through(y: int, m: int, k: int) -> Seq<Date>
    decreases k,
{
    if k <= 0 {
        seq![]
    } else {
        let before = sundays_through(y, m, k - 1);
        if weekday_lookup(y, m, k) == Some(0int) {
            before.push(Date { year: y as i32, month: m as u32, day: k as u32 })
        } else {
            before
        }
    }
}

/// Every Sunday of a month, in order.
pub open spec fn sundays_in(y: int, m: int) -> Seq<Date> {
    sundays_through(y, m, 31)
}

/// Every Sunday of the month, in chronological order.
pub fn sundays_of_month(year: i32, month: u32) -> (r: Vec<Date>)
    ensures
        r@ == sundays_in(year as int, month as int),
        forall|i: int|
            0 <= i < r@.len() ==> {
                &&& r@[i].year == year
                &&& r@[i].month == month
                &&& valid_ymd(year as int, month as int, r@[i].day as int)
                &&& weekday_lookup(year as int, month as int, r@[i].day as int) == Some(0int)
            },
        forall|i: int, j: int| 0 <= i < j < r@.len() ==> r@[i].day < r@[j].day,
{
    let mut r: Vec<Date> = Vec::new();
    let mut day: u32 = 1;
    while day <= 31
        invariant
            1 <= day <= 32,
            r@ == sundays_through(year as int, month as int, day - 1),
            forall|i: int|
                0 <= i < r@.len() ==> {
                    &&& r@[i].year == year
                    &&& r@[i].month == month
                    &&& valid_ymd(year as int, month as int, r@[i].day as int)
                    &&& weekday_lookup(year as int, month as int, r@[i].day as int) == Some(0int)
                    &&& r@[i].day < day
                },
            forall|i: int, j: int| 0 <= i < j < r@.len() ==> r@[i].day < r@[j].day,
        decreases 32 - day,
    {
        let w = weekday_from_sunday(year, month, day);
        if let Some(k) = w {
            if k == 0 {
                r.push(Date { year, month, day });
            }
        }
        day += 1;
    }
    r
}

/// How many Sundays the month has.
pub fn count_sundays_in_month(year: i32, month: u32) -> (r: u32)
    ensures
        r == sundays_in(year as int, month as int).len(),
{
    let s = sundays_of_month(year, month);
    proof {
        assert(s@.len() <= 31) by {
            if s@.len() > 31 {
                assert forall|i: int| 0 <= i < s@.len() implies s@[i].day >= i + 1 by {
                    lemma_days_grow(s@, i);
                }
                assert(s@[s@.len() - 1].day >= s@.len());
            }
        }
    }
    s.len() as u32
}

proof fn lemma_days_grow(s: Seq<Date>, i: int)
    requires
        0 <= i < s.len(),
        forall|k: int| 0 <= k < s.len() ==> s[k].day >= 1,
        forall|a: int, b: int| 0 <= a < b < s.len() ==> s[a].day < s[b].day,
    ensures
        s[i].day >= i + 1,
    decreases i,
{
    if i > 0 {
        lemma_days_grow(s, i - 1);
    }
}

/// The English name of a month; "Unknown" outside 1 to 12.
pub fn month_name(month: u32) -> (r: String)
    ensures
        r@ == match month {
            1 => "January"@,
        2 => "February"@,
        3 => "March"@,
        4 => "April"@,
        5 => "May"@,
        6 => "June"@,
        7 => "July"@,
        8 => "August"@,
        9 => "September"@,
        10 => "October"@,
        11 => "November"@,
        12 => "December"@,
            _ => "Unknown"@,
        },
{
    match month {
        1 => String::from_str("January"),
        2 => String::from_str("February"),
        3 => String::from_str("March"),
        4 => String::from_str("April"),
        5 => String::from_str("May"),
        6 => String::from_str("June"),
        7 => String::from_str("July"),
        8 => String::from_str("August"),
        9 => String::from_str("September"),
        10 => String::from_str("October"),
        11 => String::from_str("November"),
        12 => String::from_str("December"),
        _ => String::from_str("Unknown"),
    }
}

} // verus!
