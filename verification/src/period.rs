//! Quarters and years: the compact key of a moment, and the label of a key.

use crate::text::{decimal, law_decimal, push_decimal, push_text};
use chrono::{Datelike, TimeZone};
use vstd::prelude::*;

verus! {

/// Whether `year` is a leap year of the Gregorian calendar.
pub open spec fn is_leap(year: int) -> bool {
    year % 4 == 0 && (year % 100 != 0 || year % 400 == 0)
}

/// The days from the first of January of the year 1 to that of `year`.
pub open spec fn days_before_year(year: int) -> int {
    365 * (year - 1) + (year - 1) / 4 - (year - 1) / 100 + (year - 1) / 400
}

/// The days of `year` before its month `month`, where January is 0. Month 12
/// stands for the year's end.
pub open spec fn days_before_month(year: int, month: int) -> int {
    let common = if month <= 0 {
        0int
    } else if month == 1 {
        31
    } else if month == 2 {
        59
    } else if month == 3 {
        90
    } else if month == 4 {
        120
    } else if month == 5 {
        151
    } else if month == 6 {
        181
    } else if month == 7 {
        212
    } else if month == 8 {
        243
    } else if month == 9 {
        273
    } else if month == 10 {
        304
    } else if month == 11 {
        334
    } else {
        365
    };
    if month >= 2 && is_leap(year) {
        common + 1
    } else {
        common
    }
}

/// The Unix time at which a month starts in UTC.
pub open spec fn month_start(year: int, month: int) -> int {
    86400 * (days_before_year(year) + days_before_month(year, month) - days_before_year(1970))
}

/// The first and the last year that have a key.
pub const FIRST_YEAR: i32 = -262143;

pub const LAST_YEAR: i32 = 262142;

/// Whether the moment `ts` lies in the given month.
pub open spec fn in_month(ts: int, year: int, month: int) -> bool {
    &&& FIRST_YEAR <= year <= LAST_YEAR
    &&& 0 <= month < 12
    &&& month_start(year, month) <= ts < month_start(year, month + 1)
}

/// Whether the moment `ts` lies in a year that has a key.
pub open spec fn in_calendar(ts: int) -> bool {
    month_start(FIRST_YEAR as int, 0) <= ts < month_start(LAST_YEAR + 1, 0)
}

/// `chrono`'s `Utc.timestamp_opt`, with `Datelike::year` and
/// `Datelike::month0` of the moment that it returns: the month of the
/// proleptic Gregorian calendar that holds `ts` seconds of Unix time, and
/// nothing exactly where the year would be out of the range of `NaiveDate`.
#[verifier::external_body]
fn utc_month(ts: i64) -> (r: Option<(i32, u32)>)
    ensures
        r matches Some(m) ==> in_month(ts as int, m.0 as int, m.1 as int),
        r is Some <==> in_calendar(ts as int),
{
    match chrono::Utc.timestamp_opt(ts, 0) {
        chrono::LocalResult::Single(dt) => Some((dt.year(), dt.month0())),
        _ => None,
    }
}

/// The key of a month: four to the year, one to the quarter. With `yearly` the
/// quarter is left out.
pub open spec fn month_key(year: int, month: int, yearly: bool) -> int {
    4 * year + (if yearly {
        0
    } else {
        month / 3
    })
}

/// The month that holds `ts`.
pub open spec fn month_of(ts: int) -> (int, int) {
    choose|year: int, month: int| #[trigger] in_month(ts, year, month)
}

/// The key of the moment `ts`, with `i32::MIN` for a moment that has none.
pub open spec fn period_of(ts: int, yearly: bool) -> int {
    if in_calendar(ts) {
        month_key(month_of(ts).0, month_of(ts).1, yearly)
    } else {
        i32::MIN as int
    }
}

proof fn lemma_year_step(year: int)
    ensures
        days_before_year(year + 1) == days_before_year(year) + 365 + (if is_leap(year) {
            1int
        } else {
            0
        }),
{
    let y = year;
    assert(y / 4 - (y - 1) / 4 == (if y % 4 == 0 { 1int } else { 0 }));
    assert(y / 100 - (y - 1) / 100 == (if y % 100 == 0 { 1int } else { 0 }));
    assert(y / 400 - (y - 1) / 400 == (if y % 400 == 0 { 1int } else { 0 }));
}

proof fn lemma_years_in_order(a: int, b: int)
    requires
        a <= b,
    ensures
        days_before_year(a) <= days_before_year(b),
    decreases b - a,
{
    if a < b {
        lemma_years_in_order(a, b - 1);
        lemma_year_step(b - 1);
    }
}

/// Months that come later start later: a month ends no later than any month
/// after it starts.
proof fn lemma_months_in_order(y1: int, m1: int, y2: int, m2: int)
    requires
        0 <= m1 < 12,
        0 <= m2 < 12,
        y1 < y2 || (y1 == y2 && m1 < m2),
    ensures
        month_start(y1, m1 + 1) <= month_start(y2, m2),
{
    if y1 < y2 {
        lemma_year_step(y1);
        lemma_years_in_order(y1 + 1, y2);
    }
}

/// A moment lies in one month only.
pub proof fn lemma_month_of(ts: int, year: int, month: int)
    requires
        in_month(ts, year, month),
    ensures
        in_calendar(ts),
        month_of(ts) == (year, month),
{
    let (y, m) = month_of(ts);
    assert(in_month(ts, y, m));
    if y < year || (y == year && m < month) {
        lemma_months_in_order(y, m, year, month);
    } else if year < y || (year == y && month < m) {
        lemma_months_in_order(year, month, y, m);
    }
    if FIRST_YEAR < year || 0 < month {
        lemma_months_in_order(FIRST_YEAR as int, 0, year, month);
    }
    lemma_months_in_order(year, month, LAST_YEAR + 1, 0);
}

/// The compact key of a Unix timestamp: `year * 4 + quarter` with the quarter
/// counted from 0, or `year * 4` with `yearly`. A timestamp out of the
/// calendar's range has the key `i32::MIN`.
pub fn ts_to_period_int(ts: i64, yearly: bool) -> (r: i32)
    ensures
        r == period_of(ts as int, yearly),
        forall|year: int, month: int| #[trigger]
            in_month(ts as int, year, month) ==> r == month_key(year, month, yearly),
        r == i32::MIN <==> !in_calendar(ts as int),
{
    match utc_month(ts) {
        Some((year, month)) => {
            proof {
                lemma_month_of(ts as int, year as int, month as int);
                assert forall|y: int, m: int| #[trigger] in_month(ts as int, y, m) implies y == year
                    && m == month by {
                    lemma_month_of(ts as int, y, m);
                }
            }
            let quarter: i32 = if yearly {
                0
            } else {
                (month / 3) as i32
            };
            year * 4 + quarter
        },
        None => {
            proof {
                assert forall|y: int, m: int| #[trigger] in_month(ts as int, y, m) implies false by {
                    lemma_month_of(ts as int, y, m);
                }
            }
            i32::MIN
        },
    }
}

/// The label of a key: its year, and, counted from 1, its quarter.
pub open spec fn period_text(p: int, yearly: bool) -> Seq<char> {
    if p == i32::MIN {
        "unknown"@
    } else if yearly {
        decimal(p / 4)
    } else {
        decimal(p / 4) + "-Q"@ + decimal(p % 4 + 1)
    }
}

/// The label of a key: `2019-Q3`, or `2019` with `yearly`, or `unknown`.
pub fn period_int_to_string(p: i32, yearly: bool) -> (r: String)
    ensures
        r@ == period_text(p as int, yearly),
{
    let mut r = String::new();
    if p == i32::MIN {
        push_text(&mut r, "unknown");
        assert(r@ =~= "unknown"@);
        return r;
    }
    let key = p as i64;
    let year: i64 = if key >= 0 {
        key / 4
    } else {
        -((3 - key) / 4)
    };
    push_decimal(&mut r, year);
    assert(r@ =~= decimal(p as int / 4));
    if !yearly {
        push_text(&mut r, "-Q");
        push_decimal(&mut r, key - 4 * year + 1);
    }
    r
}

proof fn lemma_year_exists(ts: int, lo: int, hi: int) -> (year: int)
    requires
        lo < hi,
        month_start(lo, 0) <= ts < month_start(hi, 0),
    ensures
        lo <= year < hi,
        month_start(year, 0) <= ts < month_start(year + 1, 0),
    decreases hi - lo,
{
    if lo < hi - 1 && ts < month_start(hi - 1, 0) {
        lemma_year_exists(ts, lo, hi - 1)
    } else {
        hi - 1
    }
}

/// Every moment of the calendar lies in a month.
pub proof fn lemma_month_exists(ts: int)
    requires
        in_calendar(ts),
    ensures
        in_month(ts, month_of(ts).0, month_of(ts).1),
{
    let year = lemma_year_exists(ts, FIRST_YEAR as int, LAST_YEAR + 1);
    lemma_year_step(year);
    let month = if ts < month_start(year, 1) {
        0int
    } else if ts < month_start(year, 2) {
        1
    } else if ts < month_start(year, 3) {
        2
    } else if ts < month_start(year, 4) {
        3
    } else if ts < month_start(year, 5) {
        4
    } else if ts < month_start(year, 6) {
        5
    } else if ts < month_start(year, 7) {
        6
    } else if ts < month_start(year, 8) {
        7
    } else if ts < month_start(year, 9) {
        8
    } else if ts < month_start(year, 10) {
        9
    } else if ts < month_start(year, 11) {
        10
    } else {
        11
    };
    assert(in_month(ts, year, month));
}

/// Keys sort as the moments they stand for, by quarter and by year, and the
/// key of a moment that has none sorts before all of them.
pub proof fn law_keys_in_order(a: int, b: int, yearly: bool)
    ensures
        in_calendar(a) && in_calendar(b) && a <= b ==> period_of(a, yearly) <= period_of(
            b,
            yearly,
        ),
        !in_calendar(a) && in_calendar(b) ==> period_of(a, yearly) < period_of(b, yearly),
{
    if in_calendar(b) {
        lemma_month_exists(b);
        if in_calendar(a) && a <= b {
            lemma_month_exists(a);
            let (y1, m1) = month_of(a);
            let (y2, m2) = month_of(b);
            if y2 < y1 || (y2 == y1 && m2 < m1) {
                lemma_months_in_order(y2, m2, y1, m1);
            }
        }
    }
}

/// Two moments have one key exactly where they lie in one quarter of one year,
/// or, with `yearly`, in one year.
pub proof fn law_key_is_period(a: int, b: int, yearly: bool)
    requires
        in_calendar(a),
        in_calendar(b),
    ensures
        period_of(a, yearly) == period_of(b, yearly) <==> month_of(a).0 == month_of(b).0 && (yearly
            || month_of(a).1 / 3 == month_of(b).1 / 3),
{
    lemma_month_exists(a);
    lemma_month_exists(b);
}

/// The label of a moment's key names the moment's year and, counted from 1,
/// its quarter.
pub proof fn law_label_names_period(ts: int, year: int, month: int)
    requires
        in_month(ts, year, month),
    ensures
        period_text(period_of(ts, true), true) == decimal(year),
        period_text(period_of(ts, false), false) == decimal(year) + "-Q"@ + decimal(month / 3 + 1),
{
    lemma_month_of(ts, year, month);
}

/// The key of a moment is four times its year and, unless years are wanted, the
/// number of its quarter, counted from 0. A moment out of the calendar has the
/// least key.
pub proof fn law_key_of_a_moment(ts: int, year: int, month: int)
    ensures
        in_month(ts, year, month) ==> period_of(ts, true) == 4 * year,
        in_month(ts, year, month) && month < 3 ==> period_of(ts, false) == 4 * year,
        in_month(ts, year, month) && 3 <= month < 6 ==> period_of(ts, false) == 4 * year + 1,
        in_month(ts, year, month) && 6 <= month < 9 ==> period_of(ts, false) == 4 * year + 2,
        in_month(ts, year, month) && 9 <= month ==> period_of(ts, false) == 4 * year + 3,
        !in_calendar(ts) ==> period_of(ts, true) == -0x8000_0000 && period_of(ts, false)
            == -0x8000_0000,
{
    if in_month(ts, year, month) {
        lemma_month_of(ts, year, month);
    }
}

/// The months follow one another from the start of 1970 on, each as long as it is
/// in the Gregorian calendar.
pub proof fn law_calendar(year: int, month: int)
    requires
        0 <= month < 12,
    ensures
        month_start(1970, 0) == 0,
        month_start(year, 12) == month_start(year + 1, 0),
        month_start(year, month + 1) - month_start(year, month) == 86400 * (if month == 1 {
            if year % 400 == 0 || (year % 4 == 0 && year % 100 != 0) {
                29int
            } else {
                28
            }
        } else if month == 3 || month == 5 || month == 8 || month == 10 {
            30
        } else {
            31
        }),
{
    lemma_year_step(year);
}

/// The label of a key is its year, and, unless years are wanted, "-Q" and its
/// quarter, counted from 1. The least key has the label "unknown".
pub proof fn law_label_of_a_key(year: int, quarter: int)
    requires
        0 <= quarter < 4,
        4 * year + quarter > i32::MIN,
    ensures
        period_text(4 * year + quarter, true) == decimal(year),
        period_text(4 * year + quarter, false) == decimal(year) + seq!['-', 'Q'] + seq![
            "1234"@[quarter],
        ],
        period_text(i32::MIN as int, true) == "unknown"@,
        period_text(i32::MIN as int, false) == "unknown"@,
{
    reveal_strlit("-Q");
    reveal_strlit("1234");
    reveal_strlit("0123456789");
    let key = 4 * year + quarter;
    assert(key / 4 == year && key % 4 == quarter);
    law_decimal(1, quarter + 1);
    assert("-Q"@ =~= seq!['-', 'Q']);
}

/// A moment of the calendar lies in one month, and months are counted from 0 to 11.
pub proof fn law_one_month(ts: int, y1: int, m1: int, y2: int, m2: int)
    requires
        in_month(ts, y1, m1),
        in_month(ts, y2, m2),
    ensures
        y1 == y2 && m1 == m2,
        0 <= m1 < 12,
        month_start(y1, m1) <= ts < month_start(y1, m1 + 1),
        in_calendar(ts),
{
    lemma_month_of(ts, y1, m1);
    lemma_month_of(ts, y2, m2);
}

} // verus!
