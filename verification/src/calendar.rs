//! Calendar days as plain numbers: a day is its count of days from the
//! Common Era (0001-01-01 is day 1, a Monday), the numbering that
//! `chrono::Datelike::num_days_from_ce` uses. Only the range of dates that
//! `chrono::NaiveDate` can hold is valid.
use vstd::prelude::*;

verus! {

/// Day number of the earliest date `chrono` represents (-262143-01-01).
pub const MIN_DAY: i32 = -95746129;

/// Day number of the latest date `chrono` represents (262142-12-31).
pub const MAX_DAY: i32 = 95745399;

/// A day number `chrono` can represent.
pub open spec fn valid_day(d: int) -> bool {
    MIN_DAY <= d <= MAX_DAY
}

/// Days since the last Monday: 0 for Monday, 6 for Sunday.
pub open spec fn weekday_from_monday(d: int) -> int {
    (d - 1) % 7
}

/// The Monday on or before day `d`.
pub open spec fn monday_of(d: int) -> int {
    d - weekday_from_monday(d)
}

/// Days since the last Monday, for day `d`.
pub fn num_days_from_monday(d: i32) -> (r: u32)
    ensures
        r as int == weekday_from_monday(d as int),
        r < 7,
{
    let x: i64 = d as i64 - 1;
    if x >= 0 {
        (x % 7) as u32
    } else {
        let q: i64 = (-x) % 7;
        if q == 0 {
            0
        } else {
            (7 - q) as u32
        }
    }
}

/// Monday of the week containing `date`.
pub fn week_start_of(date: i32) -> (r: i32)
    requires
        valid_day(monday_of(date as int)),
        date <= MAX_DAY,
    ensures
        r as int == monday_of(date as int),
        weekday_from_monday(r as int) == 0,
        date - 6 <= r <= date,
{
    let w = num_days_from_monday(date);
    date - (w as i32)
}

/// `d` moved by `delta` days.
pub fn add_days(d: i32, delta: i64) -> (r: i32)
    requires
        valid_day(d + delta),
    ensures
        r == d + delta,
{
    (d as i64 + delta) as i32
}

/// A week runs Monday to Sunday: every day from a Monday to the Sunday
/// after it has that Monday as its week start, and a week start is its own.
pub proof fn law_week_shares_its_monday(d: int, k: int)
    requires
        0 <= k < 7,
    ensures
        monday_of(monday_of(d) + k) == monday_of(d),
        monday_of(monday_of(d)) == monday_of(d),
{
    assert(weekday_from_monday(monday_of(d)) == 0) by {
        assert((d - 1) % 7 >= 0);
        assert(((d - (d - 1) % 7) - 1) % 7 == 0) by (nonlinear_arith);
    }
    assert(weekday_from_monday(monday_of(d) + k) == k) by {
        assert(((d - (d - 1) % 7) + k - 1) % 7 == k) by (nonlinear_arith)
            requires
                0 <= k < 7;
    }
}

} // verus!
