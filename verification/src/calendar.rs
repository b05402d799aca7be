//! The calendar behind the UTC stamps: the proleptic Gregorian calendar,
//! stated by its own rules and shown to be the one `civil_from_days` computes.

use vstd::prelude::*;
use crate::control::{civil_from_days, days_from_civil, lemma_civil_date_round_trip, lemma_civil_date_in_range};

verus! {

/// The Gregorian leap rule: every fourth year, but not every hundredth, yet
/// every four hundredth.
pub open spec fn is_leap_year(y: int) -> bool {
    y % 4 == 0 && (y % 100 != 0 || y % 400 == 0)
}

/// The days of month `m` (1 to 12) of year `y`.
pub open spec fn month_length(y: int, m: int) -> int {
    if m == 2 {
        if is_leap_year(y) {
            29
        } else {
            28
        }
    } else if m == 4 || m == 6 || m == 9 || m == 11 {
        30
    } else {
        31
    }
}

/// The days of the years before year `y`, counted from year 0.
pub open spec fn days_before_year(y: nat) -> int
    decreases y,
{
    if y == 0 {
        0
    } else {
        days_before_year((y - 1) as nat) + 365 + if is_leap_year(y - 1) {
            1int
        } else {
            0int
        }
    }
}

/// The days of the months of year `y` before month `m`.
pub open spec fn days_before_month(y: int, m: int) -> int
    decreases m,
{
    if m <= 1 {
        0
    } else {
        days_before_month(y, m - 1) + month_length(y, m - 1)
    }
}

/// Whether `y-m-d` is a date of the calendar.
pub open spec fn is_date(y: int, m: int, d: int) -> bool {
    y >= 0 && 1 <= m <= 12 && 1 <= d <= month_length(y, m)
}

/// The number of the day `y-m-d`, counted by the calendar's rules from
/// 1970-01-01 (which is day 0).
pub open spec fn gregorian_day(y: int, m: int, d: int) -> int {
    days_before_year(y as nat) + days_before_month(y, m) + d - 1 - 719528
}

/// Day `k` of a four-hundred-year era (counted from March 1 of its year 0)
/// on which its year `k` starts.
pub open spec fn era_year_start(k: int) -> int {
    365 * k + k / 4 - k / 100
}

/// The year of the era that day `doe` of the era falls in, as
/// `civil_from_days` computes it.
pub open spec fn year_of_era(doe: int) -> int {
    (doe - doe / 1460 + doe / 36524 - doe / 146096) / 365
}

/// The day, counted from 0000-03-01, on which the March-based year `y` starts.
pub open spec fn march_year_start(y: int) -> int {
    let era = if y >= 0 {
        y
    } else {
        y - 399
    } / 400;
    era * 146097 + era_year_start(y - era * 400)
}

/// Each year of the era is found again from the day it starts on.
proof fn lemma_year_start_maps_to_its_year(k: int)
    requires
        0 <= k <= 399,
    ensures
        0 <= era_year_start(k) < 146097,
        year_of_era(era_year_start(k)) == k,
{
    let c = k / 100;
    let u = k % 100;
    vstd::arithmetic::div_mod::lemma_fundamental_div_mod(k, 100);
    let p = u / 4;
    let r = u % 4;
    vstd::arithmetic::div_mod::lemma_fundamental_div_mod(u, 4);
    assert(0 <= c <= 3 && 0 <= u < 100 && 0 <= p < 25 && 0 <= r < 4);
    let q = 25 * c + p;
    vstd::arithmetic::div_mod::lemma_fundamental_div_mod_converse(k, 4, q, r);
    let s = era_year_start(k);
    assert(s == 1460 * q + 365 * r + 24 * c + p);
    vstd::arithmetic::div_mod::lemma_fundamental_div_mod_converse(s, 1460, q, 365 * r + 24 * c + p);
    vstd::arithmetic::div_mod::lemma_fundamental_div_mod_converse(s, 36524, c, 1461 * p + 365 * r);
    vstd::arithmetic::div_mod::lemma_fundamental_div_mod_converse(s, 146096, 0, s);
    assert(s - s / 1460 + s / 36524 - s / 146096 == 365 * k);
    vstd::arithmetic::div_mod::lemma_fundamental_div_mod_converse(365 * k, 365, k, 0);
}

/// Within an era, year `t` starts 365 days after year `t - 1`, one more when
/// `t` is a fourth year and not a hundredth.
proof fn lemma_era_year_step(t: int)
    requires
        1 <= t <= 399,
    ensures
        era_year_start(t) - era_year_start(t - 1) == 365 + (if t % 4 == 0 {
            1int
        } else {
            0int
        }) - (if t % 100 == 0 {
            1int
        } else {
            0int
        }),
{
    vstd::arithmetic::div_mod::lemma_fundamental_div_mod(t, 4);
    vstd::arithmetic::div_mod::lemma_fundamental_div_mod(t, 100);
    let a = t / 4;
    let b = t % 4;
    if b == 0 {
        vstd::arithmetic::div_mod::lemma_fundamental_div_mod_converse(t - 1, 4, a - 1, 3);
    } else {
        vstd::arithmetic::div_mod::lemma_fundamental_div_mod_converse(t - 1, 4, a, b - 1);
    }
    let e = t / 100;
    let f = t % 100;
    if f == 0 {
        vstd::arithmetic::div_mod::lemma_fundamental_div_mod_converse(t - 1, 100, e - 1, 99);
    } else {
        vstd::arithmetic::div_mod::lemma_fundamental_div_mod_converse(t - 1, 100, e, f - 1);
    }
}

/// A year `t` of an era and the year `era * 400 + t` have the same leap rule.
proof fn lemma_leap_in_era(era: int, t: int)
    requires
        0 <= t < 400,
    ensures
        (era * 400 + t) % 4 == t % 4,
        (era * 400 + t) % 100 == t % 100,
        (era * 400 + t) % 400 == t,
        t % 100 == 0 ==> t % 4 == 0,
{
    vstd::arithmetic::div_mod::lemma_fundamental_div_mod(t, 4);
    vstd::arithmetic::div_mod::lemma_fundamental_div_mod(t, 100);
    vstd::arithmetic::div_mod::lemma_fundamental_div_mod_converse(era * 400 + t, 4, era * 100 + t / 4, t % 4);
    vstd::arithmetic::div_mod::lemma_fundamental_div_mod_converse(era * 400 + t, 100, era * 4 + t / 100, t % 100);
    vstd::arithmetic::div_mod::lemma_fundamental_div_mod_converse(era * 400 + t, 400, era, t);
    if t % 100 == 0 {
        vstd::arithmetic::div_mod::lemma_fundamental_div_mod_converse(t, 4, (t / 100) * 25, 0);
    }
}

/// Each March-based year `y >= 0` starts 365 days after the one before it, one
/// more when the calendar year `y` (whose February it holds) is a leap year.
proof fn lemma_year_step(y: int)
    requires
        y >= 0,
    ensures
        march_year_start(y) - march_year_start(y - 1) == 365 + if is_leap_year(y) {
            1int
        } else {
            0int
        },
{
    if y == 0 {
        assert(march_year_start(-1) == -146097 + era_year_start(399));
    } else {
        let e = y / 400;
        let t = y % 400;
        vstd::arithmetic::div_mod::lemma_fundamental_div_mod(y, 400);
        lemma_leap_in_era(e, t);
        if t == 0 {
            vstd::arithmetic::div_mod::lemma_fundamental_div_mod_converse(y - 1, 400, e - 1, 399);
        } else {
            vstd::arithmetic::div_mod::lemma_fundamental_div_mod_converse(y - 1, 400, e, t - 1);
            lemma_era_year_step(t);
        }
    }
}

/// The March-based year `y - 1` starts where the calendar's count of the years
/// before `y` says, less the 366 days of year 0's March-based predecessor.
proof fn lemma_march_year_start_counts(y: nat)
    ensures
        march_year_start(y - 1) == days_before_year(y) - 366,
    decreases y,
{
    if y == 0 {
        assert(march_year_start(-1) == -146097 + era_year_start(399));
    } else {
        lemma_march_year_start_counts((y - 1) as nat);
        lemma_year_step(y - 1);
    }
}

/// `days_from_civil` counts the days of a date as the calendar does.
proof fn lemma_days_from_civil_counts(y: int, m: int, d: int)
    requires
        y >= 0,
        1 <= m <= 12,
    ensures
        days_from_civil(y, m, d) == gregorian_day(y, m, d),
{
    lemma_march_year_start_counts(y as nat);
    if m >= 3 {
        lemma_year_step(y);
    }
    reveal_with_fuel(days_before_month, 13);
}

/// Each day from 1970-01-01 on is dated by the proleptic Gregorian calendar:
/// the date `civil_from_days` gives for day `days` is a date of the calendar,
/// and counting by the calendar's rules puts it exactly `days` days after
/// 1970-01-01. (Counting is one to one on dates, so this is the only such
/// date.)
pub proof fn lemma_civil_date_is_gregorian(days: nat)
    ensures
        is_date(civil_from_days(days as int).0, civil_from_days(days as int).1, civil_from_days(days as int).2),
        gregorian_day(civil_from_days(days as int).0, civil_from_days(days as int).1, civil_from_days(days as int).2)
            == days,
{
    let z: int = days as int + 719468;
    let era: int = z / 146097;
    let doe: int = z - era * 146097;
    vstd::arithmetic::div_mod::lemma_fundamental_div_mod(z, 146097);
    assert(era >= 4) by (nonlinear_arith)
        requires
            z >= 719468,
            era == z / 146097,
    ;
    assert(0 <= doe < 146097);
    let yoe = year_of_era(doe);
    let doy = doe - era_year_start(yoe);
    crate::control::lemma_day_of_era_year(doe, yoe, doy);
    let mp = (5 * doy + 2) / 153;
    let d = doy - (153 * mp + 2) / 5 + 1;
    crate::control::lemma_month_and_day(doy, mp, d);
    assert(doy < (153 * (mp + 1) + 2) / 5) by (nonlinear_arith)
        requires
            0 <= doy,
            mp == (5 * doy + 2) / 153,
    ;
    let (cy, cm, cd) = civil_from_days(days as int);
    assert(cd == d);
    assert(cy >= 0);
    lemma_civil_date_in_range(days);
    lemma_civil_date_round_trip(days);
    lemma_days_from_civil_counts(cy, cm, cd);
    if mp == 11 && d == 29 {
        // The leap day: the year whose February this is must be a leap year,
        // or the day would start the next year of the era.
        let t = yoe + 1;
        assert(cy == era * 400 + t);
        if t < 400 {
            lemma_leap_in_era(era, t);
            lemma_era_year_step(t);
            if !is_leap_year(cy) {
                assert(era_year_start(t) == doe);
                lemma_year_start_maps_to_its_year(t);
                assert(false);
            }
        } else {
            lemma_leap_in_era(era + 1, 0);
            assert(cy == (era + 1) * 400 + 0);
        }
    }
}

} // verus!
