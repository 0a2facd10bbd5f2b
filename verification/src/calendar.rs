//! Times as dates of the Gregorian calendar.

use vstd::arithmetic::div_mod::{
    lemma_div_nonincreasing, lemma_div_pos_is_pos, lemma_fundamental_div_mod,
    lemma_fundamental_div_mod_converse, lemma_mod_bound,
};
use vstd::prelude::*;
use vstd::string::*;

use crate::text::{padded, padded_of};

verus! {

/// The year has a 29 February.
pub open spec fn leap(y: int) -> bool {
    y % 4 == 0 && (y % 100 != 0 || y % 400 == 0)
}

/// How many days the month has.
pub open spec fn month_len(y: int, m: int) -> int {
    if m == 2 {
        if leap(y) {
            29
        } else {
            28
        }
    } else if m == 4 || m == 6 || m == 9 || m == 11 {
        30
    } else {
        31
    }
}

/// The year, month and day are a date.
pub open spec fn is_date(y: int, m: int, d: int) -> bool {
    1 <= m <= 12 && 1 <= d <= month_len(y, m)
}

/// The days of the year before the month.
pub open spec fn days_before_month(y: int, m: int) -> int
    decreases m,
{
    if m <= 1 {
        0
    } else {
        days_before_month(y, m - 1) + month_len(y, m - 1)
    }
}

/// The days from 1 January of year 1 to 1 January of year `y`.
pub open spec fn days_before_year(y: int) -> int {
    365 * (y - 1) + (y - 1) / 4 - (y - 1) / 100 + (y - 1) / 400
}

/// The days from 1 January 1970 to the date.
pub open spec fn day_number(y: int, m: int, d: int) -> int {
    days_before_year(y) - days_before_year(1970) + days_before_month(y, m) + d - 1
}

proof fn lemma_month_starts(y: int)
    ensures
        ({
            let f = if leap(y) {
                29int
            } else {
                28int
            };
            &&& days_before_month(y, 1) == 0
            &&& days_before_month(y, 2) == 31
            &&& days_before_month(y, 3) == 31 + f
            &&& days_before_month(y, 4) == 62 + f
            &&& days_before_month(y, 5) == 92 + f
            &&& days_before_month(y, 6) == 123 + f
            &&& days_before_month(y, 7) == 153 + f
            &&& days_before_month(y, 8) == 184 + f
            &&& days_before_month(y, 9) == 215 + f
            &&& days_before_month(y, 10) == 245 + f
            &&& days_before_month(y, 11) == 276 + f
            &&& days_before_month(y, 12) == 306 + f
        }),
{
    reveal_with_fuel(days_before_month, 13);
}

/// How the quotients in the number of days change from year to year.
proof fn lemma_quarters(y: int)
    ensures
        y / 4 == (y - 1) / 4 + if y % 4 == 0 {
            1int
        } else {
            0int
        },
        y / 100 == (y - 1) / 100 + if y % 100 == 0 {
            1int
        } else {
            0int
        },
        y / 400 == (y - 1) / 400 + if y % 400 == 0 {
            1int
        } else {
            0int
        },
        y % 100 == 0 ==> y % 4 == 0,
        y % 400 == 0 ==> y % 100 == 0,
{
}

proof fn lemma_year_len(y: int)
    ensures
        days_before_year(y + 1) == days_before_year(y) + if leap(y) {
            366int
        } else {
            365int
        },
{
    lemma_quarters(y);
}

proof fn lemma_years_grow(a: int, b: int)
    requires
        a < b,
    ensures
        days_before_year(b) >= days_before_year(a) + if leap(a) {
            366int
        } else {
            365int
        },
    decreases b - a,
{
    lemma_year_len(a);
    if a + 1 < b {
        lemma_years_grow(a + 1, b);
    }
}

/// The day of the year of a date is below the length of the year, and later months come
/// later.
proof fn lemma_day_of_year(y: int, m: int, d: int)
    requires
        is_date(y, m, d),
    ensures
        0 <= days_before_month(y, m) + d - 1 < if leap(y) {
            366int
        } else {
            365int
        },
{
    lemma_month_starts(y);
}

proof fn lemma_months_grow(y: int, a: int, b: int)
    requires
        1 <= a < b <= 12,
    ensures
        days_before_month(y, b) >= days_before_month(y, a) + month_len(y, a),
    decreases b - a,
{
    if a + 1 < b {
        lemma_months_grow(y, a + 1, b);
        assert(days_before_month(y, a + 1) == days_before_month(y, a) + month_len(y, a));
    }
}

/// Two dates with the same day number are the same date.
pub proof fn law_one_date(y1: int, m1: int, d1: int, y2: int, m2: int, d2: int)
    requires
        is_date(y1, m1, d1),
        is_date(y2, m2, d2),
        day_number(y1, m1, d1) == day_number(y2, m2, d2),
    ensures
        y1 == y2,
        m1 == m2,
        d1 == d2,
{
    lemma_day_of_year(y1, m1, d1);
    lemma_day_of_year(y2, m2, d2);
    if y1 < y2 {
        lemma_years_grow(y1, y2);
    } else if y2 < y1 {
        lemma_years_grow(y2, y1);
    } else {
        if m1 < m2 {
            lemma_months_grow(y1, m1, m2);
        } else if m2 < m1 {
            lemma_months_grow(y1, m2, m1);
        }
    }
}

/// The greatest number that, taken `b` times, is `a` at most.
fn floor_div(a: i64, b: i64) -> (r: i64)
    requires
        b > 0,
    ensures
        r == a as int / b as int,
{
    if a >= 0 {
        (a as u64 / b as u64) as i64
    } else {
        let n = (-1 - a) as u64 / b as u64;
        proof {
            let p = -1 - a;
            let q = p / b as int;
            assert(n == q);
            lemma_fundamental_div_mod(p, b as int);
            lemma_mod_bound(p, b as int);
            lemma_div_pos_is_pos(p, b as int);
            lemma_div_nonincreasing(p, b as int);
            let c = b as int;
            assert((-1 - q) * c == -c - c * q) by (nonlinear_arith);
            lemma_fundamental_div_mod_converse(
                a as int,
                b as int,
                -1 - q,
                b as int - 1 - p % (b as int),
            );
        }
        -1 - (n as i64)
    }
}

/// What is left of `a` after the greatest number of times that `b` goes into it.
fn floor_mod(a: i64, b: i64) -> (r: i64)
    requires
        b > 0,
    ensures
        r == a as int % b as int,
{
    if a >= 0 {
        (a as u64 % b as u64) as i64
    } else {
        let n = (-1 - a) as u64 % b as u64;
        proof {
            let p = -1 - a;
            let c = b as int;
            let q = p / c;
            lemma_fundamental_div_mod(p, c);
            lemma_mod_bound(p, c);
            assert((-1 - q) * c == -c - c * q) by (nonlinear_arith);
            lemma_fundamental_div_mod_converse(a as int, c, -1 - q, c - 1 - p % c);
        }
        b - 1 - (n as i64)
    }
}

/// A date.
#[derive(Debug, Clone, Copy, PartialEq, Eq, Structural)]
pub struct Date {
    /// The year.
    pub year: i64,
    /// The month, from 1 to 12.
    pub month: i64,
    /// The day of the month, from 1.
    pub day: i64,
}

/// The days from 1 March of year 0 to 1 March of year `y`.
spec fn march_days(y: int) -> int {
    365 * y + y / 4 - y / 100 + y / 400
}

proof fn lemma_march_era(era: int, k: int)
    requires
        0 <= k < 400,
    ensures
        march_days(400 * era + k) == 146097 * era + 365 * k + k / 4 - k / 100,
{
    let y = 400 * era + k;
    assert(y / 4 == 100 * era + k / 4);
    assert(y / 100 == 4 * era + k / 100);
    assert(y / 400 == era);
}

/// Where the months begin in a year that begins with March, by their place in it.
spec fn march_month(mp: int) -> int {
    (153 * mp + 2) / 5
}

proof fn lemma_march_months(doy: int)
    requires
        0 <= doy <= 365,
    ensures
        0 <= (5 * doy + 2) / 153 <= 11,
        march_month((5 * doy + 2) / 153) <= doy,
        (5 * doy + 2) / 153 < 11 ==> doy < march_month((5 * doy + 2) / 153 + 1),
        march_month(0) == 0,
        march_month(1) == 31,
        march_month(2) == 61,
        march_month(3) == 92,
        march_month(4) == 122,
        march_month(5) == 153,
        march_month(6) == 184,
        march_month(7) == 214,
        march_month(8) == 245,
        march_month(9) == 275,
        march_month(10) == 306,
        march_month(11) == 337,
{
    let mp = (5 * doy + 2) / 153;
    assert(0 <= mp <= 11);
    assert(153 * mp <= 5 * doy + 2 < 153 * (mp + 1));
}

/// The day `doy` of the year that begins with March of year `y` is the day of the month
/// that these numbers give.
proof fn lemma_march_date(y: int, doy: int, mp: int, d: int, m: int, year: int)
    requires
        0 <= doy <= 365,
        doy == 365 ==> leap(y + 1),
        mp == (5 * doy + 2) / 153,
        d == doy - march_month(mp) + 1,
        m == if mp < 10 {
            mp + 3
        } else {
            mp - 9
        },
        year == if m <= 2 {
            y + 1
        } else {
            y
        },
    ensures
        is_date(year, m, d),
        day_number(year, m, d) == day_number(y, 3, 1) + doy,
{
    lemma_march_months(doy);
    lemma_month_starts(y);
    lemma_month_starts(y + 1);
    lemma_year_len(y);
    if mp < 10 {
        assert(is_date(year, m, d));
    }
}

proof fn lemma_march_year(y: int)
    ensures
        day_number(y, 3, 1) == march_days(y) - 719468,
{
    lemma_month_starts(y);
    lemma_quarters(y);
    assert(days_before_year(1970) == 719162);
}

/// A year of an era ends before the next begins, and only a year that ends in the
/// February of a leap year has 366 days.
proof fn lemma_march_last(era: int, k: int, doe: int)
    requires
        0 <= k <= 399,
        0 <= doe < 146097,
        365 * k + k / 4 - k / 100 <= doe,
        k < 399 ==> doe < 365 * (k + 1) + (k + 1) / 4 - (k + 1) / 100,
    ensures
        0 <= doe - (365 * k + k / 4 - k / 100) <= 365,
        doe - (365 * k + k / 4 - k / 100) == 365 ==> leap(400 * era + k + 1),
{
    let n = k + 1;
    let y = 400 * era + n;
    assert(y % 4 == n % 4);
    assert(y % 100 == n % 100);
    assert(y % 400 == n % 400);
}

/// The date that is `days` days after 1 January 1970.
pub fn civil_date(days: i64) -> (r: Date)
    requires
        -0x1000_0000_0000_0000 < days < 0x1000_0000_0000_0000,
    ensures
        is_date(r.year as int, r.month as int, r.day as int),
        day_number(r.year as int, r.month as int, r.day as int) == days,
{
    let z = days + 719_468;
    let era = floor_div(z, 146_097);
    let doe = z - era * 146_097;
    let mut yoe: i64 = doe / 366;
    assert(365 * yoe + yoe / 4 - yoe / 100 <= doe);
    while yoe < 399 && 365 * (yoe + 1) + (yoe + 1) / 4 - (yoe + 1) / 100 <= doe
        invariant
            0 <= doe < 146_097,
            0 <= yoe <= 399,
            365 * yoe + yoe / 4 - yoe / 100 <= doe,
        decreases 399 - yoe,
    {
        yoe += 1;
    }
    let doy = doe - (365 * yoe + yoe / 4 - yoe / 100);
    proof {
        lemma_march_era(era as int, yoe as int);
        lemma_march_last(era as int, yoe as int, doe as int);
        lemma_march_months(doy as int);
        lemma_march_year(yoe + era * 400);
    }
    let mp = (5 * doy + 2) / 153;
    let d = doy - (153 * mp + 2) / 5 + 1;
    let m = if mp < 10 {
        mp + 3
    } else {
        mp - 9
    };
    let march_year = yoe + era * 400;
    let y = if m <= 2 {
        march_year + 1
    } else {
        march_year
    };
    proof {
        lemma_march_date(
            march_year as int,
            doy as int,
            mp as int,
            d as int,
            m as int,
            y as int,
        );
    }
    Date { year: y, month: m, day: d }
}

/// The date of a day number.
pub open spec fn date_of(days: int) -> (int, int, int) {
    choose|t: (int, int, int)| #[trigger] dates(days, t)
}

/// The date `t` has the day number `days`.
pub open spec fn dates(days: int, t: (int, int, int)) -> bool {
    is_date(t.0, t.1, t.2) && day_number(t.0, t.1, t.2) == days
}

/// The date and the time of day as `YYYY-MM-DD HH:MM:SS`.
pub open spec fn stamp_text(date: (int, int, int), second: int) -> Seq<char> {
    padded(date.0, 4) + "-"@ + padded(date.1, 2) + "-"@ + padded(date.2, 2) + " "@ + padded(
        second / 3600,
        2,
    ) + ":"@ + padded(second % 3600 / 60, 2) + ":"@ + padded(second % 60, 2)
}

/// The time `secs` seconds after the epoch, in UTC.
pub open spec fn stamp(secs: int) -> Seq<char> {
    stamp_text(date_of(secs / 86400), secs % 86400)
}

/// The time `secs` seconds after the epoch as `YYYY-MM-DD HH:MM:SS`, in UTC.
pub fn format_epoch(secs: i64) -> (r: String)
    ensures
        r@ == stamp(secs as int),
{
    let days = floor_div(secs, 86_400);
    let rem = floor_mod(secs, 86_400);
    let date = civil_date(days);
    proof {
        let t = (date.year as int, date.month as int, date.day as int);
        assert(dates(days as int, t));
        let u = date_of(days as int);
        assert(dates(days as int, u));
        law_one_date(t.0, t.1, t.2, u.0, u.1, u.2);
        assert(rem == secs as int % 86400);
    }
    let mut s = padded_of(date.year, 4);
    s.append("-");
    s.append(padded_of(date.month, 2).as_str());
    s.append("-");
    s.append(padded_of(date.day, 2).as_str());
    s.append(" ");
    s.append(padded_of(rem / 3600, 2).as_str());
    s.append(":");
    s.append(padded_of(rem % 3600 / 60, 2).as_str());
    s.append(":");
    s.append(padded_of(rem % 60, 2).as_str());
    s
}

/// The time in the stamp of a date is the time of the day: every date of which the day
/// number is that of `secs` gives the stamp of `secs`.
pub proof fn law_stamp(secs: int, y: int, m: int, d: int)
    requires
        is_date(y, m, d),
        day_number(y, m, d) == secs / 86400,
    ensures
        stamp(secs) == stamp_text((y, m, d), secs % 86400),
{
    assert(dates(secs / 86400, (y, m, d)));
    let u = date_of(secs / 86400);
    law_one_date(y, m, d, u.0, u.1, u.2);
}

/// The days follow one another: the day after a date has the next number, within a month,
/// from the last of a month to the first of the next, and from 31 December to 1 January.
/// The first day is 1 January 1970.
pub proof fn law_next_day(y: int, m: int, d: int)
    requires
        1 <= m <= 12,
        1 <= d,
    ensures
        day_number(1970, 1, 1) == 0,
        is_date(y, m, d + 1) ==> is_date(y, m, d) && day_number(y, m, d + 1) == day_number(y, m, d)
            + 1,
        is_date(y, m, d) && !is_date(y, m, d + 1) && m < 12 ==> day_number(y, m + 1, 1)
            == day_number(y, m, d) + 1,
        is_date(y, m, d) && !is_date(y, m, d + 1) && m == 12 ==> day_number(y + 1, 1, 1)
            == day_number(y, m, d) + 1,
{
    lemma_month_starts(y);
    lemma_month_starts(y + 1);
    lemma_month_starts(1970);
    lemma_year_len(y);
}

/// April, June, September and November have 30 days. February has 28, and 29 in every fourth
/// year, but for the last of three centuries out of four. All others have 31.
pub proof fn law_months(y: int, m: int, d: int)
    ensures
        is_date(y, m, d) <==> 1 <= m <= 12 && 1 <= d <= (if m == 4 || m == 6 || m == 9 || m == 11 {
            30int
        } else if m != 2 {
            31int
        } else if (y % 4 == 0 && y % 100 != 0) || y % 400 == 0 {
            29int
        } else {
            28int
        }),
{
    lemma_quarters(y);
}

/// A stamp is the year in four digits, month and day, and hour, minute and second, in two
/// digits each.
pub proof fn law_stamp_text(secs: int, y: int, m: int, d: int)
    requires
        is_date(y, m, d),
        day_number(y, m, d) == secs / 86400,
    ensures
        ({
            let second = secs % 86400;
            stamp(secs) == padded(y, 4) + "-"@ + padded(m, 2) + "-"@ + padded(d, 2) + " "@
                + padded(second / 3600, 2) + ":"@ + padded((second / 60) % 60, 2) + ":"@ + padded(
                second % 60,
                2,
            )
        }),
{
    law_stamp(secs, y, m, d);
    let second = secs % 86400;
    assert(0 <= second < 86400);
    lemma_minutes(second);
}

proof fn lemma_minutes(second: int)
    requires
        0 <= second < 86400,
    ensures
        second % 3600 / 60 == (second / 60) % 60,
{
    let hour = second / 3600;
    let rest = second % 3600;
    assert(second == 3600 * hour + rest);
    assert(second / 60 == 60 * hour + rest / 60);
}

} // verus!
