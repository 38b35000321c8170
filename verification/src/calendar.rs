//! Days of the calendar.
use vstd::prelude::*;

verus! {

/// Whether a year has a day more.
pub open spec fn is_leap(y: int) -> bool {
    y % 4 == 0 && (y % 100 != 0 || y % 400 == 0)
}

/// The days of a year.
pub open spec fn year_days(y: int) -> int {
    if is_leap(y) {
        366
    } else {
        365
    }
}

/// The days of a month.
pub open spec fn month_days(y: int, m: int) -> int {
    if m == 2 {
        if is_leap(y) {
            29
        } else {
            28
        }
    } else if m == 4 || m == 6 || m == 9 || m == 11 {
        30
    } else {
        31
    }
}

/// The days of the months of a year before one.
pub open spec fn days_before_month(y: int, m: int) -> int
    decreases m,
{
    if m <= 1 {
        0
    } else {
        days_before_month(y, m - 1) + month_days(y, m - 1)
    }
}

/// The days from the start of the year zero to the start of a year; below zero for a year before.
pub open spec fn days_before_year(y: int) -> int {
    365 * y + (y + 3) / 4 - (y + 99) / 100 + (y + 399) / 400
}

/// Whether there is such a day.
pub open spec fn is_date(y: int, m: int, d: int) -> bool {
    1 <= m <= 12 && 1 <= d <= month_days(y, m)
}

/// The number of a day, of which the first of January 1970 is zero.
pub open spec fn day_number(y: int, m: int, d: int) -> int {
    days_before_year(y) - 719528 + days_before_month(y, m) + d - 1
}

/// The days before each month.
proof fn lemma_months(y: int)
    ensures
        days_before_month(y, 1) == 0,
        days_before_month(y, 2) == 31,
        days_before_month(y, 3) == 31 + month_days(y, 2),
        days_before_month(y, 4) == 62 + month_days(y, 2),
        days_before_month(y, 5) == 92 + month_days(y, 2),
        days_before_month(y, 6) == 123 + month_days(y, 2),
        days_before_month(y, 7) == 153 + month_days(y, 2),
        days_before_month(y, 8) == 184 + month_days(y, 2),
        days_before_month(y, 9) == 215 + month_days(y, 2),
        days_before_month(y, 10) == 245 + month_days(y, 2),
        days_before_month(y, 11) == 276 + month_days(y, 2),
        days_before_month(y, 12) == 306 + month_days(y, 2),
        days_before_month(y, 13) == 337 + month_days(y, 2),
{
    reveal_with_fuel(days_before_month, 3);
    assert(days_before_month(y, 3) == 31 + month_days(y, 2));
    assert(days_before_month(y, 5) == 92 + month_days(y, 2));
    assert(days_before_month(y, 7) == 153 + month_days(y, 2));
    assert(days_before_month(y, 9) == 215 + month_days(y, 2));
    assert(days_before_month(y, 11) == 276 + month_days(y, 2));
}

proof fn lemma_steps(y: int)
    ensures
        (y + 4) / 4 == (y + 3) / 4 + (if y % 4 == 0 {
            1int
        } else {
            0int
        }),
        (y + 100) / 100 == (y + 99) / 100 + (if y % 100 == 0 {
            1int
        } else {
            0int
        }),
        (y + 400) / 400 == (y + 399) / 400 + (if y % 400 == 0 {
            1int
        } else {
            0int
        }),
        (y + 4) / 4 == y / 4 + 1,
        (y + 100) / 100 == y / 100 + 1,
        (y + 400) / 400 == y / 400 + 1,
        y % 100 == 0 ==> y % 4 == 0,
        y % 400 == 0 ==> y % 100 == 0,
{
}

/// From one year to the next are as many days as the year has, and its months make up the year.
pub proof fn years_follow(y: int)
    ensures
        days_before_year(y + 1) == days_before_year(y) + year_days(y),
        days_before_month(y, 13) == year_days(y),
{
    lemma_months(y);
    lemma_steps(y);
}

proof fn lemma_years_grow(a: int, b: int)
    requires
        a < b,
    ensures
        days_before_year(a) + year_days(a) <= days_before_year(b),
    decreases b - a,
{
    years_follow(a);
    if a + 1 < b {
        lemma_years_grow(a + 1, b);
    }
}

proof fn lemma_months_grow(y: int, a: int, b: int)
    requires
        1 <= a < b,
    ensures
        days_before_month(y, a) + month_days(y, a) <= days_before_month(y, b),
    decreases b - a,
{
    if a + 1 < b {
        lemma_months_grow(y, a, b - 1);
    }
}

proof fn lemma_in_year(y: int, m: int, d: int)
    requires
        is_date(y, m, d),
    ensures
        0 <= days_before_month(y, m) + d - 1 < year_days(y),
{
    years_follow(y);
    lemma_months_grow(y, m, 13);
    if 1 < m {
        lemma_months_grow(y, 1, m);
    }
}

/// Two days with one number are the same day.
pub proof fn days_differ_in_number(y1: int, m1: int, d1: int, y2: int, m2: int, d2: int)
    requires
        is_date(y1, m1, d1),
        is_date(y2, m2, d2),
        day_number(y1, m1, d1) == day_number(y2, m2, d2),
    ensures
        y1 == y2,
        m1 == m2,
        d1 == d2,
{
    lemma_in_year(y1, m1, d1);
    lemma_in_year(y2, m2, d2);
    if y1 < y2 {
        lemma_years_grow(y1, y2);
    } else if y2 < y1 {
        lemma_years_grow(y2, y1);
    } else if m1 < m2 {
        lemma_months_grow(y1, m1, m2);
    } else if m2 < m1 {
        lemma_months_grow(y1, m2, m1);
    }
}

/// The quotient, rounded down.
pub fn div_floor(a: i64, d: i64) -> (r: i64)
    requires
        d > 0,
    ensures
        r == a as int / d as int,
{
    if a >= 0 {
        a / d
    } else {
        let m: i64 = -(a + 1);
        let q: i64 = m / d;
        proof {
            let r = m % d;
            vstd::arithmetic::div_mod::lemma_fundamental_div_mod(m as int, d as int);
            assert(m == d * q + m as int % d as int);
            assert(0 <= q <= m) by (nonlinear_arith)
                requires
                    m >= 0,
                    d > 0,
                    q == m as int / d as int,
            ;
            let rest = d - 1 - m as int % d as int;
            assert(a == (-q - 1) * d + rest) by (nonlinear_arith)
                requires
                    m == -(a + 1),
                    m == d * q + m as int % d as int,
                    rest == d - 1 - m as int % d as int,
            ;
            vstd::arithmetic::div_mod::lemma_fundamental_div_mod_converse(
                a as int,
                d as int,
                -q - 1,
                rest,
            );
        }
        -q - 1
    }
}

/// The days from the first of March of the year zero to that of a year.
spec fn days_before_march(y: int) -> int {
    365 * y + y / 4 - y / 100 + y / 400
}

proof fn lemma_march(y: int)
    ensures
        days_before_year(y) + year_days(y) == days_before_march(y) + 366,
        days_before_year(y + 1) == days_before_march(y) + 366,
{
    years_follow(y);
    lemma_steps(y);
}

/// The day of a year that starts in March, as a day of a month.
spec fn march_month(mp: int) -> int {
    if mp < 10 {
        mp + 3
    } else {
        mp - 9
    }
}

proof fn lemma_march_months(mp: int, day: int)
    requires
        0 <= day <= 365,
        mp == (5 * day + 2) / 153,
    ensures
        0 <= mp <= 11,
        (153 * mp + 2) / 5 <= day < (153 * (mp + 1) + 2) / 5,
{
}

/// The parts of a day that is counted from a first of March: of four hundred years, a century,
/// four years, a year and a day.
proof fn lemma_parts(era: int, century: int, four: int, year: int)
    requires
        0 <= century <= 3,
        0 <= four <= 24,
        0 <= year <= 3,
    ensures
        ({
            let y = era * 400 + century * 100 + four * 4 + year;
            &&& y / 4 == era * 100 + century * 25 + four
            &&& y / 100 == era * 4 + century
            &&& y / 400 == era
            &&& days_before_march(y) == era * 146097 + century * 36524 + four * 1461 + year * 365
            &&& is_leap(y + 1) <==> (year == 3 && (four < 24 || century == 3))
        }),
{
    let y = era * 400 + century * 100 + four * 4 + year;
    assert(y / 4 == era * 100 + century * 25 + four);
    assert(y / 100 == era * 4 + century);
    assert(y / 400 == era);
    assert((y + 1) % 4 == 0 <==> year == 3);
    assert((y + 1) % 100 == 0 <==> four == 24 && year == 3);
    assert((y + 1) % 400 == 0 <==> century == 3 && four == 24 && year == 3);
}

/// A day of a year that starts in March is a day of a month, in that year or the next.
proof fn lemma_date(y: int, day: int, mp: int)
    requires
        0 <= day <= 365,
        mp == (5 * day + 2) / 153,
        day == 365 ==> is_leap(y + 1),
    ensures
        ({
            let m = march_month(mp);
            let d = day - (153 * mp + 2) / 5 + 1;
            let shown = if m <= 2 {
                y + 1
            } else {
                y
            };
            &&& is_date(shown, m, d)
            &&& day_number(shown, m, d) == days_before_march(y) + day - 719468
        }),
{
    lemma_march(y);
    lemma_march_months(mp, day);
    lemma_months(y);
    lemma_months(y + 1);
}

/// The day with a number: its year, its month and its day of the month.
pub fn civil_of_days(days: i64) -> (r: (i64, u32, u32))
    requires
        -200_000_000_000 <= days <= 200_000_000_000,
    ensures
        is_date(r.0 as int, r.1 as int, r.2 as int),
        day_number(r.0 as int, r.1 as int, r.2 as int) == days,
        -600_000_000 <= r.0 <= 600_000_000,
{
    let z: i64 = days + 719468;
    let era: i64 = div_floor(z, 146097);
    let doe: i64 = z - era * 146097;
    let century: i64 = if doe / 36524 < 3 {
        doe / 36524
    } else {
        3
    };
    let in_century: i64 = doe - century * 36524;
    let four: i64 = in_century / 1461;
    let in_four: i64 = in_century - four * 1461;
    let year: i64 = if in_four / 365 < 3 {
        in_four / 365
    } else {
        3
    };
    let day: i64 = in_four - year * 365;
    let y: i64 = era * 400 + century * 100 + four * 4 + year;
    proof {
        assert(0 <= in_century <= 36524);
        assert(in_century == 36524 ==> century == 3);
        assert(0 <= four <= 24);
        assert(four == 24 && century < 3 ==> in_four <= 1459);
        lemma_parts(era as int, century as int, four as int, year as int);
    }
    let mp: i64 = (5 * day + 2) / 153;
    proof {
        lemma_march_months(mp as int, day as int);
        lemma_date(y as int, day as int, mp as int);
    }
    let d: i64 = day - (153 * mp + 2) / 5 + 1;
    let m: i64 = if mp < 10 {
        mp + 3
    } else {
        mp - 9
    };
    let shown: i64 = if m <= 2 {
        y + 1
    } else {
        y
    };
    (shown, m as u32, d as u32)
}

/// Every fourth year has a day more, but for the full centuries, of which only every fourth has; four
/// centuries have as many days as any other four. A month has thirty or thirty-one days, but for the
/// second, and the days of a year are counted from the first of January on.
pub proof fn years_have_their_days(y: int, m: int, d: int)
    requires
        1 <= m <= 12,
    ensures
        y % 4 != 0 ==> !is_leap(y),
        y % 4 == 0 && y % 100 != 0 ==> is_leap(y),
        is_leap(100 * y) <==> y % 4 == 0,
        days_before_year(y + 400) == days_before_year(y) + 146097,
        day_number(y, 1, 1) == day_number(y - 1, 12, 31) + 1,
        day_number(y, m, d + 1) == day_number(y, m, d) + 1,
        m < 12 ==> day_number(y, m + 1, 1) == day_number(y, m, month_days(y, m)) + 1,
        day_number(1970, 1, 1) == 0,
        m != 2 ==> month_days(y, m) == 30 || month_days(y, m) == 31,
        m < 7 && m != 2 ==> (month_days(y, m) == 31 <==> m % 2 == 1),
        m > 7 ==> (month_days(y, m) == 31 <==> m % 2 == 0),
        m == 7 ==> month_days(y, m) == 31,
        m == 2 ==> month_days(y, m) == (if is_leap(y) {
            29int
        } else {
            28int
        }),
{
    years_follow(y - 1);
    reveal_with_fuel(days_before_month, 14);
    assert(days_before_month(y - 1, 13) == days_before_month(y - 1, 12) + 31);
}

} // verus!
