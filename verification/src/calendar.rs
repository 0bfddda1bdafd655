use vstd::prelude::*;
use vstd::arithmetic::div_mod::lemma_fundamental_div_mod_converse;

verus! {

/// A proleptic Gregorian leap year.
pub open spec fn is_leap_year(y: int) -> bool {
    (y % 4 == 0 && y % 100 != 0) || y % 400 == 0
}

/// Days in month `m` (1 = January) of year `y`.
pub open spec fn month_length(y: int, m: int) -> int {
    if m == 2 {
        if is_leap_year(y) {
            29
        } else {
            28
        }
    } else if m == 4 || m == 6 || m == 9 || m == 11 {
        30
    } else {
        31
    }
}

/// `(y, m, d)` names a day of the proleptic Gregorian calendar.
pub open spec fn is_civil_date(y: int, m: int, d: int) -> bool {
    1 <= m <= 12 && 1 <= d <= month_length(y, m)
}

/// Leap years strictly before year `y`, counted from a fixed origin (only
/// differences of this count matter).
pub open spec fn leaps_before(y: int) -> int {
    (y - 1) / 4 - (y - 1) / 100 + (y - 1) / 400
}

/// Days in the months of year `y` before month `m`.
pub open spec fn days_before_month(y: int, m: int) -> int {
    let base: int = if m == 1 {
        0
    } else if m == 2 {
        31
    } else if m == 3 {
        59
    } else if m == 4 {
        90
    } else if m == 5 {
        120
    } else if m == 6 {
        151
    } else if m == 7 {
        181
    } else if m == 8 {
        212
    } else if m == 9 {
        243
    } else if m == 10 {
        273
    } else if m == 11 {
        304
    } else {
        334
    };
    base + if m > 2 && is_leap_year(y) {
        1int
    } else {
        0int
    }
}

/// The civil date's day number: days since 1970-01-01, counting whole
/// years, then whole months, then days.
pub open spec fn day_number(y: int, m: int, d: int) -> int {
    365 * (y - 1970) + (leaps_before(y) - leaps_before(1970)) + days_before_month(y, m) + d - 1
}

/// The day count computed on a March-based year, defined for any month and
/// day number (not only valid dates): the year starts in March, so the
/// leap day is the year's last day.
pub open spec fn march_day_number(y: int, m: int, d: int) -> int {
    let yy = y - (if m <= 2 {
        1int
    } else {
        0int
    });
    let mp = (m + 9) % 12;
    365 * yy + yy / 4 - yy / 100 + yy / 400 + (153 * mp + 2) / 5 + d - 1 - 719468
}

/// Dividing `x` and `x - 1` by `k` differs by one exactly when `k` divides `x`.
proof fn lemma_div_step(x: int, k: int)
    requires
        k > 0,
    ensures
        x / k - (x - 1) / k == (if x % k == 0 {
            1int
        } else {
            0int
        }),
{
    let q = (x - 1) / k;
    let r = (x - 1) % k;
    assert(x - 1 == q * k + r) by {
        vstd::arithmetic::div_mod::lemma_fundamental_div_mod(x - 1, k);
        vstd::arithmetic::mul::lemma_mul_is_commutative(q, k);
    }
    assert(0 <= r < k) by {
        vstd::arithmetic::div_mod::lemma_mod_bound(x - 1, k);
    }
    if r == k - 1 {
        assert(x == (q + 1) * k + 0) by (nonlinear_arith)
            requires
                x - 1 == q * k + r,
                r == k - 1,
        ;
        lemma_fundamental_div_mod_converse(x, k, q + 1, 0);
    } else {
        lemma_fundamental_div_mod_converse(x, k, q, r + 1);
    }
}

/// The March-based month offset against the civil days before the month.
proof fn lemma_march_month_offset(y: int, m: int)
    requires
        1 <= m <= 12,
    ensures
        (153 * ((m + 9) % 12) + 2) / 5 == if m <= 2 {
            days_before_month(y, m) + 306
        } else {
            days_before_month(y, m) - 59 - (if is_leap_year(y) {
                1int
            } else {
                0int
            })
        },
{
    if m == 1 {
        assert((m + 9) % 12 == 10);
    } else if m == 2 {
        assert((m + 9) % 12 == 11);
    } else if m == 3 {
        assert((m + 9) % 12 == 0);
    } else if m == 4 {
        assert((m + 9) % 12 == 1);
    } else if m == 5 {
        assert((m + 9) % 12 == 2);
    } else if m == 6 {
        assert((m + 9) % 12 == 3);
    } else if m == 7 {
        assert((m + 9) % 12 == 4);
    } else if m == 8 {
        assert((m + 9) % 12 == 5);
    } else if m == 9 {
        assert((m + 9) % 12 == 6);
    } else if m == 10 {
        assert((m + 9) % 12 == 7);
    } else if m == 11 {
        assert((m + 9) % 12 == 8);
    } else {
        assert((m + 9) % 12 == 9);
    }
}

/// On a valid date the March-based count is the civil day number.
pub proof fn lemma_march_day_number_is_day_number(y: int, m: int, d: int)
    requires
        1 <= m <= 12,
    ensures
        march_day_number(y, m, d) == day_number(y, m, d),
{
    lemma_div_step(y, 4);
    lemma_div_step(y, 100);
    lemma_div_step(y, 400);
    lemma_march_month_offset(y, m);
    assert(leaps_before(1970) == 477);
    let lb = leaps_before(y);
    let leap: int = if is_leap_year(y) {
        1
    } else {
        0
    };
    assert(y / 4 - y / 100 + y / 400 == lb + leap);
}

} // verus!

verus! {

/// The era decomposition used by the day counts: with `yy == 400 * era + yoe`
/// and `0 <= yoe < 400`, the March-based year count splits by era.
proof fn lemma_year_days_by_era(yy: int, era: int, yoe: int)
    requires
        yy == 400 * era + yoe,
        0 <= yoe < 400,
    ensures
        365 * yy + yy / 4 - yy / 100 + yy / 400 == 146097 * era + (365 * yoe + yoe / 4 - yoe / 100),
{
    let r4 = yoe % 4;
    let q4 = yoe / 4;
    assert(yoe == 4 * q4 + r4 && 0 <= r4 < 4) by {
        vstd::arithmetic::div_mod::lemma_fundamental_div_mod(yoe, 4);
    }
    lemma_fundamental_div_mod_converse(yy, 4, 100 * era + q4, r4);
    let r100 = yoe % 100;
    let q100 = yoe / 100;
    assert(yoe == 100 * q100 + r100 && 0 <= r100 < 100) by {
        vstd::arithmetic::div_mod::lemma_fundamental_div_mod(yoe, 100);
    }
    lemma_fundamental_div_mod_converse(yy, 100, 4 * era + q100, r100);
    lemma_fundamental_div_mod_converse(yy, 400, era, yoe);
}

/// Days since 1970-01-01 for a civil date (proleptic Gregorian, UTC).
///
/// Defined for any month and day the arithmetic accepts: the result is the
/// March-based count, which on a valid date is the civil day number.
pub fn days_from_civil(y: i32, m: u32, d: u32) -> (r: i64)
    requires
        m <= u32::MAX - 9,
        !(d == 0 && (m + 9) % 12 == 0),
    ensures
        r == march_day_number(y as int, m as int, d as int),
        is_civil_date(y as int, m as int, d as int) ==> r == day_number(y as int, m as int, d as int),
{
    let yy: i64 = (y as i64) - (if m <= 2 {
        1i64
    } else {
        0i64
    });
    // Shift onto non-negative numbers so the era is a plain quotient.
    let shifted: u64 = (yy + 2_147_484_000) as u64;
    let era: i64 = (shifted / 400) as i64 - 5_368_710;
    let yoe: u64 = (yy - era * 400) as u64;
    proof {
        lemma_fundamental_div_mod_converse(shifted as int, 400, (shifted / 400) as int, (shifted % 400) as int);
        assert(shifted as int == 400 * (shifted / 400) + shifted % 400) by {
            vstd::arithmetic::div_mod::lemma_fundamental_div_mod(shifted as int, 400);
        }
        assert(yy == 400 * era + yoe);
        assert(yoe < 400);
    }
    let mp: u64 = ((m + 9) % 12) as u64;
    let doy: u64 = (153 * mp + 2) / 5 + (d as u64) - 1;
    let doe: u64 = yoe * 365 + yoe / 4 - yoe / 100 + doy;
    proof {
        lemma_year_days_by_era(yy as int, era as int, yoe as int);
        if is_civil_date(y as int, m as int, d as int) {
            lemma_march_day_number_is_day_number(y as int, m as int, d as int);
        }
    }
    era * 146_097 + (doe as i64) - 719_468
}

} // verus!

verus! {

/// Days in the whole March-based years `0..k` of an era.
pub open spec fn era_days_before(k: int) -> int {
    365 * k + k / 4 - k / 100
}

/// March-based year `k` of an era ends in a leap day (its February belongs
/// to the following civil year).
pub open spec fn era_year_is_leap(k: int) -> bool {
    k % 4 == 3 && (k % 100 != 99 || k == 399)
}

/// The year-of-era estimate: day-of-era with the leap days taken out,
/// counted in 365-day years.
pub open spec fn year_of_era(doe: int) -> int {
    (doe - doe / 1460 + doe / 36524 - doe / 146096) / 365
}

/// The year-of-era estimate finds the March-based year that holds `doe`.
proof fn lemma_year_of_era(doe: int)
    requires
        0 <= doe <= 146096,
    ensures
        0 <= year_of_era(doe) <= 399,
        0 <= doe - era_days_before(year_of_era(doe)) <= 365,
        doe - era_days_before(year_of_era(doe)) == 365 ==> era_year_is_leap(year_of_era(doe)),
{
    if doe == 146096 {
        lemma_fundamental_div_mod_converse(doe, 1460, 100, 96);
        lemma_fundamental_div_mod_converse(doe, 36524, 4, 0);
        lemma_fundamental_div_mod_converse(doe, 146096, 1, 0);
        lemma_fundamental_div_mod_converse(145999, 365, 399, 364);
        lemma_fundamental_div_mod_converse(399, 4, 99, 3);
        lemma_fundamental_div_mod_converse(399, 100, 3, 99);
    } else {
        let c = doe / 36524;
        let r1 = doe % 36524;
        assert(doe == 36524 * c + r1 && 0 <= r1 < 36524) by {
            vstd::arithmetic::div_mod::lemma_fundamental_div_mod(doe, 36524);
        }
        assert(c <= 3);
        let a = r1 / 1461;
        let r2 = r1 % 1461;
        assert(r1 == 1461 * a + r2 && 0 <= r2 < 1461) by {
            vstd::arithmetic::div_mod::lemma_fundamental_div_mod(r1, 1461);
        }
        assert(a <= 24);
        let b: int = if r2 >= 1095 {
            3
        } else if r2 >= 730 {
            2
        } else if r2 >= 365 {
            1
        } else {
            0
        };
        let r = r2 - 365 * b;
        assert(0 <= r <= 365);
        assert(r == 365 ==> b == 3);
        assert(a == 24 && c < 3 ==> r <= 364);
        let k = 100 * c + 4 * a + b;
        let big_r = 24 * c + a + 365 * b + r;
        let e: int = if big_r >= 1460 {
            1
        } else {
            0
        };
        assert(doe == 1460 * (25 * c + a + e) + (big_r - 1460 * e));
        lemma_fundamental_div_mod_converse(doe, 1460, 25 * c + a + e, big_r - 1460 * e);
        lemma_fundamental_div_mod_converse(doe, 36524, c, r1);
        lemma_fundamental_div_mod_converse(doe, 146096, 0, doe);
        assert(e == 1 ==> r >= 1);
        assert(r == 365 ==> e == 1);
        let g = doe - doe / 1460 + doe / 36524 - doe / 146096;
        assert(g == 365 * k + (r - e));
        lemma_fundamental_div_mod_converse(g, 365, k, r - e);
        lemma_fundamental_div_mod_converse(k, 4, 25 * c + a, b);
        lemma_fundamental_div_mod_converse(k, 100, c, 4 * a + b);
        assert(era_days_before(k) == 36524 * c + 1461 * a + 365 * b);
    }
}

} // verus!

verus! {

/// The first day-of-year of March-based month `mp` (0 = March).
pub open spec fn month_start(mp: int) -> int {
    (153 * mp + 2) / 5
}

/// The month-of-year estimate finds the March-based month holding `doy`,
/// and the day within it fits that month.
proof fn lemma_month_of_year(doy: int)
    requires
        0 <= doy <= 365,
    ensures
        0 <= (5 * doy + 2) / 153 <= 11,
        month_start((5 * doy + 2) / 153) <= doy,
        ({
            let mp = (5 * doy + 2) / 153;
            let d = doy - month_start(mp) + 1;
            let m = if mp < 10 {
                mp + 3
            } else {
                mp - 9
            };
            &&& (m != 2 ==> d <= month_length(1, m))
            &&& (m == 2 ==> d <= 28 || (d == 29 && doy == 365))
        }),
{
    let x = 5 * doy + 2;
    let mp: int = if doy < 31 {
        0
    } else if doy < 61 {
        1
    } else if doy < 92 {
        2
    } else if doy < 122 {
        3
    } else if doy < 153 {
        4
    } else if doy < 184 {
        5
    } else if doy < 214 {
        6
    } else if doy < 245 {
        7
    } else if doy < 275 {
        8
    } else if doy < 306 {
        9
    } else if doy < 337 {
        10
    } else {
        11
    };
    lemma_fundamental_div_mod_converse(x, 153, mp, x - 153 * mp);
    let s: int = if mp == 0 {
        0
    } else if mp == 1 {
        31
    } else if mp == 2 {
        61
    } else if mp == 3 {
        92
    } else if mp == 4 {
        122
    } else if mp == 5 {
        153
    } else if mp == 6 {
        184
    } else if mp == 7 {
        214
    } else if mp == 8 {
        245
    } else if mp == 9 {
        275
    } else if mp == 10 {
        306
    } else {
        337
    };
    lemma_fundamental_div_mod_converse(153 * mp + 2, 5, s, 153 * mp + 2 - 5 * s);
}

/// A year shifted by whole eras keeps its leap-ness.
proof fn lemma_leap_by_era(era: int, k: int)
    requires
        0 <= k <= 399,
        era_year_is_leap(k),
    ensures
        is_leap_year(400 * era + k + 1),
{
    let y = 400 * era + k + 1;
    lemma_fundamental_div_mod_converse(k, 4, k / 4, 3);
    lemma_fundamental_div_mod_converse(y, 4, 100 * era + k / 4 + 1, 0);
    lemma_fundamental_div_mod_converse(k, 100, k / 100, k % 100);
    if k == 399 {
        lemma_fundamental_div_mod_converse(y, 400, era + 1, 0);
    } else {
        lemma_fundamental_div_mod_converse(y, 100, 4 * era + k / 100, k % 100 + 1);
    }
}

/// The civil date `(year, month, day)` of a day count, with the year as an
/// unbounded integer.
pub open spec fn civil_parts(days: int) -> (int, int, int) {
    let z = days + 719468;
    let era = z / 146097;
    let doe = z - era * 146097;
    let yoe = year_of_era(doe);
    let doy = doe - era_days_before(yoe);
    let mp = (5 * doy + 2) / 153;
    let d = doy - month_start(mp) + 1;
    let m = if mp < 10 {
        mp + 3
    } else {
        mp - 9
    };
    (yoe + era * 400 + (if m <= 2 {
        1int
    } else {
        0int
    }), m, d)
}

/// Every day count names a valid civil date that counts back to it.
pub proof fn lemma_civil_parts(days: int)
    ensures
        is_civil_date(civil_parts(days).0, civil_parts(days).1, civil_parts(days).2),
        march_day_number(civil_parts(days).0, civil_parts(days).1, civil_parts(days).2) == days,
        day_number(civil_parts(days).0, civil_parts(days).1, civil_parts(days).2) == days,
{
    let z = days + 719468;
    let era = z / 146097;
    let doe = z - era * 146097;
    assert(z == 146097 * era + z % 146097 && 0 <= z % 146097 < 146097) by {
        vstd::arithmetic::div_mod::lemma_fundamental_div_mod(z, 146097);
    }
    lemma_year_of_era(doe);
    let yoe = year_of_era(doe);
    let doy = doe - era_days_before(yoe);
    lemma_month_of_year(doy);
    let mp = (5 * doy + 2) / 153;
    let (year, m, d) = civil_parts(days);
    if m == 2 && d == 29 {
        lemma_leap_by_era(era, yoe);
    }
    let yy = year - (if m <= 2 { 1int } else { 0int });
    lemma_year_days_by_era(yy, era, yoe);
    assert((m + 9) % 12 == mp);
    lemma_march_day_number_is_day_number(year, m, d);
}

/// Civil date `(year, month, day)` for days since 1970-01-01 — the inverse
/// of [`days_from_civil`]. The year is the calendar year cut to 32 bits.
pub fn civil_from_days(days: i64) -> (r: (i32, u32, u32))
    requires
        days <= i64::MAX - 719_468,
    ensures
        r.0 == civil_parts(days as int).0 as i32,
        r.1 == civil_parts(days as int).1,
        r.2 == civil_parts(days as int).2,
        1 <= r.1 <= 12,
        1 <= r.2 <= 31,
{
    proof {
        lemma_civil_parts(days as int);
    }
    let z: i128 = days as i128 + 719_468;
    let shifted: u128 = (z + 9_223_372_036_855_595_934) as u128;
    let era: i128 = (shifted / 146_097) as i128 - 63_131_837_319_422;
    proof {
        assert(shifted as int == 146097 * (shifted / 146097) + shifted % 146097) by {
            vstd::arithmetic::div_mod::lemma_fundamental_div_mod(shifted as int, 146097);
        }
        lemma_fundamental_div_mod_converse(z as int, 146097, era as int, (shifted % 146097) as int);
    }
    let doe: u64 = (z - era * 146_097) as u64;
    let yoe: u64 = (doe - doe / 1460 + doe / 36_524 - doe / 146_096) / 365;
    proof {
        lemma_year_of_era(doe as int);
        assert(yoe == year_of_era(doe as int));
    }
    let y: i64 = (yoe as i64) + (era as i64) * 400;
    let doy: u64 = doe - (365 * yoe + yoe / 4 - yoe / 100);
    proof {
        lemma_month_of_year(doy as int);
    }
    let mp: u64 = (5 * doy + 2) / 153;
    let d: u32 = (doy - (153 * mp + 2) / 5 + 1) as u32;
    let m: u32 = (if mp < 10 {
        mp + 3
    } else {
        mp - 9
    }) as u32;
    let yr: i64 = y + (if m <= 2 {
        1i64
    } else {
        0i64
    });
    (yr as i32, m, d)
}

} // verus!

verus! {

/// Days before March-based year `yy` (the year that starts on March 1 of
/// civil year `yy`), from a fixed origin.
pub open spec fn march_year_start(yy: int) -> int {
    365 * yy + yy / 4 - yy / 100 + yy / 400
}

pub(crate) proof fn lemma_march_year_step(yy: int)
    ensures
        march_year_start(yy + 1) == march_year_start(yy) + 365 + (if is_leap_year(yy + 1) {
            1int
        } else {
            0int
        }),
{
    lemma_div_step(yy + 1, 4);
    lemma_div_step(yy + 1, 100);
    lemma_div_step(yy + 1, 400);
}

proof fn lemma_march_year_monotone(a: int, b: int)
    requires
        a < b,
    ensures
        march_year_start(b) >= march_year_start(a + 1),
    decreases b - a,
{
    if b > a + 1 {
        lemma_march_year_monotone(a, b - 1);
        lemma_march_year_step(b - 1);
    }
}

/// A valid day within its month recovers its March-based month index.
proof fn lemma_month_recovered(mp: int, d: int)
    requires
        0 <= mp <= 11,
        1 <= d,
        mp < 11 ==> d <= month_length(1, if mp < 10 { mp + 3 } else { mp - 9 }),
        mp == 11 ==> d <= 29,
    ensures
        (5 * (month_start(mp) + d - 1) + 2) / 153 == mp,
        0 <= month_start(mp) + d - 1 <= 365,
        mp < 11 ==> month_start(mp) + d - 1 <= 336,
        mp == 11 ==> month_start(mp) + d - 1 == 336 + d,
{
    let s: int = if mp == 0 {
        0
    } else if mp == 1 {
        31
    } else if mp == 2 {
        61
    } else if mp == 3 {
        92
    } else if mp == 4 {
        122
    } else if mp == 5 {
        153
    } else if mp == 6 {
        184
    } else if mp == 7 {
        214
    } else if mp == 8 {
        245
    } else if mp == 9 {
        275
    } else if mp == 10 {
        306
    } else {
        337
    };
    lemma_fundamental_div_mod_converse(153 * mp + 2, 5, s, 153 * mp + 2 - 5 * s);
    let doy = s + d - 1;
    lemma_fundamental_div_mod_converse(5 * doy + 2, 153, mp, 5 * doy + 2 - 153 * mp);
}

/// Two valid civil dates with the same day count are the same date.
pub proof fn lemma_day_number_injective(y1: int, m1: int, d1: int, y2: int, m2: int, d2: int)
    requires
        is_civil_date(y1, m1, d1),
        is_civil_date(y2, m2, d2),
        day_number(y1, m1, d1) == day_number(y2, m2, d2),
    ensures
        y1 == y2 && m1 == m2 && d1 == d2,
{
    lemma_march_day_number_is_day_number(y1, m1, d1);
    lemma_march_day_number_is_day_number(y2, m2, d2);
    let yy1 = y1 - (if m1 <= 2 { 1int } else { 0int });
    let yy2 = y2 - (if m2 <= 2 { 1int } else { 0int });
    let mp1 = (m1 + 9) % 12;
    let mp2 = (m2 + 9) % 12;
    assert(mp1 == if m1 <= 2 { m1 + 9 } else { m1 - 3 });
    assert(mp2 == if m2 <= 2 { m2 + 9 } else { m2 - 3 });
    lemma_month_recovered(mp1, d1);
    lemma_month_recovered(mp2, d2);
    let doy1 = month_start(mp1) + d1 - 1;
    let doy2 = month_start(mp2) + d2 - 1;
    assert(march_day_number(y1, m1, d1) == march_year_start(yy1) + doy1 - 719468);
    assert(march_day_number(y2, m2, d2) == march_year_start(yy2) + doy2 - 719468);
    // Each day lies inside its March-based year.
    assert(doy1 <= 364 + (if is_leap_year(yy1 + 1) { 1int } else { 0int }));
    assert(doy2 <= 364 + (if is_leap_year(yy2 + 1) { 1int } else { 0int }));
    if yy1 < yy2 {
        lemma_march_year_monotone(yy1, yy2);
        lemma_march_year_step(yy1);
    } else if yy2 < yy1 {
        lemma_march_year_monotone(yy2, yy1);
        lemma_march_year_step(yy2);
    }
    assert(yy1 == yy2);
    assert(doy1 == doy2);
    assert(mp1 == mp2);
}

/// The day count of a valid civil date turns back into that date.
pub proof fn lemma_civil_round_trip(y: int, m: int, d: int)
    requires
        is_civil_date(y, m, d),
    ensures
        civil_parts(day_number(y, m, d)) == (y, m, d),
{
    let n = day_number(y, m, d);
    lemma_civil_parts(n);
    let (y2, m2, d2) = civil_parts(n);
    lemma_day_number_injective(y, m, d, y2, m2, d2);
}

/// Every day count is the day number of the date it turns into.
pub proof fn lemma_day_number_round_trip(days: int)
    ensures
        day_number(civil_parts(days).0, civil_parts(days).1, civil_parts(days).2) == days,
{
    lemma_civil_parts(days);
}

} // verus!

verus! {

/// The civil date after `(y, m, d)`.
pub open spec fn next_date(y: int, m: int, d: int) -> (int, int, int) {
    if d < month_length(y, m) {
        (y, m, d + 1)
    } else if m < 12 {
        (y, m + 1, 1)
    } else {
        (y + 1, 1, 1)
    }
}

/// Day numbers count days: the next date is one day later.
pub proof fn lemma_next_date_is_one_day_later(y: int, m: int, d: int)
    requires
        is_civil_date(y, m, d),
    ensures
        is_civil_date(next_date(y, m, d).0, next_date(y, m, d).1, next_date(y, m, d).2),
        day_number(next_date(y, m, d).0, next_date(y, m, d).1, next_date(y, m, d).2) == day_number(y, m, d)
            + 1,
{
    if d >= month_length(y, m) && m == 12 {
        lemma_div_step(y, 4);
        lemma_div_step(y, 100);
        lemma_div_step(y, 400);
    }
}

/// Split whole epoch seconds (UTC) into `(year, month, day, second-of-day)`:
/// the day is the floor of `t / 86400` and the second its non-negative
/// remainder.
pub fn civil_of_seconds(t: i64) -> (r: (i32, u32, u32, i64))
    ensures
        r.0 == civil_parts(t as int / 86400).0 as i32,
        r.1 == civil_parts(t as int / 86400).1,
        r.2 == civil_parts(t as int / 86400).2,
        r.3 == t as int % 86400,
        0 <= r.3 < 86400,
{
    let (days, sod): (i64, i64) = if t >= 0 {
        (t / 86_400, t % 86_400)
    } else {
        let u: i64 = -(t + 1);
        (-(u / 86_400) - 1, 86_399 - u % 86_400)
    };
    proof {
        let ti = t as int;
        if t < 0 {
            let ui = -(ti + 1);
            let q = ui / 86400;
            assert(ui == q * 86400 + ui % 86400 && 0 <= ui % 86400 < 86400) by {
                vstd::arithmetic::div_mod::lemma_fundamental_div_mod(ui, 86400);
            }
            assert(ti == (-q - 1) * 86400 + (86399 - ui % 86400));
            vstd::arithmetic::div_mod::lemma_fundamental_div_mod_converse(ti, 86400, -q - 1, 86399 - ui % 86400);
        }
    }
    let (y, m, d) = civil_from_days(days);
    (y, m, d, sod)
}

} // verus!
