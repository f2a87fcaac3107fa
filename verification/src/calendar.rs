//! Calendar arithmetic. Every L temporal type counts from 2000.01.01 in the
//! proleptic Gregorian calendar.

use vstd::prelude::*;

verus! {

pub open spec fn is_leap(y: int) -> bool {
    y % 4 == 0 && (y % 100 != 0 || y % 400 == 0)
}

/// Days in month `m` (1..12) of year `y`.
pub open spec fn month_len(y: int, m: int) -> int {
    if m == 2 {
        if is_leap(y) {
            29
        } else {
            28
        }
    } else if m == 4 || m == 6 || m == 9 || m == 11 {
        30
    } else {
        31
    }
}

/// A real calendar date.
pub open spec fn valid_date(y: int, m: int, d: int) -> bool {
    1 <= m <= 12 && 1 <= d <= month_len(y, m)
}

/// Leap years among 1..=y (counted with floor division for any y).
pub open spec fn leaps_through(y: int) -> int {
    y / 4 - y / 100 + y / 400
}

/// Days in the months of year `y` before month `m`.
pub open spec fn days_before_month(y: int, m: int) -> int {
    let base: int = if m == 1 {
        0
    } else if m == 2 {
        31
    } else if m == 3 {
        59
    } else if m == 4 {
        90
    } else if m == 5 {
        120
    } else if m == 6 {
        151
    } else if m == 7 {
        181
    } else if m == 8 {
        212
    } else if m == 9 {
        243
    } else if m == 10 {
        273
    } else if m == 11 {
        304
    } else {
        334
    };
    if m > 2 && is_leap(y) {
        base + 1
    } else {
        base
    }
}

/// Days from 2000.01.01 to `y.m.d`.
pub open spec fn civil_days(y: int, m: int, d: int) -> int {
    365 * (y - 2000) + (leaps_through(y - 1) - leaps_through(1999)) + days_before_month(y, m) + d
        - 1
}

/// The date `d` days after 2000.01.01 (days counted in 400-year eras that
/// start on 0000.03.01).
pub open spec fn ymd_of(d: int) -> (int, int, int) {
    let z = d + 730425;
    let era = z / 146097;
    let doe = z % 146097;
    let yoe = (doe - doe / 1460 + doe / 36524 - doe / 146096) / 365;
    let y = yoe + era * 400;
    let doy = doe - (365 * yoe + yoe / 4 - yoe / 100);
    let mp = (5 * doy + 2) / 153;
    let day = doy - (153 * mp + 2) / 5 + 1;
    let m = if mp < 10 {
        mp + 3
    } else {
        mp - 9
    };
    (
        if m <= 2 {
            y + 1
        } else {
            y
        },
        m,
        day,
    )
}

proof fn lemma_era_year(doe: int)
    requires
        0 <= doe < 146097,
    ensures
        ({
            let yoe = (doe - doe / 1460 + doe / 36524 - doe / 146096) / 365;
            let start = 365 * yoe + yoe / 4 - yoe / 100;
            &&& 0 <= yoe <= 399
            &&& start <= doe
            &&& doe - start < 365 + (if (yoe + 1) % 4 == 0 && ((yoe + 1) % 100 != 0 || yoe == 399) {
                1int
            } else {
                0int
            })
        }),
{
}


/// Position of a day within a March-based year: month index `mp` (0 =
/// March) and day of month.
proof fn lemma_march_month(doy: int, leap: int)
    requires
        leap == 0 || leap == 1,
        0 <= doy < 365 + leap,
    ensures
        ({
            let mp = (5 * doy + 2) / 153;
            let day = doy - (153 * mp + 2) / 5 + 1;
            let m = if mp < 10 {
                mp + 3
            } else {
                mp - 9
            };
            &&& 0 <= mp <= 11
            &&& 1 <= day
            &&& m == 2 ==> day <= 28 + leap
            &&& (m == 4 || m == 6 || m == 9 || m == 11) ==> day <= 30
            &&& day <= 31
            &&& 1 <= m <= 12
        }),
{
    let mp = (5 * doy + 2) / 153;
    assert(0 <= mp <= 11);
    if mp == 0 {
    } else if mp == 1 {
    } else if mp == 2 {
    } else if mp == 3 {
    } else if mp == 4 {
    } else if mp == 5 {
    } else if mp == 6 {
    } else if mp == 7 {
    } else if mp == 8 {
    } else if mp == 9 {
    } else if mp == 10 {
    } else {
    }
}

/// Days before month `m` counted from March (`mp` = its March-based index).
proof fn lemma_days_before_month(y: int, m: int, mp: int)
    requires
        0 <= mp <= 11,
        m == (if mp < 10 {
            mp + 3
        } else {
            mp - 9
        }),
    ensures
        m >= 3 ==> days_before_month(y, m) == 59 + (if is_leap(y) {
            1int
        } else {
            0int
        }) + (153 * mp + 2) / 5,
        m <= 2 ==> days_before_month(y, m) == (153 * mp + 2) / 5 - 306,
{
}

proof fn lemma_leaps_era(e: int, k: int)
    requires
        0 <= k < 400,
    ensures
        leaps_through(400 * e + k) == 97 * e + k / 4 - k / 100,
        is_leap(400 * e + k) == is_leap(k),
{
    assert((400 * e + k) / 4 == 100 * e + k / 4);
    assert((400 * e + k) / 100 == 4 * e + k / 100);
    assert((400 * e + k) / 400 == e + k / 400);
    assert((400 * e + k) % 4 == k % 4);
    assert((400 * e + k) % 100 == k % 100);
    assert((400 * e + k) % 400 == k % 400);
}

/// `ymd_of(d)` is a real date, and it lies `d` days after 2000.01.01.
#[verifier::spinoff_prover]
#[verifier::rlimit(60)]
pub proof fn lemma_ymd_of(d: int)
    ensures
        valid_date(ymd_of(d).0, ymd_of(d).1, ymd_of(d).2),
        civil_days(ymd_of(d).0, ymd_of(d).1, ymd_of(d).2) == d,
{
    let z = d + 730425;
    let era = z / 146097;
    let doe = z % 146097;
    assert(z == 146097 * era + doe);
    lemma_era_year(doe);
    let yoe = (doe - doe / 1460 + doe / 36524 - doe / 146096) / 365;
    let start = 365 * yoe + yoe / 4 - yoe / 100;
    let doy = doe - start;
    let leap: int = if is_leap(yoe + 1) {
        1
    } else {
        0
    };
    assert(doy < 365 + leap);
    lemma_march_month(doy, leap);
    let mp = (5 * doy + 2) / 153;
    let day = doy - (153 * mp + 2) / 5 + 1;
    let m = if mp < 10 {
        mp + 3
    } else {
        mp - 9
    };
    let y = yoe + era * 400;
    let cy = if m <= 2 {
        y + 1
    } else {
        y
    };
    assert(ymd_of(d) == (cy, m, day));
    lemma_days_before_month(cy, m, mp);
    if m <= 2 {
        if yoe == 399 {
            lemma_leaps_era(era + 1, 0);
            lemma_leaps_era(era, 399);
            assert(cy == 400 * (era + 1) + 0);
        } else {
            lemma_leaps_era(era, yoe + 1);
            lemma_leaps_era(era, yoe);
        }
        assert(leaps_through(cy - 1) == 97 * era + yoe / 4 - yoe / 100) by {
            lemma_leaps_era(era, yoe);
        }
    } else {
        lemma_leaps_era(era, yoe);
        if yoe == 0 {
            lemma_leaps_era(era - 1, 399);
            assert(cy - 1 == 400 * (era - 1) + 399);
        } else {
            lemma_leaps_era(era, yoe - 1);
        }
        assert(leaps_through(cy - 1) + (if is_leap(cy) {
            1int
        } else {
            0int
        }) == leaps_through(cy));
    }
    assert(leaps_through(1999) == 484);
}


/// Days from 2000.01.01 by the March-rooted formula (`m` 1..12 gives the
/// calendar count; see `lemma_days_of_ymd`).
pub open spec fn days_of_ymd(y: int, m: int, d: int) -> int {
    let yy = if m <= 2 {
        y - 1
    } else {
        y
    };
    let mm = if m <= 2 {
        m + 9
    } else {
        m - 3
    };
    let era = yy / 400;
    let yoe = yy % 400;
    let doy = (153 * mm + 2) / 5 + d - 1;
    let doe = yoe * 365 + yoe / 4 - yoe / 100 + doy;
    era * 146097 + doe - 730425
}

/// For a month 1..12 the formula counts calendar days.
pub proof fn lemma_days_of_ymd(y: int, m: int, d: int)
    requires
        1 <= m <= 12,
    ensures
        days_of_ymd(y, m, d) == civil_days(y, m, d),
{
    let yy = if m <= 2 {
        y - 1
    } else {
        y
    };
    let mm = if m <= 2 {
        m + 9
    } else {
        m - 3
    };
    let era = yy / 400;
    let yoe = yy % 400;
    assert(yy == 400 * era + yoe);
    lemma_days_before_month(y, m, mm);
    if m <= 2 {
        lemma_leaps_era(era, yoe);
    } else {
        lemma_leaps_era(era, yoe);
        if yoe == 0 {
            lemma_leaps_era(era - 1, 399);
            assert(y - 1 == 400 * (era - 1) + 399);
        } else {
            lemma_leaps_era(era, yoe - 1);
        }
        assert(leaps_through(y - 1) + (if is_leap(y) {
            1int
        } else {
            0int
        }) == leaps_through(y));
    }
    assert(leaps_through(1999) == 484);
}

/// `x` wrapped into the i32 range (what `as i32` does).
pub open spec fn wrap_i32(x: int) -> int {
    (x + 0x8000_0000) % 0x1_0000_0000 - 0x8000_0000
}

/// days-since-2000.01.01 -> (year, month, day).
pub fn ymd_from_days(d: i32) -> (r: (i32, u32, u32))
    ensures
        (r.0 as int, r.1 as int, r.2 as int) == ymd_of(d as int),
        valid_date(r.0 as int, r.1 as int, r.2 as int),
        civil_days(r.0 as int, r.1 as int, r.2 as int) == d as int,
{
    proof {
        lemma_ymd_of(d as int);
    }
    let z: i64 = d as i64 + 730425;
    let zz: u64 = (z + 146097 * 14700) as u64;
    let q: u64 = zz / 146097;
    let doe: u64 = zz % 146097;
    let era: i64 = q as i64 - 14700;
    proof {
        vstd::arithmetic::div_mod::lemma_fundamental_div_mod_converse(
            z as int,
            146097,
            era as int,
            doe as int,
        );
        lemma_era_year(doe as int);
    }
    let yoe: u64 = (doe - doe / 1460 + doe / 36524 - doe / 146096) / 365;
    let y_era: i64 = yoe as i64 + era * 400;
    let doy: u64 = doe - (365 * yoe + yoe / 4 - yoe / 100);
    let mp: u64 = (5 * doy + 2) / 153;
    proof {
        let leap: int = if is_leap(yoe + 1) {
            1
        } else {
            0
        };
        lemma_march_month(doy as int, leap);
    }
    let day: u64 = doy - (153 * mp + 2) / 5 + 1;
    let month: u64 = if mp < 10 {
        mp + 3
    } else {
        mp - 9
    };
    let year: i64 = y_era + if month <= 2 {
        1
    } else {
        0
    };
    (year as i32, month as u32, day as u32)
}

/// (year, month, day) -> days-since-2000.01.01 (wrapped into i32).
pub fn days_from_ymd(y: i32, m: u32, d: u32) -> (r: i32)
    ensures
        r as int == wrap_i32(days_of_ymd(y as int, m as int, d as int)),
{
    let yy: i64 = if m <= 2 {
        y as i64 - 1
    } else {
        y as i64
    };
    let mm: i64 = if m <= 2 {
        m as i64 + 9
    } else {
        m as i64 - 3
    };
    let yyo: i64 = yy + 400 * 6_000_000;
    let era: i64 = yyo / 400 - 6_000_000;
    let yoe: i64 = yyo % 400;
    proof {
        vstd::arithmetic::div_mod::lemma_fundamental_div_mod_converse(
            yy as int,
            400,
            era as int,
            yoe as int,
        );
    }
    let doy: i64 = (153 * mm + 2) / 5 + d as i64 - 1;
    let doe: i64 = yoe * 365 + yoe / 4 - yoe / 100 + doy;
    let x: i64 = era * 146097 + doe - 730425;
    let u: i64 = (x + 0x8000_0000 + 0x1_0000_0000 * 1_000_000) % 0x1_0000_0000;
    proof {
        vstd::arithmetic::div_mod::lemma_fundamental_div_mod_converse(
            x + 0x8000_0000,
            0x1_0000_0000,
            (x + 0x8000_0000 + 0x1_0000_0000 * 1_000_000) / 0x1_0000_0000 - 1_000_000,
            u as int,
        );
    }
    (u - 0x8000_0000) as i32
}

/// Law: the date of a day count counts back to it.
pub proof fn lemma_days_ymd_roundtrip(d: int)
    ensures
        days_of_ymd(ymd_of(d).0, ymd_of(d).1, ymd_of(d).2) == d,
{
    lemma_ymd_of(d);
    lemma_days_of_ymd(ymd_of(d).0, ymd_of(d).1, ymd_of(d).2);
}

/// Days in year `y`.
pub open spec fn year_len(y: int) -> int {
    if is_leap(y) {
        366
    } else {
        365
    }
}

proof fn lemma_year_step(y: int)
    ensures
        civil_days(y + 1, 1, 1) == civil_days(y, 1, 1) + year_len(y),
{
    let a = y / 4 - (y - 1) / 4;
    let b = y / 100 - (y - 1) / 100;
    let c = y / 400 - (y - 1) / 400;
    assert(a == if y % 4 == 0 {
        1int
    } else {
        0
    });
    assert(b == if y % 100 == 0 {
        1int
    } else {
        0
    });
    assert(c == if y % 400 == 0 {
        1int
    } else {
        0
    });
    assert(y % 100 == 0 ==> y % 4 == 0);
    assert(y % 400 == 0 ==> y % 100 == 0);
}

proof fn lemma_year_starts_grow(y: int, z: int)
    requires
        y < z,
    ensures
        civil_days(y + 1, 1, 1) <= civil_days(z, 1, 1),
    decreases z - y,
{
    if y + 1 < z {
        lemma_year_starts_grow(y + 1, z);
        lemma_year_step(y + 1);
    }
}

proof fn lemma_within_year(y: int, m: int, d: int)
    requires
        valid_date(y, m, d),
    ensures
        civil_days(y, 1, 1) <= civil_days(y, m, d) < civil_days(y + 1, 1, 1),
{
    lemma_year_step(y);
    assert(days_before_month(y, m) + month_len(y, m) <= year_len(y));
}

proof fn lemma_month_order(y: int, m: int, d: int, m2: int, d2: int)
    requires
        valid_date(y, m, d),
        valid_date(y, m2, d2),
        m < m2,
    ensures
        days_before_month(y, m) + d < days_before_month(y, m2) + d2,
{
    assert(days_before_month(y, m) + month_len(y, m) <= days_before_month(y, m2));
}

/// Law: a real date counts to a day whose date is that date again
/// (`ymd_from_days` undoes `days_from_ymd`), wherever the count fits in
/// an `i32`.
pub proof fn lemma_ymd_days_roundtrip(y: int, m: int, d: int)
    requires
        valid_date(y, m, d),
        i32::MIN <= civil_days(y, m, d) <= i32::MAX,
    ensures
        ymd_of(wrap_i32(days_of_ymd(y, m, d))) == (y, m, d),
{
    lemma_days_of_ymd(y, m, d);
    let n = civil_days(y, m, d);
    assert(wrap_i32(n) == n);
    lemma_ymd_of(n);
    let (y2, m2, d2) = ymd_of(n);
    lemma_within_year(y, m, d);
    lemma_within_year(y2, m2, d2);
    if y < y2 {
        lemma_year_starts_grow(y, y2);
    } else if y2 < y {
        lemma_year_starts_grow(y2, y);
    }
    assert(y == y2);
    if m < m2 {
        lemma_month_order(y, m, d, m2, d2);
    } else if m2 < m {
        lemma_month_order(y, m2, d2, m, d);
    }
}

} // verus!
