//! Dates of the proleptic Gregorian calendar: a civil date counted in days
//! from 1970-01-01, and the date of a unix timestamp computed with the
//! civil-from-days arithmetic (400-year eras of 146097 days, years counted
//! from March so that the leap day comes last).

use vstd::prelude::*;
use crate::num::{digits, zero_pad, decimal_padded};

verus! {

pub open spec fn is_leap(y: int) -> bool {
    (y % 4 == 0 && y % 100 != 0) || y % 400 == 0
}

pub open spec fn year_len(y: int) -> int {
    if is_leap(y) {
        366
    } else {
        365
    }
}

/// Days in month `m` (1-12) of year `y`.
pub open spec fn month_len(y: int, m: int) -> int {
    if m == 2 {
        if is_leap(y) {
            29
        } else {
            28
        }
    } else if m == 4 || m == 6 || m == 9 || m == 11 {
        30
    } else {
        31
    }
}

/// Days of year `y` before the first of month `m`.
pub open spec fn days_before_month(y: int, m: int) -> int
    decreases m,
{
    if m <= 1 {
        0
    } else {
        days_before_month(y, m - 1) + month_len(y, m - 1)
    }
}

/// Days from 1970-01-01 to the first of January of year `y` (negative
/// before 1970).
pub open spec fn days_before_year(y: int) -> int
    decreases (if y >= 1970 {
        y - 1970
    } else {
        1970 - y
    }),
{
    if y == 1970 {
        0
    } else if y > 1970 {
        days_before_year(y - 1) + year_len(y - 1)
    } else {
        days_before_year(y + 1) - year_len(y)
    }
}

/// A real date: a month 1-12 and a day of that month.
pub open spec fn valid_date(y: int, m: int, d: int) -> bool {
    1 <= m <= 12 && 1 <= d <= month_len(y, m)
}

/// The number of the day (y, m, d): 0 for 1970-01-01.
pub open spec fn day_number(y: int, m: int, d: int) -> int {
    days_before_year(y) + days_before_month(y, m) + d - 1
}

/// Leap days before year `y`, counted from year 0.
pub open spec fn leaps_before(y: int) -> int {
    (y - 1) / 4 - (y - 1) / 100 + (y - 1) / 400
}

proof fn lemma_leap_step(y: int)
    ensures
        leaps_before(y + 1) == leaps_before(y) + if is_leap(y) {
            1int
        } else {
            0int
        },
{
    assert(y / 4 - (y - 1) / 4 == if y % 4 == 0 {
        1int
    } else {
        0int
    });
    assert(y / 100 - (y - 1) / 100 == if y % 100 == 0 {
        1int
    } else {
        0int
    });
    assert(y / 400 - (y - 1) / 400 == if y % 400 == 0 {
        1int
    } else {
        0int
    });
    if y % 400 == 0 {
        assert(y % 100 == 0 && y % 4 == 0);
    } else if y % 100 == 0 {
        assert(y % 4 == 0);
    }
}

/// Days before a year in closed form.
proof fn lemma_days_before_year(y: int)
    ensures
        days_before_year(y) == 365 * (y - 1970) + leaps_before(y) - leaps_before(1970),
    decreases (if y >= 1970 {
        y - 1970
    } else {
        1970 - y
    }),
{
    if y > 1970 {
        lemma_days_before_year(y - 1);
        lemma_leap_step(y - 1);
    } else if y < 1970 {
        lemma_days_before_year(y + 1);
        lemma_leap_step(y);
    }
}

/// Days before each month: 0, 31, then from March on 59 (plus the leap
/// day) and the March-based table `(153 * k + 2) / 5`.
proof fn lemma_days_before_month(y: int, m: int)
    requires
        1 <= m <= 13,
    ensures
        m <= 2 ==> days_before_month(y, m) == 31 * (m - 1),
        m >= 3 ==> days_before_month(y, m) == 59 + (if is_leap(y) {
            1int
        } else {
            0int
        }) + (153 * (m - 3) + 2) / 5,
{
    reveal_with_fuel(days_before_month, 13);
}

/// 400 years shift the leap-day count by 97.
proof fn lemma_era_div(e: int, t: int)
    requires
        0 <= t < 400,
    ensures
        (400 * e + t) / 4 == 100 * e + t / 4,
        (400 * e + t) / 100 == 4 * e + t / 100,
        (400 * e + t) / 400 == e,
        (400 * e + t) % 4 == t % 4,
        (400 * e + t) % 100 == t % 100,
        (400 * e + t) % 400 == t,
{
}

/// Days from the start of an era (a March 1st) to March 1st of its
/// year `t` (0..400).
pub open spec fn era_days(t: int) -> int {
    365 * t + t / 4 - t / 100 + t / 400
}

/// March 1st of the year `400 * e + t` is day `146097 * e + era_days(t) -
/// 719468` (the era that starts at 0000-03-01 is era 0).
proof fn lemma_march1(e: int, t: int)
    requires
        0 <= t < 400,
    ensures
        days_before_year(400 * e + t) + 59 + (if is_leap(400 * e + t) {
            1int
        } else {
            0int
        }) == 146097 * e + era_days(t) - 719468,
{
    let y = 400 * e + t;
    lemma_days_before_year(y);
    lemma_leap_step(y);
    lemma_era_div(e, t);
    assert(leaps_before(1970) == 477);
    assert(leaps_before(y + 1) == 100 * e + t / 4 - (4 * e + t / 100) + e);
}

/// The year-of-era a day-of-era falls in (civil-from-days), checked for
/// every day of an era.
proof fn lemma_year_of_era(doe: u32)
    requires
        doe < 146097,
    ensures
        ({
            let t = (doe - doe / 1460 + doe / 36524 - doe / 146096) / 365;
            &&& t < 400
            &&& 365 * t + t / 4 - t / 100 <= doe
            &&& doe < 365 * (t + 1) + (t + 1) / 4 - (t + 1) / 100 + (t + 1) / 400
        }),
{
    assert({
        let t = (doe - doe / 1460 + doe / 36524 - doe / 146096) / 365;
        &&& t < 400
        &&& 365 * t + t / 4 - t / 100 <= doe
        &&& doe < 365 * (t + 1) + (t + 1) / 4 - (t + 1) / 100 + (t + 1) / 400
    }) by (bit_vector)
        requires
            doe < 146097,
    ;
}

/// Month and day of a March-based day of the year, checked for every day.
proof fn lemma_day_of_year(doy: u32)
    requires
        doy < 366,
    ensures
        ({
            let mp = (5 * doy + 2) / 153;
            let d = doy - (153 * mp + 2) / 5 + 1;
            &&& mp < 12
            &&& (153 * mp + 2) / 5 <= doy
            &&& 1 <= d
            &&& mp == 11 ==> d <= 29
            &&& mp == 11 && doy < 365 ==> d <= 28
            &&& (mp == 1 || mp == 3 || mp == 6 || mp == 8) ==> d <= 30
            &&& d <= 31
        }),
{
    assert({
        let mp = (5 * doy + 2) / 153;
        let d = doy - (153 * mp + 2) / 5 + 1;
        &&& mp < 12
        &&& (153 * mp + 2) / 5 <= doy
        &&& 1 <= d
        &&& mp == 11 ==> d <= 29
        &&& mp == 11 && doy < 365 ==> d <= 28
        &&& (mp == 1 || mp == 3 || mp == 6 || mp == 8) ==> d <= 30
        &&& d <= 31
    }) by (bit_vector)
        requires
            doy < 366,
    ;
}

/// Day of the era (0 = March 1st of a year divisible by 400) of day `z`.
pub open spec fn civil_doe(z: int) -> int {
    (z + 719468) % 146097
}

pub open spec fn civil_era(z: int) -> int {
    (z + 719468) / 146097
}

/// Year of the era of a day of the era.
pub open spec fn civil_yoe(doe: int) -> int {
    (doe - doe / 1460 + doe / 36524 - doe / 146096) / 365
}

/// Day of the March-based year.
pub open spec fn civil_doy(doe: int) -> int {
    let t = civil_yoe(doe);
    doe - (365 * t + t / 4 - t / 100)
}

/// March-based month (0 = March) of a day of the March-based year.
pub open spec fn civil_mp(doy: int) -> int {
    (5 * doy + 2) / 153
}

/// The civil date (year, month, day) of day number `z`, by the
/// civil-from-days arithmetic.
pub open spec fn civil_spec(z: int) -> (int, int, int) {
    let doe = civil_doe(z);
    let ym = civil_yoe(doe) + civil_era(z) * 400;
    let doy = civil_doy(doe);
    let mp = civil_mp(doy);
    let d = doy - (153 * mp + 2) / 5 + 1;
    let m = if mp < 10 {
        mp + 3
    } else {
        mp - 9
    };
    (if m <= 2 {
        ym + 1
    } else {
        ym
    }, m, d)
}

/// Leap year within an era: the year `400 * e + t` is a leap year
/// exactly when `t` is one.
proof fn lemma_leap_in_era(e: int, t: int)
    requires
        0 <= t <= 400,
    ensures
        is_leap(400 * e + t) == ((t % 4 == 0 && t % 100 != 0) || t % 400 == 0),
{
    if t < 400 {
        lemma_era_div(e, t);
    } else {
        lemma_era_div(e + 1, 0);
    }
}

proof fn lemma_civil_parts(z: int)
    ensures
        0 <= civil_doe(z) < 146097,
        0 <= civil_yoe(civil_doe(z)) < 400,
        0 <= civil_doy(civil_doe(z)),
        civil_doy(civil_doe(z)) < 365 + if ({
            let t1 = civil_yoe(civil_doe(z)) + 1;
            (t1 % 4 == 0 && t1 % 100 != 0) || t1 % 400 == 0
        }) {
            1int
        } else {
            0int
        },
        z + 719468 == civil_era(z) * 146097 + civil_doe(z),
{
    let doe = civil_doe(z);
    lemma_year_of_era(doe as u32);
    assert((doe as u32) as int == doe);
    let t = civil_yoe(doe);
    assert(t == ((doe as u32) - (doe as u32) / 1460 + (doe as u32) / 36524 - (doe as u32) / 146096) / 365);
    let t1 = t + 1;
    assert((t1 / 4 - t / 4) == if t1 % 4 == 0 {
        1int
    } else {
        0int
    });
    assert((t1 / 100 - t / 100) == if t1 % 100 == 0 {
        1int
    } else {
        0int
    });
    assert(t1 / 400 == if t1 == 400 {
        1int
    } else {
        0int
    });
}

/// The civil-from-days date of `z` is a real date, and its day number
/// is `z`.
pub proof fn lemma_civil(z: int)
    ensures
        valid_date(civil_spec(z).0, civil_spec(z).1, civil_spec(z).2),
        day_number(civil_spec(z).0, civil_spec(z).1, civil_spec(z).2) == z,
{
    lemma_civil_parts(z);
    let doe = civil_doe(z);
    let e = civil_era(z);
    let t = civil_yoe(doe);
    let ym = t + e * 400;
    let doy = civil_doy(doe);
    lemma_day_of_year(doy as u32);
    assert((doy as u32) as int == doy);
    let mp = civil_mp(doy);
    assert(mp == (5 * (doy as u32) + 2) / 153);
    let (y, m, d) = civil_spec(z);
    lemma_leap_in_era(e, t + 1);
    assert(400 * e + (t + 1) == ym + 1);
    lemma_march1(e, t);
    assert(400 * e + t == ym);
    lemma_days_before_month(y, m);
    if m <= 2 {
        lemma_days_before_year(ym + 1);
        lemma_days_before_year(ym);
        lemma_leap_step(ym);
        assert(days_before_year(ym + 1) == days_before_year(ym) + year_len(ym));
    }
}

/// The civil date of day number `z` (0 = 1970-01-01).
pub fn civil_from_days(z: i64) -> (r: (i64, i64, i64))
    requires
        -0x10_0000_0000_0000 <= z <= 0x10_0000_0000_0000,
    ensures
        (r.0 as int, r.1 as int, r.2 as int) == civil_spec(z as int),
        -0x1000_0000_0000 <= r.0 <= 0x1000_0000_0000,
        1 <= r.1 <= 12,
        1 <= r.2 <= 31,
{
    proof {
        lemma_civil_parts(z as int);
        lemma_civil(z as int);
    }
    let zz = z + 719468;
    let era = if zz >= 0 {
        zz / 146097
    } else {
        (zz - 146096) / 146097
    };
    let doe = zz - era * 146097;
    assert(era == civil_era(z as int) && doe == civil_doe(z as int));
    let yoe = (doe - doe / 1460 + doe / 36524 - doe / 146096) / 365;
    let ym = yoe + era * 400;
    let doy = doe - (365 * yoe + yoe / 4 - yoe / 100);
    let mp = (5 * doy + 2) / 153;
    let d = doy - (153 * mp + 2) / 5 + 1;
    let m = if mp < 10 {
        mp + 3
    } else {
        mp - 9
    };
    let y = if m <= 2 {
        ym + 1
    } else {
        ym
    };
    (y, m, d)
}

proof fn lemma_dby_mono(a: int, b: int)
    requires
        a <= b,
    ensures
        days_before_year(a) + 365 * (b - a) <= days_before_year(b),
    decreases b - a,
{
    if a < b {
        lemma_dby_mono(a, b - 1);
        lemma_days_before_year(b);
        lemma_days_before_year(b - 1);
        lemma_leap_step(b - 1);
    }
}

proof fn lemma_dbm_mono(y: int, a: int, b: int)
    requires
        1 <= a <= b <= 13,
    ensures
        days_before_month(y, a) + 28 * (b - a) <= days_before_month(y, b),
    decreases b - a,
{
    if a < b {
        lemma_dbm_mono(y, a, b - 1);
    }
}

/// A valid date falls within its year.
proof fn lemma_in_year(y: int, m: int, d: int)
    requires
        valid_date(y, m, d),
    ensures
        days_before_year(y) <= day_number(y, m, d) < days_before_year(y + 1),
{
    lemma_dbm_mono(y, m + 1, 13);
    lemma_dbm_mono(y, 1, m);
    assert(days_before_month(y, m + 1) == days_before_month(y, m) + month_len(y, m));
    lemma_days_before_month(y, 13);
    assert(days_before_month(y, 13) == year_len(y));
    lemma_days_before_year(y + 1);
    lemma_days_before_year(y);
    lemma_leap_step(y);
}

/// Different valid dates have different day numbers, so a day number
/// names exactly one date.
pub proof fn lemma_day_number_injective(y1: int, m1: int, d1: int, y2: int, m2: int, d2: int)
    requires
        valid_date(y1, m1, d1),
        valid_date(y2, m2, d2),
        day_number(y1, m1, d1) == day_number(y2, m2, d2),
    ensures
        y1 == y2 && m1 == m2 && d1 == d2,
{
    lemma_in_year(y1, m1, d1);
    lemma_in_year(y2, m2, d2);
    if y1 < y2 {
        lemma_dby_mono(y1 + 1, y2);
    } else if y2 < y1 {
        lemma_dby_mono(y2 + 1, y1);
    } else if m1 < m2 {
        lemma_dbm_mono(y1, m1 + 1, m2);
    } else if m2 < m1 {
        lemma_dbm_mono(y1, m2 + 1, m1);
    }
}

/// Writing a year as `{:04}` does: a sign, then zero padding to four
/// characters in all.
pub open spec fn year_text(y: int) -> Seq<char> {
    if y < 0 {
        seq!['-'] + zero_pad(digits((-y) as nat, 10), 3)
    } else {
        zero_pad(digits(y as nat, 10), 4)
    }
}

/// "yyyy-mm-dd".
pub open spec fn date_text(y: int, m: int, d: int) -> Seq<char> {
    year_text(y) + seq!['-'] + zero_pad(digits(m as nat, 10), 2) + seq!['-'] + zero_pad(
        digits(d as nat, 10),
        2,
    )
}

/// Unix seconds as the civil date "yyyy-mm-dd" of the day they fall in.
pub fn ymd(secs: i64) -> (s: String)
    ensures
        exists|y: int, m: int, d: int|
            #![trigger date_text(y, m, d)]
            valid_date(y, m, d) && day_number(y, m, d) == secs as int / 86400 && s@ == date_text(
                y,
                m,
                d,
            ),
{
    let q = if secs >= 0 {
        secs / 86400
    } else {
        (secs + 1) / 86400 - 1
    };
    assert(q == secs as int / 86400);
    let (y, m, d) = civil_from_days(q);
    proof {
        lemma_civil(q as int);
    }
    let mut out: Vec<char> = Vec::new();
    if y < 0 {
        out.push('-');
        out.extend_from_slice(&decimal_padded((-y) as u64, 3));
    } else {
        out.extend_from_slice(&decimal_padded(y as u64, 4));
    }
    out.push('-');
    out.extend_from_slice(&decimal_padded(m as u64, 2));
    out.push('-');
    out.extend_from_slice(&decimal_padded(d as u64, 2));
    assert(out@ =~= date_text(y as int, m as int, d as int));
    crate::strs::string_of(&out, 0, out.len())
}

} // verus!
