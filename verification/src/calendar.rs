//! Calendar dates of day numbers, in the proleptic Gregorian calendar.

use vstd::prelude::*;

verus! {

/// The year of its 400-year era that day `doe` of the era (counted from
/// March 1 of the era's first year) falls in.
pub open spec fn year_of_era(doe: int) -> int {
    (doe - doe / 1460 + doe / 36524 - doe / 146096) / 365
}

/// Days from the start of an era to the start of its year `yoe`.
pub open spec fn era_days_before(yoe: int) -> int {
    365 * yoe + yoe / 4 - yoe / 100
}

proof fn lemma_year_of_era_bits(doe: u32)
    by (bit_vector)
    requires
        doe <= 146096,
    ensures
        ({
            let yoe = (doe - doe / 1460 + doe / 36524 - doe / 146096) / 365;
            &&& yoe <= 399
            &&& 365 * yoe + yoe / 4 - yoe / 100 <= doe
            &&& doe <= 365 * yoe + yoe / 4 - yoe / 100 + 365
            &&& yoe < 399 ==> doe < 365 * (yoe + 1) + (yoe + 1) / 4 - (yoe + 1) / 100
        }),
{
}

proof fn lemma_year_of_era(doe: int)
    requires
        0 <= doe <= 146096,
    ensures
        0 <= year_of_era(doe) <= 399,
        era_days_before(year_of_era(doe)) <= doe <= era_days_before(year_of_era(doe)) + 365,
        year_of_era(doe) < 399 ==> doe < era_days_before(year_of_era(doe) + 1),
{
    lemma_year_of_era_bits(doe as u32);
}

#[verifier::rlimit(100)]
proof fn lemma_next_day_of_era_bits(doe: u32)
    by (bit_vector)
    requires
        doe < 146096,
    ensures
        ({
            let y1 = (doe - doe / 1460 + doe / 36524 - doe / 146096) / 365;
            let e = doe + 1;
            let y2 = (e - e / 1460 + e / 36524 - e / 146096) / 365;
            let start1 = 365 * y1 + y1 / 4 - y1 / 100;
            let start2 = 365 * y2 + y2 / 4 - y2 / 100;
            ||| y2 == y1 && e - start2 == doe - start1 + 1
            ||| y2 == y1 + 1 && e == start2
        }),
{
}

proof fn lemma_next_day_of_year_bits(doy: u32)
    by (bit_vector)
    requires
        doy < 364,
    ensures
        ({
            let mp1 = (5 * doy + 2) / 153;
            let d1 = doy - (153 * mp1 + 2) / 5 + 1;
            let e = doy + 1;
            let mp2 = (5 * e + 2) / 153;
            let d2 = e - (153 * mp2 + 2) / 5 + 1;
            let len = if mp1 == 11 { 28u32 } else if mp1 == 1 || mp1 == 3 || mp1 == 6 || mp1 == 8 { 30u32 } else { 31u32 };
            &&& mp1 <= 11
            &&& 1 <= d1 <= len
            &&& mp1 == 11 ==> d1 <= 27
            &&& d1 < len ==> mp2 == mp1 && d2 == d1 + 1
            &&& d1 == len ==> mp2 == mp1 + 1 && d2 == 1
        }),
{
}

/// The (year, month, day) of the day `z` days after 1970-01-01, by Howard
/// Hinnant's `civil_from_days`: the day is placed in its 400-year era and in
/// the era's March-based year, and the month and day are read off the day of
/// that year.
pub open spec fn civil_date(z: int) -> (int, int, int) {
    let z = z + 719468;
    let era = z / 146097;
    let doe = z - era * 146097;
    let yoe = year_of_era(doe);
    let y = yoe + era * 400;
    let doy = doe - era_days_before(yoe);
    let mp = (5 * doy + 2) / 153;
    let d = doy - (153 * mp + 2) / 5 + 1;
    let m = if mp < 10 { mp + 3 } else { mp - 9 };
    (if m <= 2 { y + 1 } else { y }, m, d)
}

/// Leap years of the Gregorian calendar: those divisible by 4, except the
/// centuries not divisible by 400.
pub open spec fn is_leap_year(y: int) -> bool {
    y % 4 == 0 && (y % 100 != 0 || y % 400 == 0)
}

/// The number of days of month `m` of year `y`.
pub open spec fn days_in_month(y: int, m: int) -> int {
    if m == 2 {
        if is_leap_year(y) { 29 } else { 28 }
    } else if m == 4 || m == 6 || m == 9 || m == 11 {
        30
    } else {
        31
    }
}

/// The date after a given date.
pub open spec fn next_date(date: (int, int, int)) -> (int, int, int) {
    let (y, m, d) = date;
    if d < days_in_month(y, m) {
        (y, m, d + 1)
    } else if m < 12 {
        (y, m + 1, 1)
    } else {
        (y + 1, 1, 1)
    }
}

proof fn lemma_year_length_bits(y: u32)
    by (bit_vector)
    requires
        y < 399,
    ensures
        (365 * (y + 1) + (y + 1) / 4 - (y + 1) / 100) - (365 * y + y / 4 - y / 100) == (if (y + 1) % 4 == 0 && (y
            + 1) % 100 != 0 {
            366u32
        } else {
            365u32
        }),
{
}

/// The January of March-based year `yoe` of an era falls in a leap year
/// exactly when that March-based year has 366 days.
proof fn lemma_leap_of_era_year(yoe: int, era: int)
    requires
        0 <= yoe <= 399,
    ensures
        is_leap_year(yoe + 1 + era * 400) <==> (yoe == 399 || ((yoe + 1) % 4 == 0 && (yoe + 1) % 100 != 0)),
{
    let k = yoe + 1;
    assert(4 * (100 * era) + k == k + era * 400);
    assert(100 * (4 * era) + k == k + era * 400);
    assert(400 * era + k == k + era * 400);
    vstd::arithmetic::div_mod::lemma_mod_multiples_vanish(100 * era, k, 4);
    vstd::arithmetic::div_mod::lemma_mod_multiples_vanish(4 * era, k, 100);
    vstd::arithmetic::div_mod::lemma_mod_multiples_vanish(era, k, 400);
}

/// Day 0 is 1 January 1970.
pub proof fn lemma_civil_epoch()
    ensures
        civil_date(0) == (1970int, 1int, 1int),
{
    assert(719468int / 146097 == 4);
    assert(year_of_era(135080) == 369);
    assert(era_days_before(369) == 134774);
    assert((5 * 306 + 2) / 153 == 10);
    assert((153 * 10 + 2) / 5 == 306);
}

/// Day numbers run through the calendar one date at a time: every day number
/// names a real date (its day within the length of its month, leap years
/// counted), and the next day number names the next date.
pub proof fn lemma_civil_next_day(z: int)
    ensures
        1 <= civil_date(z).2 <= days_in_month(civil_date(z).0, civil_date(z).1),
        civil_date(z + 1) == next_date(civil_date(z)),
{
    let zz = z + 719468;
    let era = zz / 146097;
    let doe = zz - era * 146097;
    lemma_year_of_era(doe);
    let yoe = year_of_era(doe);
    let doy = doe - era_days_before(yoe);
    let base = yoe + era * 400;
    lemma_leap_of_era_year(yoe, era);
    if yoe < 399 {
        lemma_year_length_bits(yoe as u32);
    }
    let leap = is_leap_year(base + 1);
    assert(doy <= 365);
    assert(!leap ==> doy <= 364);
    if doe < 146096 {
        assert((zz + 1) / 146097 == era) by {
            vstd::arithmetic::div_mod::lemma_fundamental_div_mod_converse(zz + 1, 146097, era, doe + 1);
        }
        lemma_year_of_era(doe + 1);
        lemma_next_day_of_era_bits(doe as u32);
    } else {
        assert((zz + 1) / 146097 == era + 1) by {
            vstd::arithmetic::div_mod::lemma_fundamental_div_mod_converse(zz + 1, 146097, era + 1, 0);
        }
        assert(year_of_era(0) == 0);
    }
    if doy < 364 {
        lemma_next_day_of_year_bits(doy as u32);
        assert(doe < 146096);
    } else if doy == 364 {
        assert((5 * 364 + 2) / 153 == 11);
        assert((5 * 365 + 2) / 153 == 11);
        assert((153 * 11 + 2) / 5 == 337);
        assert((5 * 0 + 2) / 153 == 0);
        assert(doe < 146096);
    } else {
        assert((5 * 365 + 2) / 153 == 11);
        assert((153 * 11 + 2) / 5 == 337);
        assert((5 * 0 + 2) / 153 == 0);
    }
}

/// The day number of a date: days from 1970-01-01 to `day` of `month` of
/// `year`, counting March as the first month of the year so that a leap day
/// falls at the end of it.
pub open spec fn days_from_civil(year: int, month: int, day: int) -> int {
    let y = if month <= 2 { year - 1 } else { year };
    let era = y / 400;
    let yoe = y - era * 400;
    let mp = if month > 2 { month - 3 } else { month + 9 };
    let doy = (153 * mp + 2) / 5 + day - 1;
    era * 146097 + era_days_before(yoe) + doy - 719468
}

/// Every day number names a real date, with a month in 1 to 12 and a day in 1
/// to 31, and counting the days up to that date gives the day number back.
pub proof fn lemma_civil_round_trip(z: int)
    ensures
        1 <= civil_date(z).1 <= 12,
        1 <= civil_date(z).2 <= 31,
        days_from_civil(civil_date(z).0, civil_date(z).1, civil_date(z).2) == z,
{
    let zz = z + 719468;
    let era = zz / 146097;
    let doe = zz - era * 146097;
    lemma_year_of_era(doe);
    let yoe = year_of_era(doe);
    let doy = doe - era_days_before(yoe);
    assert(0 <= doy <= 365);
    lemma_day_of_year(doy as u32);
    let mp = (5 * doy + 2) / 153;
    let y = yoe + era * 400;
    assert(y / 400 == era) by {
        vstd::arithmetic::div_mod::lemma_fundamental_div_mod_converse(y, 400, era, yoe);
    }
}

proof fn lemma_day_of_year(doy: u32)
    by (bit_vector)
    requires
        doy <= 365,
    ensures
        ({
            let mp = (5 * doy + 2) / 153;
            &&& mp <= 11
            &&& (153 * mp + 2) / 5 <= doy
            &&& doy - (153 * mp + 2) / 5 <= 30
        }),
{
}

/// The (year, month, day) of the day `z` days after 1970-01-01, for every day
/// number whose shift onto the March-based calendar fits in an `i64`.
pub fn civil_from_days(z: i64) -> (r: (i64, u32, u32))
    requires
        z <= i64::MAX - 719468,
    ensures
        (r.0 as int, r.1 as int, r.2 as int) == civil_date(z as int),
        1 <= r.1 <= 12,
        1 <= r.2 <= 31,
{
    let eras: i128 = 100_000_000_000_000;
    let zz: u128 = (z as i128 + 719468 + 146097 * eras) as u128;
    let era_k = zz / 146097;
    let doe = zz - era_k * 146097;
    proof {
        lemma_year_of_era(doe as int);
        assert(era_k as int - eras == (z as int + 719468) / 146097);
    }
    let yoe = (doe - doe / 1460 + doe / 36524 - doe / 146096) / 365;
    let y: i128 = yoe as i128 + (era_k as i128 - eras) * 400;
    let doy = doe - (365 * yoe + yoe / 4 - yoe / 100);
    let mp = (5 * doy + 2) / 153;
    let d = doy - (153 * mp + 2) / 5 + 1;
    let m = if mp < 10 { mp + 3 } else { mp - 9 };
    let year = if m <= 2 { y + 1 } else { y };
    (year as i64, m as u32, d as u32)
}

} // verus!
