use duplicate_finder::calendar::civil_from_days;
use duplicate_finder::present::format_date_at;

#[test]
fn day_numbers_name_their_dates() {
    assert_eq!(civil_from_days(0), (1970, 1, 1));
    assert_eq!(civil_from_days(-1), (1969, 12, 31));
    assert_eq!(civil_from_days(11016), (2000, 2, 29));
    assert_eq!(civil_from_days(19723), (2024, 1, 1));
    assert_eq!(civil_from_days(-135080), (1600, 3, 1));
    assert_eq!(civil_from_days(47846), (2100, 12, 31));
}

#[test]
fn consecutive_days_are_consecutive_dates() {
    let mut prev = civil_from_days(-800_000);
    for z in -799_999..800_000i64 {
        let cur = civil_from_days(z);
        let next_day = (prev.0, prev.1, prev.2 + 1);
        let next_month = if prev.1 == 12 { (prev.0 + 1, 1, 1) } else { (prev.0, prev.1 + 1, 1) };
        assert!(cur == next_day || cur == next_month, "{z}: {prev:?} -> {cur:?}");
        prev = cur;
    }
}

#[test]
fn dates_leave_out_the_current_year() {
    let now = 19723 * 86400 + 5000;
    assert_eq!(format_date_at(Some(19723 * 86400 + 86399), now), "Jan 1");
    assert_eq!(format_date_at(Some(11016 * 86400), now), "Feb 29, 2000");
    assert_eq!(format_date_at(Some(-1), now), "Dec 31, 1969");
    assert_eq!(format_date_at(None, now), "");
    assert_eq!(format_date_at(Some(0), 0), "Jan 1");
}

fn reference_date(z: i64) -> (i64, u32, u32) {
    let z = z as i128 + 719468;
    let era = if z >= 0 { z } else { z - 146096 } / 146097;
    let doe = z - era * 146097;
    let yoe = (doe - doe / 1460 + doe / 36524 - doe / 146096) / 365;
    let y = yoe + era * 400;
    let doy = doe - (365 * yoe + yoe / 4 - yoe / 100);
    let mp = (5 * doy + 2) / 153;
    let d = (doy - (153 * mp + 2) / 5 + 1) as u32;
    let m = if mp < 10 { mp + 3 } else { mp - 9 } as u32;
    ((if m <= 2 { y + 1 } else { y }) as i64, m, d)
}

#[test]
fn extreme_day_numbers_keep_their_dates() {
    for z in [i64::MIN, i64::MIN + 1, -146097 * 3 - 1, -719468, -719469, 146096, i64::MAX - 719468] {
        assert_eq!(civil_from_days(z), reference_date(z), "{z}");
    }
}
