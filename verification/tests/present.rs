use duplicate_finder::present::{format_bytes, format_count, format_duration, format_ms};

fn float_bytes(n: u64) -> String {
    if n == 0 {
        return "0 B".to_string();
    }
    const UNITS: [&str; 5] = ["B", "KB", "MB", "GB", "TB"];
    let mut value = n as f64;
    let mut unit = 0;
    while value >= 1024.0 && unit < UNITS.len() - 1 {
        value /= 1024.0;
        unit += 1;
    }
    let decimals = if unit == 0 || value >= 10.0 { 0 } else { 1 };
    format!("{value:.decimals$} {}", UNITS[unit])
}

fn float_ms(ms: u64) -> String {
    if ms < 1000 {
        format!("{ms}ms")
    } else {
        format!("{:.1}s", ms as f64 / 1000.0)
    }
}

fn samples() -> Vec<u64> {
    let mut v: Vec<u64> = Vec::new();
    for n in 0..5000u64 {
        v.push(n);
    }
    for k in 0..64u32 {
        let p = 1u64 << k;
        for d in [0u64, 1, 2, 3, 5, 7, 100, 511, 512, 513, 1023, 1024, 1025] {
            v.push(p.wrapping_add(d));
            v.push(p.wrapping_sub(d));
            v.push(p.wrapping_mul(10).wrapping_add(d));
            v.push(p.wrapping_mul(10).wrapping_sub(d));
        }
    }
    for k in 0..40u64 {
        v.push(256 + 512 * k);
        v.push(1280 * (k + 1));
        v.push(1000 * k + 50);
        v.push(1000 * k + 150);
        v.push(1000 * k + 250);
        v.push(1000 * k + 950);
        v.push(u64::MAX - k);
    }
    let mut x: u64 = 0x9E3779B97F4A7C15;
    for _ in 0..20000 {
        x ^= x << 13;
        x ^= x >> 7;
        x ^= x << 17;
        v.push(x);
        v.push(x >> (x % 64));
    }
    v
}

#[test]
fn bytes_scale_to_the_right_unit() {
    assert_eq!(format_bytes(0), "0 B");
    assert_eq!(format_bytes(512), "512 B");
    assert_eq!(format_bytes(1536), "1.5 KB");
    assert_eq!(format_bytes(10 * 1024 * 1024), "10 MB");
}

#[test]
fn durations_include_hours_only_when_needed() {
    assert_eq!(format_duration(65_250_000), "1:05.250");
    assert_eq!(format_duration(3_665_000_000), "1:01:05.000");
}

#[test]
fn counts_get_thousands_separators() {
    assert_eq!(format_count(7), "7");
    assert_eq!(format_count(1234), "1,234");
    assert_eq!(format_count(1234567), "1,234,567");
}

#[test]
fn millis_switch_to_seconds_past_one_thousand() {
    assert_eq!(format_ms(250), "250ms");
    assert_eq!(format_ms(1500), "1.5s");
}

#[test]
fn byte_text_agrees_with_float_formatting() {
    for n in samples() {
        assert_eq!(format_bytes(n), float_bytes(n), "n = {n}");
    }
}

#[test]
fn millisecond_text_agrees_with_float_formatting() {
    for n in samples() {
        assert_eq!(format_ms(n), float_ms(n), "ms = {n}");
    }
}

#[test]
fn count_text_of_zero_and_of_the_largest_count() {
    assert_eq!(format_count(0), "0");
    assert_eq!(format_count(1000), "1,000");
    assert_eq!(format_count(1_000_001), "1,000,001");
    assert_eq!(format_count(u64::MAX), "18,446,744,073,709,551,615");
}

#[test]
fn count_text_agrees_with_digits() {
    for n in samples() {
        let digits = n.to_string();
        let mut out = String::new();
        for (i, c) in digits.chars().rev().enumerate() {
            if i > 0 && i % 3 == 0 {
                out.push(',');
            }
            out.push(c);
        }
        let expected: String = out.chars().rev().collect();
        assert_eq!(format_count(n), expected);
    }
}

#[test]
fn durations_round_to_milliseconds() {
    assert_eq!(format_duration(0), "0:00.000");
    assert_eq!(format_duration(499), "0:00.000");
    assert_eq!(format_duration(500), "0:00.001");
    assert_eq!(format_duration(59_999_600), "1:00.000");
    assert_eq!(format_duration(36_000_000_000), "10:00:00.000");
}

#[test]
fn ties_in_byte_text_round_to_even() {
    assert_eq!(format_bytes(1280), "1.2 KB");
    assert_eq!(format_bytes(1792), "1.8 KB");
    assert_eq!(format_bytes(1024), "1.0 KB");
    assert_eq!(format_bytes(u64::MAX), "16777216 TB");
}

#[test]
fn bytes_stop_at_terabytes_and_show_a_decimal_below_ten() {
    assert_eq!(format_bytes(1023), "1023 B");
    assert_eq!(format_bytes(1024), "1.0 KB");
    assert_eq!(format_bytes(10 * 1024 - 1), "10.0 KB");
    assert_eq!(format_bytes(1u64 << 40), "1.0 TB");
    assert_eq!(format_bytes(1u64 << 50), "1024 TB");
    assert_eq!(format_ms(999), "999ms");
    assert_eq!(format_ms(1000), "1.0s");
}
