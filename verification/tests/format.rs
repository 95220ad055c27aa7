use std::time::Duration;

use reclaim::format::{bytes, duration};

/// Byte formatting done with a 64-bit float, as a reference.
fn float_bytes(n: u64) -> String {
    let units = ["B", "KB", "MB", "GB", "TB"];
    let mut size = n as f64;
    let mut unit = 0;
    while size >= 1024.0 && unit < units.len() - 1 {
        size /= 1024.0;
        unit += 1;
    }
    if unit == 0 {
        format!("{n} {}", units[0])
    } else {
        format!("{size:.1} {}", units[unit])
    }
}

/// Duration formatting done with a 64-bit float, as a reference.
fn float_duration(d: Duration) -> String {
    let ms = d.as_millis();
    if ms < 1000 {
        format!("{ms} ms")
    } else {
        format!("{:.1} s", d.as_secs_f64())
    }
}

fn dur(d: Duration) -> String {
    duration(d.as_secs(), d.subsec_nanos())
}

#[test]
fn small_values_stay_in_bytes() {
    assert_eq!(bytes(0), "0 B");
    assert_eq!(bytes(512), "512 B");
    assert_eq!(bytes(1023), "1023 B");
}

#[test]
fn durations_switch_units() {
    assert_eq!(dur(Duration::from_millis(5)), "5 ms");
    assert_eq!(dur(Duration::from_millis(820)), "820 ms");
    assert_eq!(dur(Duration::from_millis(2400)), "2.4 s");
}

#[test]
fn scales_up_to_each_unit() {
    assert_eq!(bytes(1024), "1.0 KB");
    assert_eq!(bytes(1536), "1.5 KB");
    assert_eq!(bytes(1024 * 1024), "1.0 MB");
    assert_eq!(bytes(3 * 1024 * 1024 * 1024), "3.0 GB");
}

#[test]
fn ties_round_to_even_tenth() {
    // 1280 bytes is exactly 1.25 KB; 1.25 lies halfway and goes to the even 1.2.
    assert_eq!(bytes(1280), "1.2 KB");
    // 1.75 KB goes up to the even 1.8.
    assert_eq!(bytes(1792), "1.8 KB");
    assert_eq!(bytes(1024 * 1024 * 1024 * 1024), "1.0 TB");
    assert_eq!(bytes(u64::MAX), "16777216.0 TB");
    assert_eq!(bytes(1048575), "1024.0 KB");
}

#[test]
fn bytes_matches_float_formatting() {
    let mut samples: Vec<u64> = Vec::new();
    for k in 0..5000u64 {
        samples.push(k);
        samples.push(1024 + k * 7);
        samples.push(k * 1024 + 256);
        samples.push(k * 1048576 / 5 + 1);
        samples.push(u64::MAX - k * 977);
        samples.push((1u64 << 53) + k * 3);
        samples.push((1u64 << 40) * (k + 1) + k);
    }
    let mut x: u64 = 0x9E3779B97F4A7C15;
    for _ in 0..20000 {
        x ^= x << 13;
        x ^= x >> 7;
        x ^= x << 17;
        samples.push(x >> (x % 64));
    }
    for n in samples {
        assert_eq!(bytes(n), float_bytes(n), "n = {n}");
    }
}

#[test]
fn duration_matches_float_formatting() {
    let mut samples: Vec<(u64, u32)> = Vec::new();
    for s in 0..40u64 {
        for n in [0u32, 1, 5, 49_999_999, 50_000_000, 450_000_000, 250_000_000, 350_000_000, 999_999_999, 123_456_789, 950_000_000] {
            samples.push((s, n));
            samples.push((s * 1_000_003 + 1, n));
            samples.push((u64::MAX - s, n));
            samples.push(((1u64 << 52) + s, n));
            samples.push(((1u64 << 53) - s, n));
        }
    }
    let mut x: u64 = 0x2545F4914F6CDD1D;
    for _ in 0..20000 {
        x ^= x << 13;
        x ^= x >> 7;
        x ^= x << 17;
        let secs = x >> (x % 64);
        let nanos = (x % 1_000_000_000) as u32;
        samples.push((secs, nanos));
        samples.push((secs % 100, nanos / 1_000_000 * 1_000_000 + 500_000));
    }
    for (s, n) in samples {
        let d = Duration::new(s, n);
        assert_eq!(duration(s, n), float_duration(d), "secs = {s}, nanos = {n}");
    }
}

#[test]
fn whole_units_and_seconds_print_point_zero() {
    assert_eq!(bytes(512 * 1024), "512.0 KB");
    assert_eq!(bytes(7 * 1024 * 1024 * 1024 * 1024), "7.0 TB");
    assert_eq!(duration(3, 0), "3.0 s");
    assert_eq!(duration(1, 0), "1.0 s");
    assert_eq!(duration(0, 999_999_999), "999 ms");
    assert_eq!(duration(0, 0), "0 ms");
}
