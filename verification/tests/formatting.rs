use disty::double::Double;
use disty::formatting::{byte_unit, duration_unit, get_display_scale, DurationUnit, Format};

fn format_duration(ns: f64) -> String {
    match duration_unit(Double::from_bits(ns.to_bits())) {
        DurationUnit::Nanoseconds => format!("{:.2}ns", ns),
        DurationUnit::Microseconds => format!("{:.2}µs", ns / 1e3),
        DurationUnit::Milliseconds => format!("{:.2}ms", ns / 1e6),
        DurationUnit::Seconds => format!("{:.2}s", ns / 1e9),
        DurationUnit::Minutes => {
            let mins = (ns / 60e9).floor();
            let secs = (ns - mins * 60e9) / 1e9;
            format!("{}m{:.2}s", mins as i64, secs)
        }
        DurationUnit::Hours => {
            let hours = (ns / 3600e9).floor();
            let mins = ((ns - hours * 3600e9) / 60e9).floor();
            let secs = (ns - hours * 3600e9 - mins * 60e9) / 1e9;
            format!("{}h{}m{:.2}s", hours as i64, mins as i64, secs)
        }
    }
}

fn format_bytes(bytes: f64) -> String {
    let units = ["B", "KiB", "MiB", "GiB", "TiB", "PiB"];
    let unit_idx = byte_unit(Double::from_bits(bytes.to_bits()));
    let mut value = bytes;
    for _ in 0..unit_idx {
        value /= 1024.0;
    }
    if unit_idx == 0 {
        format!("{:.0}{}", value, units[unit_idx])
    } else {
        format!("{:.2}{}", value, units[unit_idx])
    }
}

fn format(format: Format, value: f64) -> String {
    match format {
        Format::Float => format!("{:.2}", value),
        Format::Hex => format!("0x{:x}", value as u64),
        Format::Time => format_duration(value),
        Format::Bytes => format_bytes(value),
    }
}

#[test]
fn test_format_duration_nanoseconds() {
    assert_eq!(format_duration(1.0), "1.00ns");
    assert_eq!(format_duration(500.0), "500.00ns");
    assert_eq!(format_duration(999.0), "999.00ns");
}

#[test]
fn test_format_duration_microseconds() {
    assert_eq!(format_duration(1e3), "1.00µs");
    assert_eq!(format_duration(5e3), "5.00µs");
    assert_eq!(format_duration(500e3), "500.00µs");
}

#[test]
fn test_format_duration_milliseconds() {
    assert_eq!(format_duration(1e6), "1.00ms");
    assert_eq!(format_duration(5e6), "5.00ms");
    assert_eq!(format_duration(500e6), "500.00ms");
}

#[test]
fn test_format_duration_seconds() {
    assert_eq!(format_duration(1e9), "1.00s");
    assert_eq!(format_duration(5e9), "5.00s");
    assert_eq!(format_duration(30e9), "30.00s");
}

#[test]
fn test_format_duration_minutes() {
    assert_eq!(format_duration(60e9), "1m0.00s");
    assert_eq!(format_duration(90e9), "1m30.00s");
    assert_eq!(format_duration(150e9), "2m30.00s");
}

#[test]
fn test_format_duration_hours() {
    assert_eq!(format_duration(3600e9), "1h0m0.00s");
    assert_eq!(format_duration(3661e9), "1h1m1.00s");
    assert_eq!(format_duration(7384e9), "2h3m4.00s");
}

#[test]
fn test_format_bytes_bytes() {
    assert_eq!(format_bytes(0.0), "0B");
    assert_eq!(format_bytes(100.0), "100B");
    assert_eq!(format_bytes(1023.0), "1023B");
}

#[test]
fn test_format_bytes_kibibytes() {
    assert_eq!(format_bytes(1024.0), "1.00KiB");
    assert_eq!(format_bytes(2048.0), "2.00KiB");
    assert_eq!(format_bytes(1536.0), "1.50KiB");
}

#[test]
fn test_format_bytes_mebibytes() {
    assert_eq!(format_bytes(1024.0 * 1024.0), "1.00MiB");
    assert_eq!(format_bytes(2.5 * 1024.0 * 1024.0), "2.50MiB");
}

#[test]
fn test_format_bytes_gibibytes() {
    assert_eq!(format_bytes(1024.0_f64.powi(3)), "1.00GiB");
    assert_eq!(format_bytes(5.5 * 1024.0_f64.powi(3)), "5.50GiB");
}

#[test]
fn test_format_bytes_tebibytes() {
    assert_eq!(format_bytes(1024.0_f64.powi(4)), "1.00TiB");
    assert_eq!(format_bytes(2.75 * 1024.0_f64.powi(4)), "2.75TiB");
}

#[test]
fn test_format_bytes_pebibytes() {
    assert_eq!(format_bytes(1024.0_f64.powi(5)), "1.00PiB");
    assert_eq!(format_bytes(3.14 * 1024.0_f64.powi(5)), "3.14PiB");
}

#[test]
fn test_format_time() {
    assert_eq!(format(Format::Time, 1e6), "1.00ms");
    assert_eq!(format(Format::Time, 60e9), "1m0.00s");
}

#[test]
fn test_format_bytes_format() {
    assert_eq!(format(Format::Bytes, 1024.0), "1.00KiB");
    assert_eq!(format(Format::Bytes, 1024.0_f64.powi(2)), "1.00MiB");
}

#[test]
fn duration_unit_changes_at_the_thresholds() {
    let below = |x: f64| f64::from_bits(x.to_bits() - 1);
    let unit = |x: f64| duration_unit(Double::from_bits(x.to_bits()));
    assert_eq!(unit(0.0), DurationUnit::Nanoseconds);
    assert_eq!(unit(-1e12), DurationUnit::Nanoseconds);
    assert_eq!(unit(below(1e3)), DurationUnit::Nanoseconds);
    assert_eq!(unit(1e3), DurationUnit::Microseconds);
    assert_eq!(unit(below(1e6)), DurationUnit::Microseconds);
    assert_eq!(unit(1e6), DurationUnit::Milliseconds);
    assert_eq!(unit(below(1e9)), DurationUnit::Milliseconds);
    assert_eq!(unit(1e9), DurationUnit::Seconds);
    assert_eq!(unit(below(60e9)), DurationUnit::Seconds);
    assert_eq!(unit(60e9), DurationUnit::Minutes);
    assert_eq!(unit(below(3600e9)), DurationUnit::Minutes);
    assert_eq!(unit(3600e9), DurationUnit::Hours);
    assert_eq!(unit(f64::INFINITY), DurationUnit::Hours);
    assert_eq!(unit(f64::NAN), DurationUnit::Hours);
}

#[test]
fn byte_unit_counts_the_divisions_by_1024() {
    let probes = [
        0.0, -5.0, 1.0, 1023.999, 1024.0, 1500.0, 1048575.9, 1048576.0, 1e9, 1.1e12, 1e15, 2e15,
        1e18, 1e300, f64::INFINITY, f64::NEG_INFINITY, f64::NAN,
    ];
    for bytes in probes {
        let mut value: f64 = bytes;
        let mut expected = 0;
        while value >= 1024.0 && expected < 5 {
            value /= 1024.0;
            expected += 1;
        }
        assert_eq!(byte_unit(Double::from_bits(bytes.to_bits())), expected, "{}", bytes);
    }
}

fn display_scale(max_value: f64, format: Format) -> (f64, &'static str) {
    let (scale, unit) = get_display_scale(Double::from_bits(max_value.to_bits()), format);
    (scale as f64, unit)
}

#[test]
fn test_get_display_scale_time_nanoseconds() {
    let (scale, unit) = display_scale(500.0, Format::Time);
    assert_eq!(scale, 1.0);
    assert_eq!(unit, "ns");
}

#[test]
fn test_get_display_scale_time_microseconds() {
    let (scale, unit) = display_scale(5e3, Format::Time);
    assert_eq!(scale, 1e3);
    assert_eq!(unit, "µs");
}

#[test]
fn test_get_display_scale_time_milliseconds() {
    let (scale, unit) = display_scale(5e6, Format::Time);
    assert_eq!(scale, 1e6);
    assert_eq!(unit, "ms");
}

#[test]
fn test_get_display_scale_time_seconds() {
    let (scale, unit) = display_scale(5e9, Format::Time);
    assert_eq!(scale, 1e9);
    assert_eq!(unit, "s");
}

#[test]
fn test_get_display_scale_bytes_b() {
    let (scale, unit) = display_scale(512.0, Format::Bytes);
    assert_eq!(scale, 1.0);
    assert_eq!(unit, "B");
}

#[test]
fn test_get_display_scale_bytes_kib() {
    let (scale, unit) = display_scale(2048.0, Format::Bytes);
    assert_eq!(scale, 1024.0);
    assert_eq!(unit, "KiB");
}

#[test]
fn test_get_display_scale_bytes_mib() {
    let (scale, unit) = display_scale(5.0 * 1024.0_f64.powi(2), Format::Bytes);
    assert_eq!(scale, 1024.0_f64.powi(2));
    assert_eq!(unit, "MiB");
}

#[test]
fn test_get_display_scale_float() {
    let (scale, unit) = display_scale(1000.0, Format::Float);
    assert_eq!(scale, 1.0);
    assert_eq!(unit, "");
}

#[test]
fn test_get_display_scale_hex() {
    let (scale, unit) = display_scale(255.0, Format::Hex);
    assert_eq!(scale, 1.0);
    assert_eq!(unit, "");
}

#[test]
fn display_scale_changes_at_the_thresholds() {
    let below = |x: f64| f64::from_bits(x.to_bits() - 1);
    for (threshold, under, at) in [(1e3, "ns", "µs"), (1e6, "µs", "ms"), (1e9, "ms", "s")] {
        assert_eq!(display_scale(below(threshold), Format::Time).1, under);
        assert_eq!(display_scale(threshold, Format::Time).1, at);
    }
    let names = ["B", "KiB", "MiB", "GiB", "TiB", "PiB"];
    for k in 1..=5 {
        let threshold = 1024.0_f64.powi(k);
        let (scale, unit) = display_scale(below(threshold), Format::Bytes);
        assert_eq!((scale, unit), (1024.0_f64.powi(k - 1), names[k as usize - 1]));
        let (scale, unit) = display_scale(threshold, Format::Bytes);
        assert_eq!((scale, unit), (threshold, names[k as usize]));
    }
}

#[test]
fn display_scale_of_values_off_the_scale() {
    assert_eq!(display_scale(-5.0, Format::Time), (1.0, "ns"));
    assert_eq!(display_scale(f64::NEG_INFINITY, Format::Bytes), (1.0, "B"));
    assert_eq!(display_scale(f64::INFINITY, Format::Time), (1e9, "s"));
    assert_eq!(display_scale(1e300, Format::Bytes), (1024.0_f64.powi(5), "PiB"));
    // Nothing is less than a value that is no number.
    assert_eq!(display_scale(f64::NAN, Format::Time), (1e9, "s"));
    assert_eq!(display_scale(f64::NAN, Format::Bytes), (1024.0_f64.powi(5), "PiB"));
}
