use windows_rs_telemetry::double::Double;
use windows_rs_telemetry::format::{ghz, gib, gib_pair, percent, rate};

fn d(x: f64) -> Double {
    Double { bits: x.to_bits() }
}

#[test]
fn units_switch_at_one_mebibyte() {
    assert_eq!(rate(d(512.0)), "0.5 KiB/s");
    assert_eq!(rate(d(1024.0 * 1024.0)), "1.00 MiB/s");
    assert_eq!(gib_pair(1 << 30, 4 << 30), "1.00 / 4.00 GiB");
}

#[test]
fn rates_below_and_at_the_switch() {
    assert_eq!(rate(d(0.0)), "0.0 KiB/s");
    assert_eq!(rate(d(1024.0 * 1024.0 - 1.0)), "1024.0 KiB/s");
    assert_eq!(rate(d(1.5 * 1024.0 * 1024.0)), "1.50 MiB/s");
}

#[test]
fn ratios_and_frequencies() {
    assert_eq!(percent(d(0.5)), "50.0%");
    assert_eq!(percent(d(1.0)), "100.0%");
    assert_eq!(percent(d(0.1234)), "12.3%");
    assert_eq!(ghz(d(2800.0)), "2.80 GHz");
    assert_eq!(gib(3 << 29), "1.50");
}
