use windows_rs_telemetry::clock::{Moment, SECOND};
use windows_rs_telemetry::cpu::{filetime_to_u64, CpuSampler, CpuTimes, CpuUsage};
use windows_rs_telemetry::double::Double;

fn t(idle: u64, kernel: u64, user: u64) -> CpuTimes {
    CpuTimes { idle, kernel, user }
}

fn at(nanos: u64) -> Moment {
    Moment { nanos }
}

fn busy(ratio: f64) -> CpuUsage {
    CpuUsage::Busy(Double {
        bits: ratio.to_bits(),
    })
}

fn usage_after(d_idle: u64, d_kernel: u64, d_user: u64) -> CpuUsage {
    let mut s = CpuSampler::new();
    s.update(t(1000, 5000, 3000), at(0));
    s.update(
        t(1000 + d_idle, 5000 + d_kernel, 3000 + d_user),
        at(SECOND),
    )
}

#[test]
fn first_sample_is_pending() {
    assert_eq!(CpuSampler::new().update(t(1, 2, 3), at(0)), CpuUsage::Pending);
}

#[test]
fn fully_idle() {
    assert_eq!(usage_after(100, 100, 0), busy(0.0));
}

#[test]
fn fully_busy() {
    assert_eq!(usage_after(0, 60, 40), busy(1.0));
}

#[test]
fn half_busy() {
    assert_eq!(usage_after(50, 80, 20), busy(0.5));
}

#[test]
fn zero_delta_is_pending() {
    assert_eq!(usage_after(0, 0, 0), CpuUsage::Pending);
}

#[test]
fn counter_going_backwards_rebaselines() {
    let mut s = CpuSampler::new();
    s.update(t(1000, 5000, 3000), at(0));
    assert_eq!(s.update(t(900, 5000, 3000), at(SECOND)), CpuUsage::Pending);
    assert_eq!(s.update(t(950, 5100, 3000), at(2 * SECOND)), busy(0.5));
}

#[test]
fn long_gap_and_read_failure_require_a_fresh_baseline() {
    let mut s = CpuSampler::new();
    s.update(t(0, 0, 0), at(0));
    assert_eq!(s.update(t(100, 200, 100), at(30 * SECOND)), CpuUsage::Pending);
    assert_eq!(s.update(t(150, 280, 120), at(31 * SECOND)), busy(0.5));
    s.reset();
    assert_eq!(s.update(t(200, 360, 140), at(32 * SECOND)), CpuUsage::Pending);
}

#[test]
fn more_idle_time_than_time_is_pending() {
    assert_eq!(usage_after(200, 100, 0), CpuUsage::Pending);
}

#[test]
fn samples_at_the_same_time_are_pending() {
    let mut s = CpuSampler::default();
    s.update(t(0, 0, 0), at(5));
    assert_eq!(s.update(t(10, 20, 10), at(5)), CpuUsage::Pending);
}

#[test]
fn usage_is_the_rounded_ratio() {
    let expected = 1.0 - 1.0_f64 / 3.0;
    assert_eq!(usage_after(1, 2, 1), busy(expected));
}

#[test]
fn totals_beyond_64_bits_are_not_accepted() {
    let mut s = CpuSampler::new();
    s.update(t(0, 0, 0), at(0));
    assert!(s.accepts(t(0, u64::MAX, 0), at(SECOND)));
    assert!(!s.accepts(t(0, u64::MAX, 1), at(SECOND)));
    assert!(s.accepts(t(0, u64::MAX, 1), at(30 * SECOND)));
}

#[test]
fn halves_make_a_number() {
    assert_eq!(filetime_to_u64(1, 2), (1 << 32) + 2);
    assert_eq!(filetime_to_u64(u32::MAX, u32::MAX), u64::MAX);
}

#[test]
fn usages_compare_as_numbers() {
    assert_eq!(busy(0.0), busy(-0.0));
    assert_ne!(busy(f64::NAN), busy(f64::NAN));
    assert_ne!(busy(0.0), CpuUsage::Pending);
}
