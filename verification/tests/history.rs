use std::sync::Arc;
use windows_rs_telemetry::battery::{BatteryFlow, BatterySnapshot, PowerStatus};
use windows_rs_telemetry::clock::{Moment, SECOND};
use windows_rs_telemetry::cpu::CpuUsage;
use windows_rs_telemetry::double::Double;
use windows_rs_telemetry::error::{Error, ErrorKind};
use windows_rs_telemetry::history::{
    unless_stale, History, MemoryUse, Metric, Reading, HISTORY_SPAN, MAX_POINTS, PENDING_LABEL, STALE_LABEL,
};
use windows_rs_telemetry::memory::MemorySnapshot;
use windows_rs_telemetry::network::NetworkUsage;
use windows_rs_telemetry::nvme::{DiskDevice, SmartHealth};
use windows_rs_telemetry::pdh::{DiskRates, EngineReading, Snapshot};
use windows_rs_telemetry::sampling::Sample;
use windows_rs_telemetry::single::Single;
use windows_rs_telemetry::sources::Sources;

fn d(x: f64) -> Double {
    Double { bits: x.to_bits() }
}

fn s(x: Single) -> f32 {
    f32::from_bits(x.bits)
}

fn after(start: Moment, nanos: u64) -> Moment {
    Moment {
        nanos: start.nanos + nanos,
    }
}

fn start() -> Moment {
    Moment {
        nanos: 100 * SECOND,
    }
}

fn failure(message: &str) -> Error {
    Error::new(ErrorKind::Other, message.into())
}

fn demo_battery() -> BatterySnapshot {
    BatterySnapshot {
        power: Ok(PowerStatus {
            ac_online: Some(false),
            present: Some(true),
            charging: Some(false),
            percent: Some(76),
            saver: Some(false),
            remaining_seconds: Some(18000),
        }),
        flow: Ok(BatteryFlow {
            present: true,
            charging: false,
            discharging: true,
            milliwatts: Some(-12340),
        }),
    }
}

fn demo_health() -> SmartHealth {
    SmartHealth {
        critical_warning: 0,
        temperature_c: d(39.85),
        available_spare_percent: 100,
        spare_threshold_percent: 5,
        percentage_used: 2,
    }
}

fn demo_sample(at: Moment, second: u64) -> Sample {
    let phase = second as f64 / 7.0;
    let cpu = if (second % 30) >= 12 && (second % 30) <= 14 {
        CpuUsage::Pending
    } else {
        CpuUsage::Busy(d(0.4 + 0.3 * phase.sin()))
    };
    let total_bytes = 32_u64 << 30;
    Sample {
        taken_at: at,
        cpu: Ok(cpu),
        cpu_mhz: Ok(Some(d(2800.0 + 350.0 * phase.sin()))),
        memory: Ok(MemorySnapshot {
            total_bytes,
            available_bytes: (total_bytes as f64 * (0.48 + 0.07 * (phase / 2.0).cos())) as u64,
        }),
        network_at: at,
        battery: Some((at, Arc::new(demo_battery()))),
        nvme: Some((at, Arc::new(Ok(demo_health())))),
        pdh: Some((
            at,
            Snapshot {
                disk: Ok(DiskRates {
                    read_bps: d((1.2 + phase.sin()) * 1024.0 * 1024.0),
                    write_bps: d(250.0 * 1024.0),
                }),
                gpu: Ok(Some(EngineReading {
                    adapter: "演示 GPU".into(),
                    pid: 1234,
                    engine_type: "3D".into(),
                    percent: d(50.0 + 30.0 * phase.sin()),
                })),
            },
        )),
        network: Ok(if (second % 30) >= 20 && (second % 30) <= 22 {
            NetworkUsage::Disconnected
        } else {
            NetworkUsage::Transfer {
                download_bytes_per_sec: d((1.5 + phase.sin()) * 1024.0 * 1024.0),
                upload_bytes_per_sec: d((0.3 + 0.2 * (phase * 1.7).cos()) * 1024.0 * 1024.0),
            }
        }),
    }
}

#[test]
fn network_keeps_bytes_per_second_its_own_timestamp_and_error_gaps() {
    let start = start();
    let mut h = History::default();
    let mut sample = demo_sample(start, 0);
    sample.network_at = after(start, 500_000_000);
    sample.network = Ok(NetworkUsage::Transfer {
        download_bytes_per_sec: d(2048.0),
        upload_bytes_per_sec: d(1024.0),
    });
    h.push(sample);
    let mut failed = demo_sample(after(start, SECOND), 1);
    failed.network = Err(failure("network probe failed"));
    h.push(failed);
    let series = h.network_series(after(start, SECOND), |p: &Reading| p.download);
    let (x, rate) = series[0].unwrap();
    assert!((s(x) - (1.0 - 0.5 / 60.0)).abs() < 0.0001);
    assert_eq!(s(rate), 2048.0);
    assert!(series[1].is_none());
    assert!(h.points[1].cpu.is_some() && h.points[1].ram.is_some());
    assert!(h.network_status.contains("network probe failed"));
}

#[test]
fn timestamps_set_spacing_and_missing_values_break_only_their_metric() {
    let start = start();
    let mut h = History::default();
    h.push(demo_sample(start, 0));
    h.push(demo_sample(after(start, SECOND), 12));
    h.push(demo_sample(after(start, 5 * SECOND), 5));
    let now = after(start, 5 * SECOND);
    let cpu = h.series(now, |p: &Reading| p.cpu);
    assert!((s(cpu[0].unwrap().0) - 55.0 / 60.0).abs() < 0.0001);
    assert_eq!(cpu[1], None);
    assert_eq!(cpu[2], None);
    assert_eq!(s(cpu[3].unwrap().0), 1.0);
    assert!(h.series(now, |p: &Reading| p.ram)[1].is_some());
}

#[test]
fn history_expires_and_is_bounded_even_at_high_frequency() {
    let start = start();
    let mut h = History::default();
    for i in 0..1000 {
        h.push(demo_sample(after(start, i * 1_000_000), i));
    }
    assert_eq!(h.points.len(), MAX_POINTS);
    h.prune(after(start, 62 * SECOND));
    assert!(h.points.is_empty());
}

#[test]
fn errors_are_gaps_and_old_samples_cannot_replace_current_labels() {
    let now = start();
    let mut h = History::default();
    let mut sample = demo_sample(now, 0);
    sample.cpu = Err(failure("probe failed"));
    h.push(sample);
    assert!(h.points[0].cpu.is_none());
    assert!(h.points[0].ram.is_some());
    h.push(demo_sample(
        Moment {
            nanos: now.nanos - SECOND,
        },
        1,
    ));
    assert!(h.cpu_label().contains("probe failed"));
    assert_eq!(h.points.len(), 1);
    let mut sample = demo_sample(after(now, SECOND), 2);
    sample.cpu = Ok(CpuUsage::Busy(d(1.5)));
    h.push(sample);
    assert!(matches!(h.cpu, Metric::Failed(_)));
    assert!(h.points[1].cpu.is_none());
}

#[test]
fn an_empty_history_says_what_it_waits_for() {
    let h = History::default();
    assert_eq!(h.last_sample_at(), None);
    assert_eq!(h.cpu_label(), "等待采样  ·  频率等待基线");
    assert_eq!(h.ram_label(), PENDING_LABEL);
    assert_eq!((h.network_name.as_str(), h.nvme_name.as_str()), ("未选择 WLAN", "未选择 NVMe"));
    assert_eq!((h.disk_label.as_str(), h.gpu_label.as_str()), ("等待基线", "等待基线"));
    let named = History::for_sources(&Sources {
        network_luid: Some(1),
        network_name: Some("WLAN".into()),
        disk: Some(DiskDevice {
            path: "p".into(),
            name: "Disk".into(),
        }),
    });
    assert_eq!((named.network_name.as_str(), named.nvme_name.as_str()), ("WLAN", "Disk"));
}

#[test]
fn labels_show_the_latest_values() {
    let mut h = History::default();
    let mut sample = demo_sample(start(), 0);
    sample.cpu = Ok(CpuUsage::Busy(d(0.5)));
    sample.cpu_mhz = Ok(Some(d(2500.0)));
    sample.memory = Ok(MemorySnapshot {
        total_bytes: 4 << 30,
        available_bytes: 3 << 30,
    });
    h.push(sample);
    assert_eq!(h.last_sample_at(), Some(start()));
    assert_eq!(h.cpu_label(), "50.0%  ·  估算频率 2.50 GHz");
    assert_eq!(h.ram_label(), "25.0%  ·  1.00 / 4.00 GiB");
    assert_eq!(h.disk_label, "读 1.20 MiB/s  ·  写 250.0 KiB/s");
    assert_eq!(h.gpu_label, "演示 GPU  ·  3D / PID 1234  50.0%");
    assert_eq!(h.nvme_label, demo_health().labels().0);
    assert_eq!(h.battery_detail, demo_battery().labels().1);
    assert_eq!(h.network_status, "");
}

#[test]
fn failures_are_labels_of_their_own() {
    let mut h = History::default();
    let mut sample = demo_sample(start(), 0);
    sample.cpu_mhz = Ok(Some(d(0.0)));
    sample.memory = Ok(MemorySnapshot {
        total_bytes: 1,
        available_bytes: 2,
    });
    sample.nvme = Some((start(), Arc::new(Err("cold".to_string()))));
    sample.pdh = Some((
        start(),
        Snapshot {
            disk: Err("disk".to_string()),
            gpu: Err("gpu".to_string()),
        },
    ));
    h.push(sample);
    assert!(h.cpu_label().ends_with("频率读取失败：无效频率"));
    assert_eq!(h.ram_label(), "读取失败：无效容量");
    assert_eq!((h.nvme_label.as_str(), h.nvme_detail.as_str()), ("读取失败：cold", ""));
    assert_eq!((h.disk_label.as_str(), h.gpu_label.as_str()), ("读取失败：disk", "读取失败：gpu"));
    let mut sample = demo_sample(after(start(), SECOND), 1);
    sample.memory = Err(failure("memory"));
    sample.cpu_mhz = Err("mhz".to_string());
    sample.pdh = Some((
        start(),
        Snapshot {
            disk: Err("disk".to_string()),
            gpu: Ok(None),
        },
    ));
    h.push(sample);
    assert_eq!(h.ram_label(), "读取失败：memory");
    assert!(h.cpu_label().ends_with("频率读取失败：mhz"));
    assert_eq!(h.gpu_label, "没有活动引擎实例");
}

#[test]
fn network_states_have_their_words() {
    let mut h = History::default();
    let mut at = start();
    for (usage, words) in [
        (NetworkUsage::NotSelected, "未选择接口"),
        (NetworkUsage::Pending, "等待下一次采样"),
        (NetworkUsage::Disconnected, "接口未连接"),
        (NetworkUsage::Unavailable, "接口不在场"),
    ] {
        let mut sample = demo_sample(at, 0);
        sample.network = Ok(usage);
        h.push(sample);
        assert_eq!(h.network_status, words);
        at = after(at, SECOND);
    }
}

#[test]
fn slow_readings_are_taken_over_only_when_newer() {
    let mut h = History::default();
    h.push(demo_sample(start(), 0));
    let mut sample = demo_sample(after(start(), SECOND), 1);
    sample.nvme = Some((start(), Arc::new(Err("same time".to_string()))));
    sample.battery = None;
    h.push(sample);
    assert_eq!(h.nvme_label, demo_health().labels().0);
    assert_eq!(h.battery_at, Some(start()));
}

#[test]
fn positions_are_those_of_the_hardware() {
    let start = start();
    let mut h = History::default();
    let mut nanos = 0;
    while nanos <= HISTORY_SPAN {
        let mut one = History::default();
        one.push(demo_sample(start, 0));
        let series = one.series(after(start, nanos), |p: &Reading| p.ram);
        let age = std::time::Duration::from_nanos(nanos).as_secs_f32();
        assert_eq!(series[0].unwrap().0.bits, (1.0 - age / 60.0_f32).to_bits());
        nanos += 123_456_789;
    }
    h.push(demo_sample(start, 0));
    let now = after(start, HISTORY_SPAN);
    assert_eq!(s(h.series(now, |p: &Reading| p.ram)[0].unwrap().0), 0.0);
    assert!(h.series(after(now, 1), |p: &Reading| p.ram).is_empty());
}

#[test]
fn metrics_show_pending_values_and_failures() {
    let show = |x: &u32| format!("<{}>", x);
    assert_eq!(Metric::Value(3_u32).label(show), "<3>");
    assert_eq!(Metric::<u32>::Pending.label(show), PENDING_LABEL);
    assert_eq!(Metric::<u32>::Failed("x".into()).label(show), "读取失败：x");
    assert_eq!(Metric::Value(3_u32).value(), Some(&3));
    assert_eq!(Metric::<u32>::Pending.value(), None);
    assert_eq!(unless_stale("label", false), "label");
    assert_eq!(unless_stale("label", true), STALE_LABEL);
}

#[test]
fn a_failed_reading_leaves_the_others_as_they_are() {
    let mut whole = History::default();
    whole.push(demo_sample(start(), 0));
    let mut broken = History::default();
    let mut sample = demo_sample(start(), 0);
    sample.memory = Err(failure("memory"));
    sample.pdh = None;
    broken.push(sample);
    assert_eq!(broken.cpu_label(), whole.cpu_label());
    assert_eq!(broken.network_status, whole.network_status);
    assert_eq!(broken.battery_label, whole.battery_label);
    assert_eq!(broken.nvme_label, whole.nvme_label);
    assert_ne!(broken.ram_label(), whole.ram_label());
    assert_eq!(broken.points[0].ram, None);
    assert_eq!(broken.points[0].cpu, whole.points[0].cpu);
    assert_eq!(broken.points[0].download, whole.points[0].download);
}

#[test]
fn pruning_twice_is_pruning_once() {
    let mut h = History::default();
    for i in 0..70 {
        h.push(demo_sample(after(start(), i * SECOND), i));
    }
    assert_eq!(h.points.len(), 61);
    let now = after(start(), 80 * SECOND);
    h.prune(now);
    let left = h.points.len();
    assert_eq!(left, 50);
    h.prune(now);
    assert_eq!(h.points.len(), left);
    for i in 1..left {
        assert!(h.points[i - 1].at.nanos < h.points[i].at.nanos);
    }
    assert_eq!(h.cpu.clone(), h.cpu);
}

#[test]
fn readings_compare_as_numbers() {
    let used = |ratio: f64, used_bytes: u64| MemoryUse {
        ratio: d(ratio),
        used_bytes,
        total_bytes: 8,
    };
    assert_eq!(used(0.0, 1), used(-0.0, 1));
    assert_ne!(used(0.0, 1), used(0.0, 2));
    assert_ne!(used(f64::NAN, 1), used(f64::NAN, 1));
    assert_eq!(Metric::Value(d(0.0)), Metric::Value(d(-0.0)));
    assert_ne!(Metric::Value(d(f64::NAN)), Metric::Value(d(f64::NAN)));
    assert_eq!(Metric::<Double>::Failed("x".into()), Metric::Failed("x".into()));
    assert_ne!(Metric::<Double>::Failed("x".into()), Metric::Failed("y".into()));
    assert_ne!(Metric::<Double>::Failed("x".into()), Metric::Pending);
}

#[test]
fn merged_samples_lose_no_slow_reading() {
    let slow = Arc::new(demo_battery());
    let cold: Arc<Result<SmartHealth, String>> = Arc::new(Err("cold".to_string()));
    let sample = |second: u64, battery_at: u64, nvme_at: u64| {
        let mut sample = demo_sample(after(start(), second * SECOND), second);
        sample.battery = Some((after(start(), battery_at), Arc::clone(&slow)));
        sample.nvme = Some((after(start(), nvme_at), Arc::clone(&cold)));
        sample
    };
    for (battery_at, nvme_at) in [(0, 0), (3 * SECOND, 0), (3 * SECOND, 30 * SECOND)] {
        let mut both = History::default();
        both.push(sample(0, 0, 0));
        both.push(sample(1, battery_at, nvme_at));
        let mut merged = History::default();
        merged.push(sample(1, battery_at, nvme_at));
        assert_eq!(both.battery_at, merged.battery_at);
        assert_eq!(both.battery_label, merged.battery_label);
        assert_eq!(both.battery_detail, merged.battery_detail);
        assert_eq!(both.nvme_at, merged.nvme_at);
        assert_eq!(both.nvme_label, merged.nvme_label);
        assert_eq!(both.nvme_detail, merged.nvme_detail);
    }
}
