use windows_rs_telemetry::chart::{
    compact_lines, font_step, full_view, layout, layout_scale, rate_axis, rate_ceiling, subtitle,
    time_label, to_dip, FontStep, Layout,
};
use windows_rs_telemetry::clock::{Moment, SECOND};
use windows_rs_telemetry::cpu::CpuUsage;
use windows_rs_telemetry::double::Double;
use windows_rs_telemetry::history::{History, PENDING_LABEL, STALE_LABEL};
use windows_rs_telemetry::memory::MemorySnapshot;
use windows_rs_telemetry::network::NetworkUsage;
use windows_rs_telemetry::sampling::Sample;
use windows_rs_telemetry::single::Single;

fn s(x: f32) -> Single {
    Single { bits: x.to_bits() }
}

fn d(x: f64) -> Double {
    Double { bits: x.to_bits() }
}

fn at(nanos: u64) -> Moment {
    Moment { nanos }
}

fn point(y: f32) -> Option<(Single, Single)> {
    Some((s(1.0), s(y)))
}

fn sample(taken_at: Moment, network: NetworkUsage) -> Sample {
    Sample {
        taken_at,
        cpu: Ok(CpuUsage::Busy(d(0.5))),
        cpu_mhz: Ok(None),
        memory: Ok(MemorySnapshot {
            total_bytes: 4 << 30,
            available_bytes: 3 << 30,
        }),
        network_at: taken_at,
        network: Ok(network),
        battery: None,
        nvme: None,
        pdh: None,
    }
}

fn traffic() -> NetworkUsage {
    NetworkUsage::Transfer {
        download_bytes_per_sec: d(512.0),
        upload_bytes_per_sec: d(2048.0),
    }
}

#[test]
fn network_scale_covers_both_directions_and_has_a_nonzero_floor() {
    assert_eq!(rate_ceiling(&[], &[]), s(1024.0));
    assert_eq!(rate_ceiling(&[point(1536.0)], &[None]), s(2048.0));
    assert_eq!(
        rate_ceiling(&[point(1536.0)], &[point(3.0 * 1024.0 * 1024.0)]),
        s(4.0 * 1024.0 * 1024.0)
    );
}

#[test]
fn the_scale_ends_at_the_next_power_of_two() {
    assert_eq!(rate_ceiling(&[point(2048.0)], &[]), s(2048.0));
    assert_eq!(rate_ceiling(&[point(2049.0)], &[point(1.0)]), s(4096.0));
    assert_eq!(rate_ceiling(&[point(f32::NAN)], &[point(-5.0)]), s(1024.0));
    assert_eq!(rate_ceiling(&[point(f32::MAX)], &[]), s(f32::INFINITY));
    let (foot, middle, top) = rate_axis(s(2.0 * 1024.0 * 1024.0));
    assert_eq!(
        (foot.as_str(), middle.as_str(), top.as_str()),
        ("0.0 KiB/s", "1.00 MiB/s", "2.00 MiB/s")
    );
}

#[test]
fn layouts_follow_the_window_size() {
    assert_eq!(layout(s(499.0), s(900.0)), Layout::Compact);
    assert_eq!(layout(s(900.0), s(499.9)), Layout::Compact);
    assert_eq!(layout(s(900.0), s(766.0)), Layout::Full);
    assert_eq!(layout(s(900.0), s(640.0)), Layout::Scaled(s(640.0_f32 / 766.0)));
    assert_eq!(layout_scale(s(500.0), s(500.0)), Some(s(500.0_f32 / 766.0)));
    assert_eq!(layout_scale(s(499.0), s(600.0)), None);
    assert_eq!(layout_scale(s(f32::NAN), s(600.0)), None);
    assert_eq!(layout_scale(s(900.0), s(800.0)), None);
}

#[test]
fn pixels_become_device_independent() {
    for (pixels, dpi) in [(1800_u32, 192_u32), (1281, 120), (u32::MAX, 96), (0, 96), (7, 144)] {
        let expected = pixels as f32 * 96.0 / dpi as f32;
        assert_eq!(to_dip(pixels, dpi), s(expected));
    }
}

#[test]
fn fonts_are_made_anew_only_for_a_different_scale() {
    assert_eq!(font_step(None, None), FontStep::Discard);
    assert_eq!(font_step(Some(s(0.8)), None), FontStep::Discard);
    assert_eq!(font_step(None, Some(s(0.8))), FontStep::Make(s(0.8)));
    assert_eq!(font_step(Some(s(0.8)), Some(s(0.805))), FontStep::Keep);
    assert_eq!(font_step(Some(s(0.805)), Some(s(0.8))), FontStep::Keep);
    assert_eq!(font_step(Some(s(0.8)), Some(s(0.82))), FontStep::Make(s(0.82)));
    assert_eq!(font_step(Some(s(0.82)), Some(s(0.8))), FontStep::Make(s(0.8)));
}

#[test]
fn the_summary_has_a_line_for_each_reading() {
    let mut history = History::default();
    history.push(sample(at(SECOND), traffic()));
    let lines = compact_lines(&history, at(2 * SECOND));
    assert_eq!(lines.len(), 7);
    assert_eq!(lines[0], "CPU  50.0%  ·  频率等待基线");
    assert_eq!(lines[1], "内存  25.0%  ·  1.00 / 4.00 GiB");
    assert_eq!(lines[2], "WLAN  ↓ 0.5 KiB/s  ↑ 2.0 KiB/s");
    assert_eq!(lines[3], "磁盘  等待基线");
    assert_eq!(lines[4], "GPU  等待基线");
    assert_eq!(lines[5], "NVMe  可用 --list-disks 查看设备");
    assert_eq!(lines[6], "电池  等待电池采样");
    let old = compact_lines(&history, at(10 * SECOND));
    assert_eq!(old[0], format!("CPU  {}", STALE_LABEL));
    assert_eq!(old[2], format!("WLAN  {}", STALE_LABEL));
    assert_eq!(old[3], "磁盘  等待基线");
}

#[test]
fn the_full_view_shows_rates_only_while_they_are_current() {
    let mut history = History::default();
    let empty = full_view(&history, at(0));
    assert_eq!(empty.cpu, format!("CPU   {}", PENDING_LABEL));
    assert_eq!(empty.download, "下载  —");
    assert_eq!(empty.network, "网络 / 未选择 WLAN  等待采样");
    assert_eq!(empty.nvme_detail.unwrap(), "");
    history.push(sample(at(SECOND), traffic()));
    let view = full_view(&history, at(2 * SECOND));
    assert_eq!(view.cpu, "CPU   50.0%  ·  频率等待基线");
    assert_eq!(view.download, "下载  0.5 KiB/s");
    assert_eq!(view.upload, "上传  2.0 KiB/s");
    assert_eq!(view.disk, "物理磁盘 / _Total  等待基线");
    let old = full_view(&history, at(10 * SECOND));
    assert_eq!(old.ram, "RAM   数据已过期，等待新样本");
    assert_eq!(old.upload, "上传  —");
    assert_eq!(old.network, format!("网络 / 未选择 WLAN  {}", STALE_LABEL));
}

#[test]
fn slow_readings_of_the_full_view_expire() {
    let mut history = History::default();
    history.nvme_at = Some(at(SECOND));
    history.nvme_detail = "细节".to_string();
    history.battery_at = Some(at(SECOND));
    history.battery_label = "76%".to_string();
    history.battery_detail = "电池侧".to_string();
    let view = full_view(&history, at(7_999_999_999));
    assert_eq!(view.nvme_detail.unwrap(), "细节  ·  6 秒前");
    assert_eq!((view.battery.as_str(), view.battery_detail.as_str()), ("电池  76%", "电池侧"));
    let old = full_view(&history, at(200 * SECOND));
    assert!(old.nvme_detail.is_none());
    assert_eq!(old.nvme, "NVMe / 未选择 NVMe  数据已过期，等待新样本");
    assert_eq!(old.battery, "电池  电池数据已过期，等待新样本");
    assert_eq!(old.battery_detail, "");
}

#[test]
fn captions_tell_the_intervals() {
    assert_eq!(
        subtitle(),
        "曲线：最近 60 秒 / 每 1 秒采样  ·  电池 3 秒  ·  NVMe 30 秒  ·  磁盘/GPU 约 1 秒"
    );
    let mut labels = Vec::new();
    for step in 0..5 {
        labels.push(time_label(step));
    }
    assert_eq!(labels, vec!["现在", "-15s", "-30s", "-45s", "-60s"]);
}

#[test]
fn stale_values_leave_no_trace() {
    let mut one = History::default();
    one.push(sample(at(SECOND), traffic()));
    let mut two = History::default();
    two.push(sample(at(SECOND), NetworkUsage::Pending));
    one.nvme_at = Some(at(0));
    two.nvme_at = Some(at(0));
    two.nvme_label = "other".to_string();
    let late = at(300 * SECOND);
    assert_eq!(compact_lines(&one, late), compact_lines(&two, late));
    assert_eq!(full_view(&one, late).network, full_view(&two, late).network);
    assert_eq!(full_view(&one, late).nvme, full_view(&two, late).nvme);
    assert_ne!(compact_lines(&one, at(SECOND)), compact_lines(&two, at(SECOND)));
}
