use windows_rs_telemetry::cards::{
    after_check, fresh, Gauges, Message, Metric, Next, Page, Signal, CHECKS,
};
use windows_rs_telemetry::clock::{Moment, SECOND};
use windows_rs_telemetry::cpu::CpuUsage;
use windows_rs_telemetry::double::Double;
use windows_rs_telemetry::error::{Error, ErrorKind};
use windows_rs_telemetry::history::STALE_LABEL;
use windows_rs_telemetry::memory::MemorySnapshot;
use windows_rs_telemetry::network::NetworkUsage;
use windows_rs_telemetry::sampling::Sample;
use windows_rs_telemetry::sources::Sources;

fn d(x: f64) -> Double {
    Double { bits: x.to_bits() }
}

fn at(nanos: u64) -> Moment {
    Moment { nanos }
}

fn sample(taken_at: Moment) -> Sample {
    Sample {
        taken_at,
        cpu: Ok(CpuUsage::Busy(d(0.5))),
        cpu_mhz: Ok(Some(d(2500.0))),
        memory: Ok(MemorySnapshot {
            total_bytes: 4 << 30,
            available_bytes: 3 << 30,
        }),
        network_at: taken_at,
        network: Ok(NetworkUsage::Transfer {
            download_bytes_per_sec: d(512.0),
            upload_bytes_per_sec: d(2048.0),
        }),
        battery: None,
        nvme: None,
        pdh: None,
    }
}

fn sources() -> Sources {
    Sources {
        network_luid: Some(1),
        network_name: Some("WLAN".into()),
        disk: None,
    }
}

fn label(metric: &Metric) -> String {
    metric.label(false)
}

#[test]
fn gauges_show_the_values_of_a_sample() {
    let gauges = Gauges::from_sample(&sample(at(0)));
    assert_eq!(label(&gauges.cpu), "50.0%");
    assert_eq!(gauges.cpu_percent, Some(d(50.0)));
    assert_eq!(label(&gauges.frequency), "2.50 GHz");
    assert_eq!(label(&gauges.memory), "25.0%");
    assert_eq!(gauges.memory_percent, Some(d(25.0)));
    assert_eq!(gauges.memory_detail, "已用 1.00 / 4.00 GiB（Windows 可见）");
    assert_eq!(gauges.cpu.label(true), STALE_LABEL);
}

#[test]
fn gauges_tell_failures_and_pending_values() {
    let mut bad = sample(at(0));
    bad.cpu = Ok(CpuUsage::Busy(d(1.5)));
    bad.cpu_mhz = Ok(Some(d(-1.0)));
    bad.memory = Ok(MemorySnapshot {
        total_bytes: 0,
        available_bytes: 0,
    });
    let gauges = Gauges::from_sample(&bad);
    assert_eq!(label(&gauges.cpu), "读取失败：无效利用率");
    assert_eq!(label(&gauges.frequency), "读取失败：无效频率");
    assert_eq!(label(&gauges.memory), "读取失败：容量无效");
    assert_eq!((gauges.cpu_percent, gauges.memory_percent), (None, None));
    let mut failed = sample(at(0));
    failed.cpu = Err(Error::new(ErrorKind::Other, "a".into()));
    failed.cpu_mhz = Err("b".into());
    failed.memory = Err(Error::new(ErrorKind::Other, "c".into()));
    let gauges = Gauges::from_sample(&failed);
    assert_eq!(label(&gauges.cpu), "读取失败：a");
    assert_eq!(label(&gauges.frequency), "读取失败：b");
    assert_eq!(label(&gauges.memory), "读取失败：c");
    let mut pending = sample(at(0));
    pending.cpu = Ok(CpuUsage::Pending);
    pending.cpu_mhz = Ok(None);
    let gauges = Gauges::from_sample(&pending);
    assert_eq!((label(&gauges.cpu), label(&gauges.frequency)), ("预热中".into(), "预热中".into()));
}

#[test]
fn waiting_ends_with_a_sample_a_stop_or_a_tick() {
    assert!(matches!(after_check(0, Signal::Cancelled), Some(Message::SamplerStopped)));
    assert!(matches!(after_check(0, Signal::Disconnected), Some(Message::SamplerStopped)));
    assert!(matches!(
        after_check(0, Signal::Arrived(Some(sample(at(0))))),
        Some(Message::Sample(_))
    ));
    assert!(after_check(0, Signal::Arrived(None)).is_none());
    assert!(after_check(CHECKS - 2, Signal::TimedOut).is_none());
    assert!(matches!(after_check(CHECKS - 1, Signal::TimedOut), Some(Message::Tick)));
}

#[test]
fn the_page_warms_up_and_refreshes() {
    let mut page = Page::new(&sources(), Ok(()));
    let cards = page.view_at(at(0));
    assert_eq!(cards.status, "预热中 · 等待首份样本");
    assert_eq!((cards.cpu.as_str(), cards.network.as_str()), ("预热中", "等待采样"));
    assert_eq!(cards.memory_detail, "Windows 可见物理内存");
    assert_eq!(cards.network_detail, "选中接口：WLAN · 字节每秒");
    assert_eq!(page.update(Message::Tick), Next::Schedule);
    assert_eq!(page.update(Message::Sample(sample(at(SECOND)))), Next::Schedule);
    let cards = page.view_at(at(2_250_000_000));
    assert_eq!(cards.status, format!("自动刷新中 · 上次采样在 {:.1} 秒前", 1.25));
    assert_eq!(cards.cpu_percent, Some(d(50.0)));
    assert_eq!(cards.network, "↓ 0.5 KiB/s    ↑ 2.0 KiB/s");
    assert_eq!(cards.nvme_detail, "未选择 NVMe · ");
    let old = page.view_at(at(11 * SECOND));
    assert_eq!(old.status, "数据已过期：上次采样在 10.0 秒前");
    assert_eq!((old.cpu.as_str(), old.network.as_str()), (STALE_LABEL, STALE_LABEL));
    assert_eq!((old.cpu_percent, old.memory_percent), (None, None));
    assert_eq!(old.memory_detail, "等待最新内存快照");
}

#[test]
fn a_stopped_page_withholds_its_values() {
    for (message, words) in [
        (Message::SamplerStopped, "采样线程已停止"),
        (Message::DeliveryRejected, "后台样本投递失败"),
    ] {
        let mut page = Page::new(&sources(), Ok(()));
        page.update(Message::Sample(sample(at(SECOND))));
        assert_eq!(page.update(message), Next::Stop);
        assert_eq!(page.update(Message::Tick), Next::Idle);
        let cards = page.view_at(at(SECOND));
        assert_eq!(cards.status, words);
        assert_eq!((cards.cpu.as_str(), cards.disk.as_str()), (STALE_LABEL, STALE_LABEL));
        assert_eq!(cards.battery_detail, "等待新快照");
        assert_eq!(cards.nvme_detail, "未选择 NVMe · 等待新快照");
    }
}

#[test]
fn a_page_without_a_sampling_thread_says_why() {
    let page = Page::new(&sources(), Err("no thread".into()));
    assert_eq!(page.view_at(at(0)).status, "采样线程启动失败：no thread");
    assert!(!page.running);
    assert_eq!(page.history.network_name, "未选择 WLAN");
    assert_eq!(fresh("x", false), "x");
    assert_eq!(fresh("x", true), STALE_LABEL);
}

#[test]
fn withheld_values_leave_no_trace() {
    let mut one = Page::new(&sources(), Ok(()));
    let mut two = Page::new(&sources(), Ok(()));
    one.update(Message::Sample(sample(at(SECOND))));
    let mut other = sample(at(SECOND));
    other.cpu = Ok(CpuUsage::Busy(d(0.25)));
    other.network = Ok(NetworkUsage::Pending);
    two.update(Message::Sample(other));
    let late = at(60 * SECOND);
    assert_eq!(one.view_at(late).cpu, two.view_at(late).cpu);
    assert_eq!(one.view_at(late).network, two.view_at(late).network);
    assert_eq!(one.view_at(late).cpu_percent, two.view_at(late).cpu_percent);
    assert_ne!(one.view_at(at(SECOND)).cpu, two.view_at(at(SECOND)).cpu);
}
