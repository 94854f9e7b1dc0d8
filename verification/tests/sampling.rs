use windows_rs_telemetry::battery::{snapshot_of, BatterySnapshot, SystemBatteryState};
use windows_rs_telemetry::clock::{Moment, SECOND};
use windows_rs_telemetry::cpu::{CpuTimes, CpuUsage};
use windows_rs_telemetry::double::Double;
use windows_rs_telemetry::error::{Error, ErrorKind};
use windows_rs_telemetry::memory::MemorySnapshot;
use windows_rs_telemetry::network::{InterfaceSnapshot, NetworkUsage, STATUS_UP};
use windows_rs_telemetry::nvme::DiskDevice;
use windows_rs_telemetry::sampling::{
    is_stale, next_step, Collector, Event, Latest, Round, Sample, Step, Wait, MAX_SAMPLE_GAP,
};

fn at(nanos: u64) -> Moment {
    Moment { nanos }
}

fn times(idle: u64, kernel: u64, user: u64) -> CpuTimes {
    CpuTimes { idle, kernel, user }
}

fn interface(luid: u64, received_bytes: u64) -> InterfaceSnapshot {
    InterfaceSnapshot {
        luid,
        index: 1,
        name: "WLAN".into(),
        description: "WLAN".into(),
        is_hardware: true,
        is_wifi: true,
        oper_status: STATUS_UP,
        received_bytes,
        sent_bytes: 0,
    }
}

fn failure(message: &str) -> Error {
    Error::new(ErrorKind::Other, message.into())
}

fn battery() -> BatterySnapshot {
    snapshot_of(
        Err("none".to_string()),
        0,
        SystemBatteryState {
            battery_present: false,
            charging: false,
            discharging: false,
            rate: 0,
        },
    )
}

#[test]
fn readings_go_stale_only_after_their_limit() {
    assert!(!is_stale(None, at(u64::MAX), 0));
    assert!(!is_stale(Some(at(0)), at(MAX_SAMPLE_GAP), MAX_SAMPLE_GAP));
    assert!(is_stale(Some(at(0)), at(MAX_SAMPLE_GAP + 1), MAX_SAMPLE_GAP));
    assert!(!is_stale(Some(at(10)), at(0), 0));
}

#[test]
fn the_mailbox_keeps_the_latest_value() {
    let mut mailbox: Latest<u32> = Latest::default();
    assert!(mailbox.take().is_none());
    assert!(mailbox.publish(1));
    assert!(!mailbox.publish(2));
    assert_eq!(mailbox.take(), Some(2));
    assert!(mailbox.take().is_none());
    assert!(mailbox.publish(3));
}

#[test]
fn a_failed_cpu_reading_starts_over() {
    let mut collector = Collector::new(None, None);
    assert!(collector.accepts_cpu(times(0, 0, 0), at(0)));
    assert_eq!(collector.take_cpu(Ok(times(0, 0, 0)), at(0)).unwrap(), CpuUsage::Pending);
    assert_eq!(
        collector.take_cpu(Ok(times(50, 80, 20)), at(SECOND)).unwrap(),
        CpuUsage::Busy(Double {
            bits: 0.5_f64.to_bits()
        })
    );
    let error = collector.take_cpu(Err(failure("denied")), at(2 * SECOND)).unwrap_err();
    assert_eq!(error.message, "denied");
    assert_eq!(
        collector.take_cpu(Ok(times(100, 160, 40)), at(3 * SECOND)).unwrap(),
        CpuUsage::Pending
    );
}

#[test]
fn only_the_chosen_interface_is_measured() {
    let mut none = Collector::new(None, None);
    assert!(!none.wants_interfaces());
    assert_eq!(none.take_interfaces(None, at(0)).unwrap(), NetworkUsage::NotSelected);
    let mut collector = Collector::new(Some(2), None);
    assert!(collector.wants_interfaces());
    let list = |received: u64| Some(Ok(vec![interface(1, 0), interface(2, received)]));
    assert_eq!(collector.take_interfaces(list(0), at(0)).unwrap(), NetworkUsage::Pending);
    match collector.take_interfaces(list(4096), at(SECOND)).unwrap() {
        NetworkUsage::Transfer {
            download_bytes_per_sec,
            ..
        } => assert_eq!(download_bytes_per_sec.bits, 4096.0_f64.to_bits()),
        _ => panic!("no transfer"),
    }
    assert_eq!(
        collector.take_interfaces(Some(Ok(vec![interface(1, 0)])), at(2 * SECOND)).unwrap(),
        NetworkUsage::Unavailable
    );
    assert!(collector.take_interfaces(Some(Err(failure("denied"))), at(3 * SECOND)).is_err());
    assert_eq!(
        collector.take_interfaces(list(8192), at(4 * SECOND)).unwrap(),
        NetworkUsage::Pending
    );
}

#[test]
fn slow_readings_wait_for_their_interval_and_ride_along() {
    let disk = DiskDevice {
        path: "p".into(),
        name: "n".into(),
    };
    let mut collector = Collector::new(None, Some(disk));
    assert!(collector.battery_due(at(0)));
    assert_eq!(collector.nvme_due(at(0)).unwrap().path, "p");
    collector.take_battery(at(0), battery());
    collector.take_nvme(at(0), Err("cold".to_string()));
    assert!(!collector.battery_due(at(3 * SECOND - 1)));
    assert!(collector.battery_due(at(3 * SECOND)));
    assert!(collector.nvme_due(at(30 * SECOND - 1)).is_none());
    assert!(collector.nvme_due(at(30 * SECOND)).is_some());
    for _ in 0..2 {
        let sample = collector.sample(
            at(5),
            Ok(CpuUsage::Pending),
            Ok(None),
            Ok(MemorySnapshot {
                total_bytes: 2,
                available_bytes: 1,
            }),
            at(6),
            Ok(NetworkUsage::NotSelected),
            None,
        );
        assert_eq!((sample.taken_at, sample.network_at), (at(5), at(6)));
        let (read_at, snapshot) = sample.battery.unwrap();
        assert_eq!(read_at, at(0));
        assert_eq!(snapshot.power.as_ref().unwrap_err(), "none");
        let (_, reading) = sample.nvme.unwrap();
        assert_eq!(reading.as_ref().as_ref().unwrap_err(), "cold");
    }
    assert!(Collector::new(None, None).nvme_due(at(0)).is_none());
}

#[test]
fn any_sign_from_the_owner_ends_the_sampling() {
    assert_eq!(next_step(Event::Waited(Wait::TimedOut)), Step::Round);
    assert_eq!(next_step(Event::Waited(Wait::Signalled)), Step::End);
    assert_eq!(next_step(Event::Waited(Wait::Disconnected)), Step::End);
}

#[test]
fn a_started_thread_samples_before_it_waits() {
    for (waits, expected) in [
        (vec![Wait::Disconnected], 1),
        (vec![Wait::TimedOut, Wait::TimedOut, Wait::Signalled, Wait::TimedOut], 3),
    ] {
        let mut rounds = 0;
        let mut event = Event::Started;
        while next_step(event) == Step::Round {
            event = Event::Waited(waits[rounds]);
            rounds += 1;
        }
        assert_eq!(rounds, expected);
    }
}

#[test]
fn used_memory_is_what_is_not_available() {
    let memory = |total_bytes: u64, available_bytes: u64| {
        MemorySnapshot {
            total_bytes,
            available_bytes,
        }
        .used_bytes()
    };
    assert_eq!(memory(10, 3), 7);
    assert_eq!(memory(10, 10), 0);
    assert_eq!(memory(3, 10), 0);
}

fn round(collector: &mut Collector, taken_at: Moment) -> Sample {
    let interfaces = if collector.wants_interfaces() {
        Some(Ok(vec![interface(2, taken_at.nanos / SECOND * 4096)]))
    } else {
        None
    };
    let battery = if collector.battery_due(taken_at) {
        Some((taken_at, battery()))
    } else {
        None
    };
    let nvme = collector
        .nvme_due(taken_at)
        .map(|disk| (taken_at, Err(disk.name.clone())));
    let second = taken_at.nanos / SECOND;
    collector.take_round(Round {
        taken_at,
        times: Ok(times(50 * second, 80 * second, 20 * second)),
        cpu_mhz: Ok(None),
        memory: Err(failure("memory")),
        interfaces,
        network_at: taken_at,
        battery_asked: taken_at,
        battery,
        nvme_asked: taken_at,
        nvme,
        pdh: None,
    })
}

#[test]
fn rounds_tell_what_was_chosen_and_space_their_slow_readings() {
    let disk = DiskDevice {
        path: "p".into(),
        name: "n".into(),
    };
    let mut all = Collector::new(Some(2), Some(disk));
    let mut none = Collector::new(None, None);
    let mut last: Option<(u64, u64)> = None;
    for second in 0..40 {
        let sample = round(&mut all, at(second * SECOND));
        assert_ne!(sample.network.unwrap(), NetworkUsage::NotSelected);
        assert_eq!(sample.memory.unwrap_err().message, "memory");
        if second > 0 {
            let half = Double {
                bits: 0.5_f64.to_bits(),
            };
            assert_eq!(sample.cpu.unwrap(), CpuUsage::Busy(half));
        }
        let (nvme_at, reading) = sample.nvme.unwrap();
        assert_eq!(reading.as_ref().as_ref().unwrap_err(), "n");
        let now = (sample.battery.unwrap().0.nanos, nvme_at.nanos);
        if let Some((battery_at, nvme_at)) = last {
            assert!(now.0 == battery_at || now.0 >= battery_at + 3 * SECOND);
            assert!(now.1 == nvme_at || now.1 >= nvme_at + 30 * SECOND);
        }
        assert_eq!(now, (second / 3 * 3 * SECOND, second / 30 * 30 * SECOND));
        last = Some(now);
        let sample = round(&mut none, at(second * SECOND));
        assert_eq!(sample.network.unwrap(), NetworkUsage::NotSelected);
        assert!(sample.nvme.is_none());
        assert!(sample.battery.is_some());
    }
}
