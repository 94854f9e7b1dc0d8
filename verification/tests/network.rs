use windows_rs_telemetry::clock::{Moment, SECOND};
use windows_rs_telemetry::double::Double;
use windows_rs_telemetry::error::ErrorKind;
use windows_rs_telemetry::network::{
    interface_report, select_interface, snapshot_of, status_label, InterfaceRow, InterfaceSnapshot,
    NetworkSampler, NetworkUsage, STATUS_DOWN, STATUS_UP, TYPE_WIFI,
};

fn interface(name: &str, luid: u64, hardware: bool) -> InterfaceSnapshot {
    InterfaceSnapshot {
        luid,
        index: luid as u32,
        name: name.into(),
        description: name.into(),
        is_hardware: hardware,
        is_wifi: true,
        oper_status: STATUS_UP,
        received_bytes: 0,
        sent_bytes: 0,
    }
}

fn at(nanos: u64) -> Moment {
    Moment { nanos }
}

fn transfer(download: f64, upload: f64) -> NetworkUsage {
    NetworkUsage::Transfer {
        download_bytes_per_sec: Double {
            bits: download.to_bits(),
        },
        upload_bytes_per_sec: Double {
            bits: upload.to_bits(),
        },
    }
}

#[test]
fn selection_requires_unique_physical_wifi_unless_named() {
    let interfaces = [
        interface("WLAN", 1, true),
        interface("Wi-Fi 2", 2, true),
        interface("Virtual", 3, false),
    ];
    assert!(select_interface(&interfaces, None).unwrap().is_none());
    assert_eq!(
        select_interface(&interfaces, Some("wlan"))
            .unwrap()
            .unwrap()
            .luid,
        1
    );
    assert!(select_interface(&interfaces, Some("virtual")).is_err());
    assert!(select_interface(&interfaces[..1], None).unwrap().is_some());
    assert!(select_interface(&[], None).unwrap().is_none());
}

#[test]
fn rate_uses_elapsed_time_and_reconnection_rewarms() {
    let mut interface = InterfaceSnapshot {
        luid: 1,
        index: 1,
        name: "test".into(),
        description: "test".into(),
        is_hardware: true,
        is_wifi: true,
        oper_status: STATUS_UP,
        received_bytes: 100,
        sent_bytes: 200,
    };
    let mut sampler = NetworkSampler::default();
    assert_eq!(sampler.update(Some(&interface), at(0)), NetworkUsage::Pending);
    interface.received_bytes += 3072;
    interface.sent_bytes += 1536;
    assert_eq!(
        sampler.update(Some(&interface), at(1_500_000_000)),
        transfer(2048.0, 1024.0)
    );
    interface.oper_status = STATUS_DOWN;
    assert_eq!(
        sampler.update(Some(&interface), at(2 * SECOND)),
        NetworkUsage::Disconnected
    );
    interface.oper_status = STATUS_UP;
    assert_eq!(
        sampler.update(Some(&interface), at(3 * SECOND)),
        NetworkUsage::Pending
    );
}

#[test]
fn counter_reset_rewarms_instead_of_wrapping() {
    let mut interface = interface("WLAN", 1, true);
    interface.received_bytes = 10_000;
    interface.sent_bytes = 10_000;
    let mut sampler = NetworkSampler::default();
    sampler.update(Some(&interface), at(0));
    interface.received_bytes = 100;
    assert_eq!(
        sampler.update(Some(&interface), at(SECOND)),
        NetworkUsage::Pending
    );
    interface.received_bytes += 2048;
    interface.sent_bytes += 1024;
    assert_eq!(
        sampler.update(Some(&interface), at(2 * SECOND)),
        transfer(2048.0, 1024.0)
    );
}

#[test]
fn a_missing_interface_forgets_the_baseline() {
    let interface = interface("WLAN", 1, true);
    let mut sampler = NetworkSampler::default();
    sampler.update(Some(&interface), at(0));
    assert_eq!(sampler.update(None, at(SECOND)), NetworkUsage::Unavailable);
    assert_eq!(
        sampler.update(Some(&interface), at(2 * SECOND)),
        NetworkUsage::Pending
    );
    assert_eq!(
        sampler.update(Some(&interface), at(30 * SECOND)),
        NetworkUsage::Pending
    );
    sampler.reset();
    assert_eq!(
        sampler.update(Some(&interface), at(31 * SECOND)),
        NetworkUsage::Pending
    );
}

#[test]
fn names_match_whatever_their_case_and_errors_quote_them() {
    let interfaces = [interface("STRASSE \u{c4}", 7, true)];
    assert_eq!(
        select_interface(&interfaces, Some("strasse \u{e4}"))
            .unwrap()
            .unwrap()
            .luid,
        7
    );
    let error = select_interface(&interfaces, Some("a\"b")).unwrap_err();
    assert_eq!(error.kind, ErrorKind::NotFound);
    assert_eq!(error.message, "未找到名为 \"a\\\"b\" 的物理 WLAN 接口");
}

#[test]
fn rows_become_snapshots() {
    let row = InterfaceRow {
        luid: 9,
        index: 3,
        alias: vec![0x57, 0x4c, 0xd83d, 0xde00, 0, 0x58],
        description: vec![0xd800, 0x41],
        flags: 3,
        interface_type: TYPE_WIFI,
        oper_status: STATUS_UP,
        received_bytes: 5,
        sent_bytes: 6,
    };
    let snapshot = snapshot_of(&row);
    assert_eq!(snapshot.name, "WL\u{1f600}");
    assert_eq!(snapshot.description, "\u{fffd}A");
    assert!(snapshot.is_hardware && snapshot.is_wifi);
    assert_eq!((snapshot.received_bytes, snapshot.sent_bytes), (5, 6));
    let other = snapshot_of(&InterfaceRow {
        flags: 2,
        interface_type: 6,
        alias: vec![],
        description: vec![],
        ..row
    });
    assert!(!other.is_hardware && !other.is_wifi && other.name.is_empty());
}

#[test]
fn the_report_lists_interfaces_and_the_choice() {
    let one = interface_report(&[interface("WLAN", 0xab, true), interface("V", 2, false)]);
    assert!(one.contains("WLAN") && one.contains("LUID=0x00000000000000ab"));
    assert!(!one.contains("没有唯一的物理 WLAN 接口"));
    let two = interface_report(&[interface("A", 1, true), interface("B", 2, true)]);
    assert!(two.contains("没有唯一的物理 WLAN 接口"));
    assert_ne!(status_label(STATUS_UP), status_label(STATUS_DOWN));
}

#[test]
fn rates_compare_as_numbers() {
    assert_eq!(transfer(0.0, 1.0), transfer(-0.0, 1.0));
    assert_ne!(transfer(1.0, f64::NAN), transfer(1.0, f64::NAN));
    assert_ne!(transfer(1.0, 2.0), transfer(1.0, 3.0));
    assert_ne!(NetworkUsage::Pending, NetworkUsage::Unavailable);
}
