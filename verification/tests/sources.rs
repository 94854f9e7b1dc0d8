use windows_rs_telemetry::config::Config;
use windows_rs_telemetry::error::{Error, ErrorKind};
use windows_rs_telemetry::network::{InterfaceSnapshot, STATUS_UP};
use windows_rs_telemetry::nvme::DiskDevice;
use windows_rs_telemetry::sources::{refuses_network, select};

fn config(interface: Option<&str>, disk: Option<&str>) -> Config {
    Config {
        interface: interface.map(|s| s.to_string()),
        disk: disk.map(|s| s.to_string()),
    }
}

fn wlan(luid: u64, name: &str) -> InterfaceSnapshot {
    InterfaceSnapshot {
        luid,
        index: 1,
        name: name.into(),
        description: name.into(),
        is_hardware: true,
        is_wifi: true,
        oper_status: STATUS_UP,
        received_bytes: 0,
        sent_bytes: 0,
    }
}

fn disk() -> DiskDevice {
    DiskDevice {
        path: "p".into(),
        name: "n".into(),
    }
}

fn failure(message: &str) -> Error {
    Error::new(ErrorKind::PermissionDenied, message.into())
}

#[test]
fn sole_devices_are_chosen() {
    let selection = select(&config(None, None), Ok(vec![wlan(7, "WLAN")]), Ok(Some(disk())));
    assert!(selection.warnings.is_empty());
    let sources = selection.sources.unwrap();
    assert_eq!(sources.network_luid, Some(7));
    assert_eq!(sources.network_name.as_deref(), Some("WLAN"));
    assert_eq!(sources.disk, Some(disk()));
    assert_eq!(sources.clone(), sources);
}

#[test]
fn failures_that_nobody_asked_for_are_warnings() {
    let selection = select(
        &config(None, None),
        Err(failure("no table")),
        Err(failure("no drives")),
    );
    assert_eq!(
        selection.warnings,
        vec![
            "网络接口枚举失败，继续显示其它指标：no table".to_string(),
            "NVMe 枚举失败，继续显示其它指标：no drives".to_string(),
        ]
    );
    let sources = selection.sources.unwrap();
    assert_eq!((sources.network_luid, sources.disk), (None, None));
}

#[test]
fn failures_of_requested_devices_are_errors() {
    let selection = select(
        &config(Some("WLAN"), None),
        Err(failure("no table")),
        Err(failure("no drives")),
    );
    assert!(selection.warnings.is_empty());
    assert_eq!(selection.sources.unwrap_err().message, "no table");
    let selection = select(
        &config(None, Some("p")),
        Err(failure("no table")),
        Err(failure("no drives")),
    );
    assert_eq!(selection.warnings.len(), 1);
    assert_eq!(selection.sources.unwrap_err().message, "no drives");
    let selection = select(&config(Some("VPN"), None), Ok(vec![wlan(7, "WLAN")]), Ok(None));
    assert_eq!(selection.sources.unwrap_err().kind, ErrorKind::NotFound);
}

#[test]
fn ambiguous_devices_are_left_out() {
    let selection = select(
        &config(None, None),
        Ok(vec![wlan(7, "A"), wlan(8, "B")]),
        Ok(None),
    );
    let sources = selection.sources.unwrap();
    assert_eq!((sources.network_luid, sources.network_name), (None, None));
    let selection = select(
        &config(Some("b"), None),
        Ok(vec![wlan(7, "A"), wlan(8, "B")]),
        Ok(None),
    );
    assert_eq!(selection.sources.unwrap().network_luid, Some(8));
}

#[test]
fn only_a_requested_interface_stops_the_choice() {
    let list = Ok(vec![wlan(7, "A"), wlan(8, "B")]);
    assert!(!refuses_network(&config(None, None), &list));
    assert!(!refuses_network(&config(Some("b"), None), &list));
    assert!(refuses_network(&config(Some("c"), None), &list));
    assert!(!refuses_network(&config(None, None), &Err(failure("no table"))));
    assert!(refuses_network(&config(Some("a"), None), &Err(failure("no table"))));
}
