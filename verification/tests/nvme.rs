use windows_rs_telemetry::double::Double;
use windows_rs_telemetry::error::{Error, ErrorKind};
use windows_rs_telemetry::nvme::{
    disk_report, drive_path, drives_to_probe, is_missing_drive, list_disks, parse_device,
    parse_smart, read_device_reply, read_smart_reply, scan_result, select_disk, smart_query,
    validate_drive_path, DiskDevice, Probe, SmartHealth, BUFFER_BYTES, BUS_TYPE_AT, BUS_TYPE_NVME,
    DATA_TYPE_LOG_PAGE, DEVICE_BUFFER_BYTES, DEVICE_FIXED_BYTES, ERROR_FILE_NOT_FOUND,
    PRODUCT_OFFSET_AT, PROTOCOL_BYTES, PROTOCOL_DESCRIPTOR_BYTES, PROTOCOL_START,
    PROTOCOL_TYPE_NVME, SMART_LOG_BYTES, VENDOR_OFFSET_AT,
};

fn put(bytes: &mut [u8], at: usize, value: u32) {
    bytes[at..at + 4].copy_from_slice(&value.to_le_bytes());
}

fn reply() -> Vec<u8> {
    let mut bytes = vec![0_u8; BUFFER_BYTES as usize];
    put(&mut bytes, 0, PROTOCOL_DESCRIPTOR_BYTES);
    put(&mut bytes, 4, PROTOCOL_DESCRIPTOR_BYTES);
    put(&mut bytes, 8, PROTOCOL_TYPE_NVME);
    put(&mut bytes, 12, DATA_TYPE_LOG_PAGE);
    put(&mut bytes, 24, PROTOCOL_BYTES);
    put(&mut bytes, 28, SMART_LOG_BYTES);
    let start = (PROTOCOL_START + PROTOCOL_BYTES) as usize;
    bytes[start + 1..start + 3].copy_from_slice(&310_u16.to_le_bytes());
    bytes[start + 3] = 100;
    bytes[start + 4] = 5;
    bytes[start + 5] = 2;
    bytes
}

fn value(d: Double) -> f64 {
    f64::from_bits(d.bits)
}

fn failed(kind: ErrorKind, code: i32, message: &str) -> Error {
    Error {
        kind,
        os_code: Some(code),
        message: message.into(),
    }
}

fn nvme(name: &str) -> Probe {
    Probe::Described(Some(name.into()))
}

#[test]
fn smart_parser_checks_returned_length_and_offsets() {
    let mut bytes = reply();
    assert!((value(parse_smart(&bytes).unwrap().temperature_c) - 36.85).abs() < 0.001);
    assert!(parse_smart(&bytes[..100]).is_err());
    put(&mut bytes, 24, 900);
    assert!(parse_smart(&bytes).is_err());
}

#[test]
fn device_parser_uses_bus_type_and_bounded_model_string() {
    let mut bytes = vec![0_u8; 96];
    let length = bytes.len() as u32;
    put(&mut bytes, 0, 40);
    put(&mut bytes, 4, length);
    put(&mut bytes, BUS_TYPE_AT, BUS_TYPE_NVME);
    put(&mut bytes, PRODUCT_OFFSET_AT, 48);
    bytes[48..54].copy_from_slice(b"TEST\0\0");
    assert_eq!(parse_device(&bytes).unwrap().as_deref(), Some("TEST"));
    put(&mut bytes, PRODUCT_OFFSET_AT, 200);
    assert!(parse_device(&bytes).is_err());
    put(&mut bytes, BUS_TYPE_AT, 0);
    assert!(parse_device(&bytes).unwrap().is_none());
}

#[test]
fn drive_path_requires_physical_drive_number() {
    assert!(validate_drive_path(r"\\.\PhysicalDrive0").is_ok());
    assert!(validate_drive_path(r"\\.\physicaldrive12").is_ok());
    assert!(validate_drive_path(r"\\.\PhysicalDrive").is_err());
    assert!(validate_drive_path(r"\\.\PhysicalDrive1a").is_err());
    assert!(validate_drive_path(r"\\.\C:").is_err());
    assert!(validate_drive_path("PhysicalDrive0").is_err());
}

#[test]
fn scan_keeps_found_disks_despite_other_errors() {
    let disk = DiskDevice {
        path: r"\\.\PhysicalDrive1".into(),
        name: "TEST".into(),
    };
    let denied = || Some(Error::new(ErrorKind::PermissionDenied, "permission denied".into()));
    assert_eq!(
        scan_result(vec![disk.clone()], denied()).unwrap(),
        vec![disk]
    );
    assert!(scan_result(Vec::new(), denied()).is_err());
    assert!(scan_result(Vec::new(), None).unwrap().is_empty());
    assert!(is_missing_drive(&failed(
        ErrorKind::NotFound,
        ERROR_FILE_NOT_FOUND,
        "missing"
    )));
    assert!(!is_missing_drive(&failed(ErrorKind::PermissionDenied, 5, "denied")));
}

#[test]
fn health_fields_stand_where_the_log_has_them() {
    let health = parse_smart(&reply()).unwrap();
    assert_eq!(health.critical_warning, 0);
    assert_eq!(health.available_spare_percent, 100);
    assert_eq!(health.spare_threshold_percent, 5);
    assert_eq!(health.percentage_used, 2);
    assert_eq!(health.temperature_c.bits, (310.0_f64 - 273.15).to_bits());
}

#[test]
fn bad_health_replies_say_what_is_wrong() {
    let message = |bytes: &[u8]| {
        let error = parse_smart(bytes).unwrap_err();
        assert_eq!(error.kind, ErrorKind::InvalidData);
        error.message
    };
    assert_eq!(message(&reply()[..40]), "响应短于协议描述符");
    let mut bytes = reply();
    put(&mut bytes, 0, 1);
    assert_eq!(message(&bytes), "协议描述符版本或大小不符");
    let mut bytes = reply();
    put(&mut bytes, 8, 1);
    assert_eq!(message(&bytes), "响应不是 NVMe 日志页");
    let mut bytes = reply();
    put(&mut bytes, 24, 8);
    assert_eq!(message(&bytes), "协议数据与描述符重叠");
    let mut bytes = reply();
    put(&mut bytes, 28, 100);
    assert_eq!(message(&bytes), "SMART 日志缺失或被截断");
    let mut bytes = reply();
    bytes[49] = 0;
    bytes[50] = 0;
    assert_eq!(message(&bytes), "SMART 未报告综合温度");
    assert_eq!(
        read_smart_reply(&reply(), BUFFER_BYTES + 1).unwrap_err().message,
        "驱动报告的字节数超过输出缓冲区"
    );
    assert!(read_smart_reply(&reply(), BUFFER_BYTES).is_ok());
    assert!(read_smart_reply(&reply(), 100).is_err());
}

#[test]
fn device_names_join_vendor_and_product() {
    let mut bytes = vec![0_u8; DEVICE_BUFFER_BYTES as usize];
    put(&mut bytes, 0, DEVICE_FIXED_BYTES);
    put(&mut bytes, 4, 96);
    put(&mut bytes, BUS_TYPE_AT, BUS_TYPE_NVME);
    put(&mut bytes, VENDOR_OFFSET_AT, 40);
    put(&mut bytes, PRODUCT_OFFSET_AT, 48);
    bytes[40..46].copy_from_slice(b" ACME\0");
    bytes[48..54].copy_from_slice(b"M\xff 1 \0");
    let name = read_device_reply(&bytes, 96).unwrap().unwrap();
    assert_eq!(name, "ACME M\u{fffd} 1");
    assert!(read_device_reply(&bytes, DEVICE_BUFFER_BYTES + 1).is_err());
    assert!(read_device_reply(&bytes, 20).is_err());
}

#[test]
fn scans_skip_missing_drives_and_keep_numbers() {
    let probes = [
        Probe::OpenFailed(failed(ErrorKind::NotFound, 2, "missing")),
        nvme("A"),
        Probe::Described(None),
        Probe::QueryFailed(failed(ErrorKind::PermissionDenied, 5, "denied")),
        nvme("B"),
    ];
    let disks = list_disks(&probes).unwrap();
    assert_eq!(disks.len(), 2);
    assert_eq!(disks[0].path, r"\\.\PhysicalDrive1");
    assert_eq!(disks[0].name, "A");
    assert_eq!(disks[1].path, r"\\.\PhysicalDrive4");
    assert_eq!(
        disk_report(&disks),
        "\\\\.\\PhysicalDrive1  A\n\\\\.\\PhysicalDrive4  B\n"
    );
    assert_eq!(
        list_disks(&probes[2..4]).unwrap_err().message,
        "denied"
    );
    assert!(list_disks(&probes[..1]).unwrap().is_empty());
}

#[test]
fn a_sole_disk_is_chosen_by_itself() {
    let probes = [Probe::Described(None), nvme("A")];
    let chosen = select_disk(None, &probes).unwrap().unwrap();
    assert_eq!(chosen.path, r"\\.\PhysicalDrive1");
    assert!(select_disk(None, &[nvme("A"), nvme("B")]).unwrap().is_none());
    assert!(select_disk(None, &[]).unwrap().is_none());
    let denied = [Probe::OpenFailed(failed(ErrorKind::PermissionDenied, 5, "denied"))];
    let error = select_disk(None, &denied).unwrap_err();
    assert_eq!(error.kind, ErrorKind::PermissionDenied);
    assert_eq!(error.message, "扫描 NVMe 磁盘失败：denied");
}

#[test]
fn a_requested_disk_must_be_there() {
    let path = r"\\.\PhysicalDrive3";
    let chosen = select_disk(Some(path), &[nvme("A")]).unwrap().unwrap();
    assert_eq!((chosen.path.as_str(), chosen.name.as_str()), (path, "A"));
    assert!(select_disk(Some(path), &[Probe::Described(None)]).is_err());
    assert!(select_disk(Some(path), &[Probe::OpenFailed(failed(ErrorKind::NotFound, 2, "x"))]).is_err());
    assert!(drives_to_probe(Some("C:")).is_err());
    assert_eq!(drives_to_probe(Some(path)).unwrap(), vec![path.to_string()]);
    let all = drives_to_probe(None).unwrap();
    assert_eq!(all.len(), 64);
    assert_eq!(all[63], drive_path(63));
    assert!(validate_drive_path(&all[63]).is_ok());
}

#[test]
fn health_labels_show_every_field() {
    let (health, wear) = SmartHealth {
        critical_warning: 10,
        temperature_c: Double {
            bits: 39.85_f64.to_bits(),
        },
        available_spare_percent: 100,
        spare_threshold_percent: 5,
        percentage_used: 2,
    }
    .labels();
    assert_eq!(health, format!("温度 {:.1}°C  ·  备用空间 100%", 39.85));
    assert_eq!(wear, "已用寿命估计 2%  ·  备用阈值 5%  ·  警告 0x0A");
}

#[test]
fn the_health_query_asks_for_the_whole_log() {
    let query = smart_query();
    assert_eq!(query.len(), 12);
    assert_eq!(&query[..8], &[50, 0, 3, 2, 2, 0, 40, 512]);
}

#[test]
fn failures_keep_their_kind() {
    let path = r"\\.\PhysicalDrive3";
    for kind in [ErrorKind::ResourceBusy, ErrorKind::TimedOut, ErrorKind::Unnamed(31)] {
        let opened = [Probe::OpenFailed(failed(kind, 31, "x"))];
        assert_eq!(select_disk(Some(path), &opened).unwrap_err().kind, kind);
        assert_eq!(select_disk(None, &opened).unwrap_err().kind, kind);
        let asked = [Probe::QueryFailed(failed(kind, 31, "x"))];
        let error = select_disk(Some(path), &asked).unwrap_err();
        assert_eq!(error.kind, kind);
        assert_eq!(
            error.message,
            "读取磁盘 \\\\.\\PhysicalDrive3 的设备信息失败：x"
        );
    }
}
