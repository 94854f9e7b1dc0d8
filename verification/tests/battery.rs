use windows_rs_telemetry::battery::{
    decode_flow, decode_power, flag, snapshot_of, BatteryFlow, BatterySnapshot, PowerStatus,
    SystemBatteryState, SystemPowerStatus,
};

fn power(ac: u8, battery_flag: u8, percent: u8, seconds: u32) -> SystemPowerStatus {
    SystemPowerStatus {
        ac_line_status: ac,
        battery_flag,
        battery_life_percent: percent,
        system_status_flag: 0,
        battery_life_time: seconds,
    }
}

fn state(present: bool, charging: bool, discharging: bool, rate: u32) -> SystemBatteryState {
    SystemBatteryState {
        battery_present: present,
        charging,
        discharging,
        rate,
    }
}

#[test]
fn unknown_flags_are_not_no_battery_or_charging() {
    let p = decode_power(power(255, 255, 255, u32::MAX));
    assert_eq!(
        (p.present, p.charging, p.percent, p.remaining_seconds),
        (None, None, None, None)
    );
    let p = decode_power(power(1, 9, 94, 100));
    assert_eq!(p.charging, Some(true));
    assert_eq!(p.remaining_seconds, None);
}

#[test]
fn signed_power_and_unknown_rate_do_not_become_giant_wattages() {
    let mut raw = state(true, false, true, (-14350_i32) as u32);
    assert_eq!(decode_flow(raw).milliwatts, Some(-14350));
    raw.rate = 0x80000000;
    assert_eq!(decode_flow(raw).milliwatts, None);
    raw.rate = 23000;
    raw.discharging = false;
    raw.charging = true;
    assert_eq!(decode_flow(raw).milliwatts, Some(23000));
    raw.battery_present = false;
    assert_eq!(decode_flow(raw).milliwatts, None);
}

#[test]
fn flags_are_off_on_or_unknown() {
    assert_eq!(flag(0), Some(false));
    assert_eq!(flag(1), Some(true));
    assert_eq!(flag(2), None);
    assert_eq!(flag(255), None);
}

#[test]
fn a_missing_battery_has_no_level_and_no_time() {
    let p = decode_power(power(0, 128, 50, 60));
    assert_eq!(p.present, Some(false));
    assert_eq!((p.charging, p.percent, p.remaining_seconds), (None, None, None));
    let p = decode_power(power(0, 0, 100, 60));
    assert_eq!(p.present, Some(true));
    assert_eq!(p.charging, Some(false));
    assert_eq!((p.percent, p.remaining_seconds), (Some(100), Some(60)));
    assert_eq!(decode_power(power(0, 0, 101, 60)).percent, None);
}

#[test]
fn power_against_the_direction_of_flow_is_not_reported() {
    assert_eq!(decode_flow(state(true, true, false, (-5_i32) as u32)).milliwatts, None);
    assert_eq!(decode_flow(state(true, false, true, 5)).milliwatts, None);
    assert_eq!(decode_flow(state(true, true, true, 5)).milliwatts, None);
    assert_eq!(decode_flow(state(true, false, false, 5)).milliwatts, None);
}

#[test]
fn snapshots_keep_two_independent_failures() {
    let both = snapshot_of(Ok(power(0, 0, 76, 18000)), 0, state(true, false, true, 0));
    assert_eq!(both.power.as_ref().unwrap().percent, Some(76));
    assert!(both.flow.as_ref().unwrap().discharging);
    let failed = snapshot_of(
        Err("denied".to_string()),
        -1073741823,
        state(true, false, true, 0),
    );
    assert_eq!(failed.power.unwrap_err(), "denied");
    assert_eq!(failed.flow.unwrap_err(), "NTSTATUS 0xC0000001");
}

fn snapshot(power: Result<PowerStatus, String>, flow: Result<BatteryFlow, String>) -> BatterySnapshot {
    BatterySnapshot { power, flow }
}

#[test]
fn labels_show_source_level_flow_and_time() {
    let (basic, detail) = snapshot(
        Ok(PowerStatus {
            ac_online: Some(false),
            present: Some(true),
            charging: Some(false),
            percent: Some(76),
            saver: Some(false),
            remaining_seconds: Some(18000),
        }),
        Ok(BatteryFlow {
            present: true,
            charging: false,
            discharging: true,
            milliwatts: Some(-12340),
        }),
    )
    .labels();
    assert!(basic.contains("76%"), "{}", basic);
    assert!(detail.starts_with("电池侧："), "{}", detail);
    assert!(detail.contains("-12.34"), "{}", detail);
    let (basic, detail) = snapshot(Err("power probe".to_string()), Err("flow probe".to_string())).labels();
    assert!(basic.contains("power probe"), "{}", basic);
    assert!(detail.contains("flow probe"), "{}", detail);
}

#[test]
fn charging_power_is_shown_with_a_plus() {
    let (_, detail) = snapshot(
        Err("x".to_string()),
        Ok(BatteryFlow {
            present: true,
            charging: true,
            discharging: false,
            milliwatts: Some(23000),
        }),
    )
    .labels();
    assert!(detail.contains("+23.00"), "{}", detail);
}
