use windows_rs_telemetry::config::{help, Command, Config};

fn parse(args: &[&str]) -> Result<Command, String> {
    let mut list: Vec<String> = Vec::new();
    for arg in args {
        list.push(arg.to_string());
    }
    Command::parse(list)
}

#[test]
fn rejects_unknown_and_missing_options() {
    assert!(parse(&["--bogus"]).is_err());
    assert!(parse(&["--interface"]).is_err());
    assert!(parse(&["--disk", "--help"]).is_err());
    assert!(parse(&["--interface", "WLAN", "--interface", "VPN"]).is_err());
}

#[test]
fn accepts_a_selected_device_for_window_mode() {
    assert_eq!(
        parse(&["--interface", "WLAN"]).unwrap(),
        Command::Run(Config {
            interface: Some("WLAN".into()),
            disk: None
        })
    );
}

#[test]
fn actions_cannot_be_combined_with_other_actions_or_sources() {
    assert_eq!(parse(&["-h"]).unwrap(), Command::Help);
    assert!(parse(&["--help", "--list-disks"]).is_err());
    assert!(parse(&["--list-network", "--interface", "WLAN"]).is_err());
}

#[test]
fn no_arguments_run_the_window_without_devices() {
    assert_eq!(
        parse(&[]).unwrap(),
        Command::Run(Config {
            interface: None,
            disk: None
        })
    );
}

#[test]
fn actions_are_told_apart() {
    assert_eq!(parse(&["--help"]).unwrap(), Command::Help);
    assert_eq!(parse(&["--list-network"]).unwrap(), Command::ListNetwork);
    assert_eq!(parse(&["--list-disks"]).unwrap(), Command::ListDisks);
}

#[test]
fn device_options_come_in_any_order() {
    let disk = "\\\\.\\PhysicalDrive1";
    let expected = Command::Run(Config {
        interface: Some("WLAN".into()),
        disk: Some(disk.into()),
    });
    assert_eq!(parse(&["--interface", "WLAN", "--disk", disk]).unwrap(), expected);
    assert_eq!(parse(&["--disk", disk, "--interface", "WLAN"]).unwrap(), expected);
    assert!(parse(&["--disk", disk, "--disk", disk]).is_err());
    assert!(parse(&["--disk", disk, "--help"]).is_err());
}

#[test]
fn help_names_the_program_and_its_options() {
    let text = help("telemetry");
    assert!(text.starts_with("用法：telemetry "));
    for option in ["--interface", "--disk", "--list-network", "--list-disks", "--help"] {
        assert!(text.contains(option));
    }
    assert!(text.contains("选择物理 WLAN 接口"));
}
