[package]
name = "windows-rs-telemetry"
version = "0.1.0"
edition = "2021"
publish = false

[dependencies]
windows-canvas = "*"
windows-reactor = "*"
windows-result = "*"
windows-window = "*"
