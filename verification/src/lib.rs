//! The logic of a Windows telemetry program, apart from its system calls and its drawing.
//!
//! Readings of the system come in as plain values. `cpu`, `memory`, `network`,
//! `battery`, `nvme` and `pdh` tell what they mean; `sampling` makes samples of
//! them; `history` keeps what the curves and labels show; `chart`, `ui` and
//! `cards` decide what the two front ends show and do; `config` and `sources`
//! read the command line and choose devices.
//!
//! Numbers with a fraction are the bit patterns of IEEE 754 numbers, in
//! `double` and `single`. Their arithmetic is exactly rounded, and their
//! decimal forms are exact, by `rounding`, `magnitude` and `numeral`.
pub mod battery;
pub mod cards;
pub mod chart;
pub mod clock;
pub mod config;
pub mod cpu;
pub mod double;
pub mod error;
pub mod format;
pub mod history;
pub mod magnitude;
pub mod memory;
pub mod network;
pub mod numeral;
pub mod nvme;
pub mod pdh;
pub mod rounding;
pub mod sampling;
pub mod single;
pub mod sources;
pub mod text;
pub mod ui;
