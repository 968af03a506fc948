//! A verified core for a command-line debugger of ARM Cortex-M microcontrollers.
//!
//! The crate holds every decision that the debugger makes: reading a firmware
//! image, erasing, programming, verifying and resetting a device, talking to a
//! SEGGER RTT control block, and choosing probes and targets. Everything it
//! does to a device goes through a [`dap::io::DapIo`], whose ghost log lets the
//! contracts speak of whole conversations with the device.

pub mod cli;
pub mod dap;
pub mod error;
pub mod hex;
pub mod json;
pub mod laws;
pub mod ops;
pub mod platform;
pub mod rtt;
pub mod targets;
pub mod text;
pub mod util;
