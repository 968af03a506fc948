//! What the command line asks for.

use vstd::prelude::*;

use crate::dap::ProbeOptions;

verus! {

/// A parsed command line.
#[derive(Debug)]
pub struct Cli {
    /// Enable verbose (debug-level) logging.
    pub verbose: bool,
    /// The subcommand to run. Without one, the help text is printed.
    pub command: Option<Command>,
}

/// Top-level subcommands.
#[derive(Debug)]
pub enum Command {
    /// List connected debug probes and available targets.
    List,
    /// Mass-erase, flash firmware, optionally verify, then reset.
    Flash(FlashArgs),
    /// Mass-erase (unlock) the device, then reset.
    Recover(TargetArgs),
    /// Read back flash and compare against a firmware file.
    Verify(VerifyArgs),
    /// Reset the target device.
    Reset(TargetArgs),
    /// Open a SEGGER RTT terminal.
    Rtt(RttArgs),
}

/// Common probe selection options.
#[derive(Debug)]
pub struct ProbeArgs {
    /// Probe selector `VID:PID` or `VID:PID:Serial`, in hexadecimal. Defaults to
    /// the first probe found.
    pub probe: Option<String>,
    /// SWD clock speed in kHz.
    pub speed: Option<u32>,
}

impl ProbeArgs {
    /// Converts the arguments into [`ProbeOptions`].
    pub fn to_options(&self) -> (r: ProbeOptions)
        ensures
            r == (ProbeOptions { selector: self.probe, speed_khz: self.speed }),
    {
        ProbeOptions { selector: self.probe.clone(), speed_khz: self.speed }
    }
}

impl Clone for ProbeArgs {
    fn clone(&self) -> (r: ProbeArgs)
        ensures
            r == *self,
    {
        ProbeArgs { probe: self.probe.clone(), speed: self.speed }
    }
}

/// Arguments for commands that only need a target and a probe.
#[derive(Debug)]
pub struct TargetArgs {
    /// Target id, for example `nordic/nrf54/nrf54l15`.
    pub target: String,
    pub probe: ProbeArgs,
}

/// Arguments for the `flash` command.
#[derive(Debug)]
pub struct FlashArgs {
    /// Target id, for example `nordic/nrf54/nrf54l15`.
    pub target: String,
    /// Path to the firmware `.hex` file.
    pub file: String,
    /// Verify the firmware after flashing.
    pub verify: bool,
    pub probe: ProbeArgs,
}

/// Arguments for the `verify` command.
#[derive(Debug)]
pub struct VerifyArgs {
    /// Target id, for example `nordic/nrf54/nrf54l15`.
    pub target: String,
    /// Path to the firmware `.hex` file.
    pub file: String,
    pub probe: ProbeArgs,
}

/// Arguments for the `rtt` command.
#[derive(Debug)]
pub struct RttArgs {
    /// Target id, for example `nordic/nrf54/nrf54l15`.
    pub target: String,
    /// RTT scan start address (default: target SRAM base or 0x20000000).
    pub scan_addr: Option<u64>,
    /// RTT scan range in bytes (default: 0x10000).
    pub scan_range: Option<u64>,
    /// Polling interval in milliseconds.
    pub poll_ms: u64,
    /// Reset the target before attaching RTT.
    pub reset: bool,
    pub probe: ProbeArgs,
}

} // verus!
