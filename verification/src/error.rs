//! What can go wrong, and what is said of it.

use vstd::prelude::*;
use vstd::string::*;

use crate::dap::io::DapError;
use crate::hex::{HexError, MAX_IMAGE_SIZE};
use crate::text::{dec, hex08, join, joined, push_dec, push_padded};

verus! {

/// A flash controller that this crate can program.
#[derive(Clone, Copy, Debug, PartialEq, Eq, Structural)]
pub enum Controller {
    /// The controller of the nRF54.
    Rramc,
    /// The controller of the nRF52.
    Nvmc,
}

/// Why an operation failed.
#[derive(Debug)]
pub enum Error {
    /// A debug transfer failed.
    Transfer(DapError),
    /// The target has no CTRL-AP definition.
    MissingCtrlAp { target: String },
    /// The target has no ERASEALLSTATUS codes.
    MissingEraseAllStatus { target: String },
    /// The target has no flash controller definition.
    MissingFlashController { target: String },
    /// The type of the target's flash controller is not known.
    UnsupportedFlashController { target: String },
    /// The RRAMC has no register definition.
    MissingRegisters,
    /// The controller's CONFIG register could not be written.
    ConfigWrite { controller: Controller, source: DapError },
    /// The controller did not become ready in time.
    NotReady { controller: Controller },
    /// Words could not be written to flash.
    FlashWrite { addr: u64, source: DapError },
    /// Words could not be read back from flash.
    VerifyRead { addr: u64, source: DapError },
    /// Neither mass erase nor its retry came to an end.
    EraseFailed,
    /// The device reports itself locked after a mass erase.
    StillLocked,
    /// The debug port did not come back after a recovery.
    ReconnectAfterRecovery { source: DapError },
    /// The debug port did not come back after a reset.
    ReconnectAfterReset { source: DapError },
    /// No handler knows the target's platform.
    NoHandler { platform: String },
    /// The target does not list the capability.
    Unsupported { target: String, capability: String, capabilities: Vec<String> },
    /// Flash differs from the firmware in this many bytes.
    VerificationFailed { mismatches: usize },
    /// The firmware file could not be read.
    ReadFirmware { path: String, reason: String },
    /// The firmware file holds no image.
    Hex(HexError),
    /// The RTT control block claims more buffers than there can be.
    ImplausibleBufferCounts { up: u32, down: u32 },
    /// No RTT control block was found.
    ControlBlockNotFound,
    /// There is no such up-buffer.
    NoUpBuffer { channel: usize },
    /// There is no such down-buffer.
    NoDownBuffer { channel: usize },
    /// An RTT scan, or what the control block holds, leads out of memory or out of
    /// the ring buffers.
    RttOutOfRange,
    /// The list of probe vendors is no JSON document.
    InvalidProbeFilters { reason: String },
    /// There is no such target.
    UnknownTarget { id: String, reason: String },
    /// The definition of the target is malformed.
    InvalidTarget { id: String, reason: String },
    /// The list of targets is malformed.
    InvalidIndex { reason: String },
    /// No debug probe is connected.
    NoProbes,
    /// The probe selector is malformed.
    InvalidSelector { selector: String, reason: String },
}

impl Controller {
    /// The controller's name.
    pub open spec fn text(self) -> Seq<char> {
        match self {
            Controller::Rramc => "RRAMC"@,
            Controller::Nvmc => "NVMC"@,
        }
    }

    /// The controller's name.
    pub fn name(&self) -> (r: &'static str)
        ensures
            r@ == self.text(),
    {
        match self {
            Controller::Rramc => "RRAMC",
            Controller::Nvmc => "NVMC",
        }
    }
}

/// The number of addresses from `min` up to `max`.
pub open spec fn span(min: u64, max: u64) -> nat {
    if min <= max {
        (max - min) as nat
    } else {
        0
    }
}

impl HexError {
    /// What is said of the error.
    pub open spec fn text(self) -> Seq<char> {
        match self {
            HexError::Record { .. } => "Failed to parse Intel HEX record"@,
            HexError::NoData => "No data found in HEX file"@,
            HexError::SpanTooLarge { min, max } => "HEX file spans 0x"@ + hex08(min as nat)
                + "..0x"@ + hex08(max as nat) + " ("@ + dec(span(min, max))
                + " bytes), exceeding the "@ + dec(MAX_IMAGE_SIZE as nat)
                + " byte limit; the file is likely sparse or corrupt"@,
        }
    }

    /// What is said of the error.
    pub fn message(&self) -> (r: String)
        ensures
            r@ == self.text(),
    {
        match self {
            HexError::Record { reason: _ } => "Failed to parse Intel HEX record".to_owned(),
            HexError::NoData => "No data found in HEX file".to_owned(),
            HexError::SpanTooLarge { min, max } => {
                let mut out = "HEX file spans 0x".to_owned();
                push_padded(&mut out, *min, 16, true, 8);
                out.append("..0x");
                push_padded(&mut out, *max, 16, true, 8);
                out.append(" (");
                push_dec(&mut out, max.saturating_sub(*min));
                out.append(" bytes), exceeding the ");
                push_dec(&mut out, MAX_IMAGE_SIZE);
                out.append(" byte limit; the file is likely sparse or corrupt");
                out
            },
        }
    }
}

/// `before`, a name, and `after`.
fn around(before: &str, name: &str, after: &str) -> (r: String)
    ensures
        r@ == before@ + name@ + after@,
{
    let mut out = before.to_owned();
    out.append(name);
    out.append(after);
    out
}

/// `before`, a number in decimal, and `after`.
fn around_number(before: &str, n: u64, after: &str) -> (r: String)
    ensures
        r@ == before@ + dec(n as nat) + after@,
{
    let mut out = before.to_owned();
    push_dec(&mut out, n);
    out.append(after);
    out
}

/// `before`, and an address in hexadecimal.
fn with_address(before: &str, addr: u64) -> (r: String)
    ensures
        r@ == before@ + hex08(addr as nat),
{
    let mut out = before.to_owned();
    push_padded(&mut out, addr, 16, true, 8);
    out
}

impl Error {
    /// What is said of the error, without its cause.
    pub open spec fn text(self) -> Seq<char> {
        match self {
            Error::Transfer(e) => e.message@,
            Error::MissingCtrlAp { target } => "target '"@ + target@
                + "' has no ctrlAp definition"@,
            Error::MissingEraseAllStatus { target } => "target '"@ + target@
                + "' has no eraseAllStatus definition"@,
            Error::MissingFlashController { target } => "target '"@ + target@
                + "' has no flashController definition"@,
            Error::UnsupportedFlashController { target } =>
                "Unsupported flash controller type for target '"@ + target@ + "'"@,
            Error::MissingRegisters => "RRAMC requires a registers definition"@,
            Error::ConfigWrite { controller, .. } => "Failed to write "@ + controller.text()
                + " CONFIG"@,
            Error::NotReady { controller } => ""@ + controller.text()
                + " did not report ready within the timeout"@,
            Error::FlashWrite { addr, .. } => "Flash write failed at 0x"@ + hex08(addr as nat),
            Error::VerifyRead { addr, .. } => "Verify read failed at 0x"@ + hex08(addr as nat),
            Error::EraseFailed => "Both mass erase and fallback erase failed"@,
            Error::StillLocked => "Device still appears locked after mass erase"@,
            Error::ReconnectAfterRecovery { .. } => "Reconnect after recovery failed"@,
            Error::ReconnectAfterReset { .. } => "Reconnect after reset failed"@,
            Error::NoHandler { platform } => "No platform handler registered for platform: "@
                + platform@ + ""@,
            Error::Unsupported { target, capability, capabilities } => "Target '"@ + target@
                + "' does not support '"@ + capability@ + "' (capabilities: "@ + joined(
                capabilities@,
                ", "@,
            ) + ")"@,
            Error::VerificationFailed { mismatches } => "Verification failed: "@ + dec(
                mismatches as nat,
            ) + " byte mismatch(es)"@,
            Error::ReadFirmware { path, .. } => "Failed to read firmware file "@ + path@ + ""@,
            Error::Hex(e) => e.text(),
            Error::ImplausibleBufferCounts { up, down } => "Implausible RTT buffer counts (up="@
                + dec(up as nat) + ", down="@ + dec(down as nat) + "); aborting"@,
            Error::ControlBlockNotFound => "RTT control block not found in scan range"@,
            Error::NoUpBuffer { channel } => "RTT up-buffer "@ + dec(channel as nat)
                + " does not exist"@,
            Error::NoDownBuffer { channel } => "RTT down-buffer "@ + dec(channel as nat)
                + " does not exist"@,
            Error::RttOutOfRange => "RTT scan or control block leads out of range"@,
            Error::InvalidProbeFilters { .. } => "probe-filters.json is not valid JSON"@,
            Error::UnknownTarget { id, .. } => "Unknown target: "@ + id@ + ""@,
            Error::InvalidTarget { id, .. } => "Failed to parse target definition: "@ + id@ + ""@,
            Error::InvalidIndex { .. } => "Failed to parse index.json"@,
            Error::NoProbes =>
                "No debug probes found. Connect a CMSIS-DAP probe and try again."@,
            Error::InvalidSelector { selector, .. } => "Invalid --probe selector: "@ + selector@
                + ""@,
        }
    }

    /// What is said of the error's cause.
    pub open spec fn cause_text(self) -> Option<Seq<char>> {
        match self {
            Error::ConfigWrite { source, .. } => Some(source.message@),
            Error::FlashWrite { source, .. } => Some(source.message@),
            Error::VerifyRead { source, .. } => Some(source.message@),
            Error::ReconnectAfterRecovery { source } => Some(source.message@),
            Error::ReconnectAfterReset { source } => Some(source.message@),
            Error::ReadFirmware { reason, .. } => Some(reason@),
            Error::Hex(HexError::Record { reason }) => Some(reason@),
            Error::InvalidSelector { reason, .. } => Some(reason@),
            Error::InvalidProbeFilters { reason } => Some(reason@),
            Error::UnknownTarget { reason, .. } => Some(reason@),
            Error::InvalidTarget { reason, .. } => Some(reason@),
            Error::InvalidIndex { reason } => Some(reason@),
            _ => None,
        }
    }

    /// What is said of the error and, behind a colon, of its cause.
    pub open spec fn full_text(self) -> Seq<char> {
        match self.cause_text() {
            None => self.text(),
            Some(cause) => self.text() + ": "@ + cause,
        }
    }

    /// What is said of the error, without its cause.
    pub fn message(&self) -> (r: String)
        ensures
            r@ == self.text(),
    {
        match self {
            Error::Transfer(e) => e.message.clone(),
            Error::MissingCtrlAp { target } => around(
                "target '",
                target.as_str(),
                "' has no ctrlAp definition",
            ),
            Error::MissingEraseAllStatus { target } => around(
                "target '",
                target.as_str(),
                "' has no eraseAllStatus definition",
            ),
            Error::MissingFlashController { target } => around(
                "target '",
                target.as_str(),
                "' has no flashController definition",
            ),
            Error::UnsupportedFlashController { target } => around(
                "Unsupported flash controller type for target '",
                target.as_str(),
                "'",
            ),
            Error::MissingRegisters => "RRAMC requires a registers definition".to_owned(),
            Error::ConfigWrite { controller, source: _ } => around(
                "Failed to write ",
                controller.name(),
                " CONFIG",
            ),
            Error::NotReady { controller } => around(
                "",
                controller.name(),
                " did not report ready within the timeout",
            ),
            Error::FlashWrite { addr, source: _ } => with_address(
                "Flash write failed at 0x",
                *addr,
            ),
            Error::VerifyRead { addr, source: _ } => with_address(
                "Verify read failed at 0x",
                *addr,
            ),
            Error::EraseFailed => "Both mass erase and fallback erase failed".to_owned(),
            Error::StillLocked => "Device still appears locked after mass erase".to_owned(),
            Error::ReconnectAfterRecovery { source: _ } =>
                "Reconnect after recovery failed".to_owned(),
            Error::ReconnectAfterReset { source: _ } => "Reconnect after reset failed".to_owned(),
            Error::NoHandler { platform } => around(
                "No platform handler registered for platform: ",
                platform.as_str(),
                "",
            ),
            Error::Unsupported { target, capability, capabilities } => {
                let mut out = around("Target '", target.as_str(), "' does not support '");
                out.append(capability.as_str());
                out.append("' (capabilities: ");
                out.append(join(capabilities, ", ").as_str());
                out.append(")");
                out
            },
            Error::VerificationFailed { mismatches } => around_number(
                "Verification failed: ",
                *mismatches as u64,
                " byte mismatch(es)",
            ),
            Error::ReadFirmware { path, reason: _ } => around(
                "Failed to read firmware file ",
                path.as_str(),
                "",
            ),
            Error::Hex(e) => e.message(),
            Error::ImplausibleBufferCounts { up, down } => {
                let mut out = around_number(
                    "Implausible RTT buffer counts (up=",
                    *up as u64,
                    ", down=",
                );
                push_dec(&mut out, *down as u64);
                out.append("); aborting");
                out
            },
            Error::ControlBlockNotFound => "RTT control block not found in scan range".to_owned(),
            Error::NoUpBuffer { channel } => around_number(
                "RTT up-buffer ",
                *channel as u64,
                " does not exist",
            ),
            Error::NoDownBuffer { channel } => around_number(
                "RTT down-buffer ",
                *channel as u64,
                " does not exist",
            ),
            Error::RttOutOfRange => "RTT scan or control block leads out of range".to_owned(),
            Error::InvalidProbeFilters { reason: _ } =>
                "probe-filters.json is not valid JSON".to_owned(),
            Error::UnknownTarget { id, reason: _ } => around("Unknown target: ", id.as_str(), ""),
            Error::InvalidTarget { id, reason: _ } => around(
                "Failed to parse target definition: ",
                id.as_str(),
                "",
            ),
            Error::InvalidIndex { reason: _ } => "Failed to parse index.json".to_owned(),
            Error::NoProbes =>
                "No debug probes found. Connect a CMSIS-DAP probe and try again.".to_owned(),
            Error::InvalidSelector { selector, reason: _ } => around(
                "Invalid --probe selector: ",
                selector.as_str(),
                "",
            ),
        }
    }

    /// What is said of the error and, behind a colon, of its cause.
    pub fn full_message(&self) -> (r: String)
        ensures
            r@ == self.full_text(),
    {
        let mut out = self.message();
        let cause = match self {
            Error::ConfigWrite { controller: _, source } => Some(&source.message),
            Error::FlashWrite { addr: _, source } => Some(&source.message),
            Error::VerifyRead { addr: _, source } => Some(&source.message),
            Error::ReconnectAfterRecovery { source } => Some(&source.message),
            Error::ReconnectAfterReset { source } => Some(&source.message),
            Error::ReadFirmware { path: _, reason } => Some(reason),
            Error::Hex(HexError::Record { reason }) => Some(reason),
            Error::InvalidSelector { selector: _, reason } => Some(reason),
            Error::InvalidProbeFilters { reason } => Some(reason),
            Error::UnknownTarget { id: _, reason } => Some(reason),
            Error::InvalidTarget { id: _, reason } => Some(reason),
            Error::InvalidIndex { reason } => Some(reason),
            _ => None,
        };
        if let Some(text) = cause {
            out.append(": ");
            out.append(text.as_str());
        }
        out
    }
}

} // verus!
