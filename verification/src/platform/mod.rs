//! Platform-specific debug operations.
//!
//! Each platform implements [`PlatformHandler`] to provide recover, flash,
//! verify and reset on top of the narrow [`DapIo`] debug I/O.

pub mod nordic;

use vstd::prelude::*;
use vstd::string::*;

use crate::dap::io::{DapError, DapIo, Event, extends};
use crate::dap::run::{Run, ran};
use crate::error::Error;
use crate::hex::{Firmware, FirmwareView};
use crate::platform::nordic::{NordicHandler, Timing};
use crate::targets::definition::TargetConfig;
use crate::text::{hex08, padded, push_padded, same_text};

verus! {

/// An operation that reports progress.
#[derive(Clone, Copy, Debug, PartialEq, Eq, Structural)]
pub enum Phase {
    Recover,
    Flash,
    Verify,
}

impl Phase {
    /// The name of the operation.
    pub open spec fn text(self) -> Seq<char> {
        match self {
            Phase::Recover => "recover"@,
            Phase::Flash => "flash"@,
            Phase::Verify => "verify"@,
        }
    }

    /// The name of the operation.
    pub fn label(&self) -> (r: &'static str)
        ensures
            r@ == self.text(),
    {
        match self {
            Phase::Recover => "recover",
            Phase::Flash => "flash",
            Phase::Verify => "verify",
        }
    }
}

/// How far an operation has come: `done` parts out of `total` on the way from
/// `from` to `to` percent.
#[derive(Clone, Copy, Debug, PartialEq, Eq, Structural)]
pub struct Progress {
    pub phase: Phase,
    pub from: u64,
    pub to: u64,
    pub done: u64,
    pub total: u64,
}

impl Progress {
    /// Whether the report lies between 0 and 100 percent.
    pub open spec fn sound(self) -> bool {
        &&& self.from <= self.to <= 100
        &&& self.done <= self.total
        &&& self.total > 0
    }

    /// The report of a whole percentage of a recovery.
    pub open spec fn recovered(percent: u64) -> Progress {
        Progress { phase: Phase::Recover, from: percent, to: percent, done: 0, total: 1 }
    }
}

/// Something out of the ordinary that does not end an operation.
#[derive(Debug)]
pub enum Warning {
    /// The CTRL-AP does not identify itself as expected.
    UnexpectedIdr { found: u32, expected: u32 },
    /// The CTRL-AP's identification could not be read before a mass erase.
    IdrUnread,
    /// A mass erase failed, and is tried once more.
    EraseRetried,
    /// The reconnection behind a mass erase failed.
    ReconnectFailed { source: DapError },
    /// The lock status could not be read, so that the unlock is not confirmed.
    LockUnread,
    /// The device reports itself locked, and is looked at once more.
    MaybeLocked,
    /// The reconnection before the second look at the lock status failed.
    UnlockReconnectFailed { source: DapError },
    /// The RRAMC does not show that writing is enabled.
    WriteNotEnabled,
    /// The RRAMC's CONFIG register could not be read back.
    ConfigUnread { source: DapError },
    /// The read that makes the controller commit what it buffers failed.
    FlushFailed { addr: u64, source: DapError },
    /// A byte of flash is not the expected one.
    Mismatch { addr: u64, wanted: u8, actual: u8 },
}

impl Warning {
    /// What is said of the warning.
    pub open spec fn text(self) -> Seq<char> {
        match self {
            Warning::UnexpectedIdr { expected, .. } => "Unexpected CTRL-AP IDR (expected 0x"@
                + hex08(expected as nat) + ")"@,
            Warning::IdrUnread => "Could not read CTRL-AP IDR; attempting mass erase anyway"@,
            Warning::EraseRetried =>
                "Mass erase failed; attempting fallback (reinit + retry)..."@,
            Warning::ReconnectFailed { source } => "Reconnect warning: "@ + source.message@,
            Warning::LockUnread =>
                "Could not read ERASEPROTECTSTATUS; unable to confirm unlock"@,
            Warning::MaybeLocked => "Device may still be locked; retrying..."@,
            Warning::UnlockReconnectFailed { source } =>
                "Reinitialize during unlock retry failed: "@ + source.message@,
            Warning::WriteNotEnabled => "RRAMC WEN bit not set"@,
            Warning::ConfigUnread { source } => "Could not read back RRAMC CONFIG: "@
                + source.message@,
            Warning::FlushFailed { addr, source } => "Flash flush read-back failed at 0x"@ + hex08(
                addr as nat,
            ) + ": "@ + source.message@,
            Warning::Mismatch { addr, wanted, actual } => "Verify mismatch at 0x"@ + hex08(
                addr as nat,
            ) + ": expected 0x"@ + padded(wanted as nat, 16, true, 2) + ", got 0x"@ + padded(
                actual as nat,
                16,
                true,
                2,
            ),
        }
    }

    /// What is said of the warning.
    pub fn message(&self) -> (r: String)
        ensures
            r@ == self.text(),
    {
        match self {
            Warning::UnexpectedIdr { found: _, expected } => {
                let mut out = "Unexpected CTRL-AP IDR (expected 0x".to_owned();
                push_padded(&mut out, *expected as u64, 16, true, 8);
                out.append(")");
                out
            },
            Warning::IdrUnread =>
                "Could not read CTRL-AP IDR; attempting mass erase anyway".to_owned(),
            Warning::EraseRetried =>
                "Mass erase failed; attempting fallback (reinit + retry)...".to_owned(),
            Warning::ReconnectFailed { source } => {
                let mut out = "Reconnect warning: ".to_owned();
                out.append(source.message.as_str());
                out
            },
            Warning::LockUnread =>
                "Could not read ERASEPROTECTSTATUS; unable to confirm unlock".to_owned(),
            Warning::MaybeLocked => "Device may still be locked; retrying...".to_owned(),
            Warning::UnlockReconnectFailed { source } => {
                let mut out = "Reinitialize during unlock retry failed: ".to_owned();
                out.append(source.message.as_str());
                out
            },
            Warning::WriteNotEnabled => "RRAMC WEN bit not set".to_owned(),
            Warning::ConfigUnread { source } => {
                let mut out = "Could not read back RRAMC CONFIG: ".to_owned();
                out.append(source.message.as_str());
                out
            },
            Warning::FlushFailed { addr, source } => {
                let mut out = "Flash flush read-back failed at 0x".to_owned();
                push_padded(&mut out, *addr, 16, true, 8);
                out.append(": ");
                out.append(source.message.as_str());
                out
            },
            Warning::Mismatch { addr, wanted, actual } => {
                let mut out = "Verify mismatch at 0x".to_owned();
                push_padded(&mut out, *addr, 16, true, 8);
                out.append(": expected 0x");
                push_padded(&mut out, *wanted as u64, 16, true, 2);
                out.append(", got 0x");
                push_padded(&mut out, *actual as u64, 16, true, 2);
                out
            },
        }
    }
}

/// What an operation lets its user know while it runs.
pub enum Report {
    Progress(Progress),
    Warning(Warning),
}

/// Reports, oldest first. It is ghost: at run time it has no value.
pub type Reports = Seq<Report>;

/// Takes reports of progress, and warnings. Implementations are the users' own.
pub trait ProgressFn {
    /// Every report that was taken so far. It is ghost: nothing calls it at run
    /// time.
    spec fn reports(&self) -> Reports;

    /// Takes a report, which lies between 0 and 100 percent.
    fn report(&mut self, progress: Progress)
        requires
            progress.sound(),
        ensures
            final(self).reports() == old(self).reports().push(Report::Progress(progress)),
    ;

    /// Takes a warning.
    fn warn(&mut self, warning: Warning)
        ensures
            final(self).reports() == old(self).reports().push(Report::Warning(warning)),
    ;
}

/// Result of a verify operation.
#[derive(Clone, Copy, Debug, PartialEq, Eq, Structural)]
pub struct VerifyOutcome {
    pub success: bool,
    pub mismatches: usize,
}

/// Contract implemented by every platform handler.
///
/// For each operation a spec function reads it off the log: see
/// [`crate::dap::run`]. What a log shows of an operation does not change when
/// more is added to the log.
pub trait PlatformHandler {
    /// A recovery, from event `at` of the log.
    spec fn recovered(&self, log: Seq<Event>, at: int) -> Option<Run<()>>;

    /// A programming of flash, from event `at` of the log.
    spec fn flashed(&self, firmware: FirmwareView, log: Seq<Event>, at: int) -> Option<Run<()>>;

    /// A comparison with flash, from event `at` of the log.
    spec fn verified(&self, firmware: FirmwareView, log: Seq<Event>, at: int) -> Option<
        Run<VerifyOutcome>,
    >;

    /// A reset, from event `at` of the log.
    spec fn restarted(&self, log: Seq<Event>, at: int) -> Option<Run<()>>;

    /// Whether the addresses of the registers that programming needs exist.
    spec fn registers_fit(&self) -> bool;

    /// What a log shows of an operation stays as it is in a longer log.
    proof fn lemma_stable(
        &self,
        firmware: FirmwareView,
        log: Seq<Event>,
        later: Seq<Event>,
        at: int,
    )
        requires
            extends(log, later),
        ensures
            self.recovered(log, at) is Some ==> self.recovered(later, at) == self.recovered(
                log,
                at,
            ),
            self.flashed(firmware, log, at) is Some ==> self.flashed(firmware, later, at)
                == self.flashed(firmware, log, at),
            self.verified(firmware, log, at) is Some ==> self.verified(firmware, later, at)
                == self.verified(firmware, log, at),
            self.restarted(log, at) is Some ==> self.restarted(later, at) == self.restarted(
                log,
                at,
            ),
    ;

    /// Recovers (unlocks, mass erases) the device into a known, accessible
    /// state.
    fn recover<I: DapIo, P: ProgressFn>(
        &self,
        io: &mut I,
        progress: &mut P,
    ) -> (r: Result<(), Error>)
        ensures
            extends(old(io).log(), final(io).log()),
            ran(
                self.recovered(final(io).log(), old(io).log().len() as int),
                r,
                old(progress).reports(),
                final(progress).reports(),
                final(io).log().len(),
            ),
    ;

    /// Writes firmware to the device's flash.
    fn flash<I: DapIo, P: ProgressFn>(
        &self,
        io: &mut I,
        firmware: &Firmware,
        progress: &mut P,
    ) -> (r: Result<(), Error>)
        requires
            self.registers_fit(),
            firmware@.addressable(),
        ensures
            extends(old(io).log(), final(io).log()),
            ran(
                self.flashed(firmware@, final(io).log(), old(io).log().len() as int),
                r,
                old(progress).reports(),
                final(progress).reports(),
                final(io).log().len(),
            ),
    ;

    /// Reads flash back and compares it with the expected image.
    fn verify<I: DapIo, P: ProgressFn>(
        &self,
        io: &mut I,
        firmware: &Firmware,
        progress: &mut P,
    ) -> (r: Result<VerifyOutcome, Error>)
        requires
            firmware@.addressable(),
        ensures
            extends(old(io).log(), final(io).log()),
            ran(
                self.verified(firmware@, final(io).log(), old(io).log().len() as int),
                r,
                old(progress).reports(),
                final(progress).reports(),
                final(io).log().len(),
            ),
    ;

    /// Resets the target device. Errors are passed on, so that the caller can
    /// decide whether they are fatal.
    fn reset<I: DapIo>(&self, io: &mut I) -> (r: Result<(), Error>)
        ensures
            extends(old(io).log(), final(io).log()),
            ran(
                self.restarted(final(io).log(), old(io).log().len() as int),
                r,
                Seq::empty(),
                Seq::empty(),
                final(io).log().len(),
            ),
    ;
}

/// Instantiates the platform handler for a target definition.
pub fn handler_for(target: &TargetConfig) -> (r: Result<NordicHandler, Error>)
    ensures
        match r {
            Ok(handler) => {
                &&& target.platform@ == "nordic"@
                &&& handler.config().same(*target)
                &&& handler.times() == Timing::device()
            },
            Err(e) => {
                &&& target.platform@ != "nordic"@
                &&& e == (Error::NoHandler { platform: target.platform })
            },
        },
{
    if same_text(target.platform.as_str(), "nordic") {
        Ok(NordicHandler::new(target.clone()))
    } else {
        Err(Error::NoHandler { platform: target.platform.clone() })
    }
}

} // verus!
