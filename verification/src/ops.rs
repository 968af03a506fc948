//! What each subcommand does: targets, platform handlers and RTT tied together.

use vstd::prelude::*;
use vstd::string::*;

use crate::cli::{FlashArgs, RttArgs, VerifyArgs};
use crate::dap::ProbeInfo;
use crate::dap::io::{DapIo, Event, extends, reinitialize_at};
use crate::dap::memory::{Memory, lemma_memory_at, lemma_untouched, memory_at, touches};
use crate::dap::run::{Run, bind, done, failed, ran};
use crate::error::Error;
use crate::hex::{
    Firmware, FirmwareView, HexError, LoadedFirmware, assembly, first_overlap, ihex_read,
    load_intel_hex, segments_of,
};
use crate::platform::{PlatformHandler, ProgressFn, Report, VerifyOutcome, handler_for};
use crate::platform::nordic::{NordicHandler, Timing};
use crate::platform::nordic::laws::{
    holds, law_flash_programs_image, law_recover_is_bounded, law_reset_pulses,
    lemma_read_back_writes_nothing,
};
use crate::rtt::{
    Rtt, RttConfig, RttView, attached, bytes_result, down_written, session_result, up_read,
};
use crate::targets::{TargetSummary, texts};
use crate::targets::definition::TargetConfig;
use crate::targets::probe_filters::ProbeFilter;
use crate::text::{
    chars_of, dec, hex04, join, joined, lemma_split_none, lemma_split_once, push_dec, push_padded,
    same_text, split_once, trim, trimmed,
};

verus! {

/// Whether a target allows an operation. One that lists no capabilities at all
/// allows every operation, which keeps minimal definitions usable.
pub open spec fn allows(target: TargetConfig, capability: Seq<char>) -> bool {
    target.capabilities@.len() == 0 || target.lists(capability)
}

/// What is returned for an operation that a target does not allow.
pub open spec fn refuses(target: TargetConfig, capability: Seq<char>, error: Error) -> bool {
    error matches Error::Unsupported { target: id, capability: named, capabilities } && id
        == target.id && named@ == capability && capabilities@ == target.capabilities@
}

/// Ensures that the target advertises a capability.
pub fn ensure_capability(target: &TargetConfig, capability: &str) -> (r: Result<(), Error>)
    ensures
        match r {
            Ok(_) => allows(*target, capability@),
            Err(e) => !allows(*target, capability@) && refuses(*target, capability@, e),
        },
{
    if target.capabilities.len() > 0 && !target.has_capability(capability) {
        let capabilities = target.capabilities.clone();
        assert(capabilities@ =~= target.capabilities@);
        Err(
            Error::Unsupported {
                target: target.id.clone(),
                capability: capability.to_owned(),
                capabilities,
            },
        )
    } else {
        Ok(())
    }
}

/// Whether `r` is what the file at `path` with this content, or with this reason
/// why it could not be read, gives as firmware.
pub open spec fn firmware_read(
    path: Seq<char>,
    content: Result<String, String>,
    r: Result<LoadedFirmware, Error>,
) -> bool {
    match content {
        Err(why) => r matches Err(Error::ReadFirmware { path: named, reason }) && named@ == path
            && reason == why,
        Ok(text) => match ihex_read(text@) {
            Err(why) => r matches Err(Error::Hex(HexError::Record { reason })) && reason@ == why,
            Ok(records) => match r {
                Ok(loaded) => {
                    &&& assembly(records) == Ok::<FirmwareView, HexError>(loaded.firmware@)
                    &&& first_overlap(segments_of(records), loaded.overlap)
                    &&& loaded.firmware@.addressable()
                },
                Err(e) => e matches Error::Hex(why) && assembly(records) == Err::<
                    FirmwareView,
                    HexError,
                >(why),
            },
        },
    }
}

/// Reads an Intel HEX firmware file, of which `content` is what could be read.
pub fn read_firmware(path: &str, content: Result<String, String>) -> (r: Result<
    LoadedFirmware,
    Error,
>)
    ensures
        firmware_read(path@, content, r),
{
    match content {
        Err(reason) => Err(Error::ReadFirmware { path: path.to_owned(), reason }),
        Ok(text) => match load_intel_hex(text.as_str()) {
            Ok(loaded) => Ok(loaded),
            Err(e) => Err(Error::Hex(e)),
        },
    }
}

/// Whether the handler is the one for the target.
pub open spec fn handles(handler: NordicHandler, target: TargetConfig) -> bool {
    &&& target.platform@ == "nordic"@
    &&& handler.config().same(target)
    &&& handler.times() == Timing::device()
}

/// The handler for an operation on a target that needs a capability.
pub fn prepare(target: &TargetConfig, capability: &str) -> (r: Result<NordicHandler, Error>)
    ensures
        match r {
            Ok(handler) => handles(handler, *target) && allows(*target, capability@),
            Err(e) => if target.platform@ != "nordic"@ {
                e == (Error::NoHandler { platform: target.platform })
            } else {
                !allows(*target, capability@) && refuses(*target, capability@, e)
            },
        },
{
    let handler = match handler_for(target) {
        Ok(handler) => handler,
        Err(e) => return Err(e),
    };
    match ensure_capability(target, capability) {
        Ok(_) => Ok(handler),
        Err(e) => Err(e),
    }
}

/// Whether a `flash` command may go on to the file: the target has a handler,
/// and allows what is asked for.
pub open spec fn may_flash(args: FlashArgs, target: TargetConfig) -> bool {
    &&& target.platform@ == "nordic"@
    &&& allows(target, "flash"@)
    &&& args.verify ==> allows(target, "verify"@)
}

/// Gets a `flash` command ready, before any probe is opened: the target's
/// handler, its capabilities and then the firmware file are looked at.
pub fn prepare_flash(
    args: &FlashArgs,
    target: &TargetConfig,
    content: Result<String, String>,
) -> (r: Result<(NordicHandler, LoadedFirmware), Error>)
    ensures
        match r {
            Ok((handler, loaded)) => {
                &&& may_flash(*args, *target)
                &&& handles(handler, *target)
                &&& firmware_read(args.file@, content, Ok(loaded))
            },
            Err(e) => if target.platform@ != "nordic"@ {
                e == (Error::NoHandler { platform: target.platform })
            } else if !allows(*target, "flash"@) {
                refuses(*target, "flash"@, e)
            } else if args.verify && !allows(*target, "verify"@) {
                refuses(*target, "verify"@, e)
            } else {
                firmware_read(args.file@, content, Err(e))
            },
        },
{
    let handler = match prepare(target, "flash") {
        Ok(handler) => handler,
        Err(e) => return Err(e),
    };
    if args.verify {
        if let Err(e) = ensure_capability(target, "verify") {
            return Err(e);
        }
    }
    match read_firmware(args.file.as_str(), content) {
        Ok(loaded) => Ok((handler, loaded)),
        Err(e) => Err(e),
    }
}

/// Gets a `verify` command ready, before any probe is opened.
pub fn prepare_verify(
    args: &VerifyArgs,
    target: &TargetConfig,
    content: Result<String, String>,
) -> (r: Result<(NordicHandler, LoadedFirmware), Error>)
    ensures
        match r {
            Ok((handler, loaded)) => {
                &&& allows(*target, "verify"@)
                &&& handles(handler, *target)
                &&& firmware_read(args.file@, content, Ok(loaded))
            },
            Err(e) => if target.platform@ != "nordic"@ {
                e == (Error::NoHandler { platform: target.platform })
            } else if !allows(*target, "verify"@) {
                refuses(*target, "verify"@, e)
            } else {
                firmware_read(args.file@, content, Err(e))
            },
        },
{
    let handler = match prepare(target, "verify") {
        Ok(handler) => handler,
        Err(e) => return Err(e),
    };
    match read_firmware(args.file.as_str(), content) {
        Ok(loaded) => Ok((handler, loaded)),
        Err(e) => Err(e),
    }
}

/// The reconnection behind a recovery, which has to succeed.
pub open spec fn reconnected(log: Seq<Event>, at: int) -> Option<Run<()>> {
    match reinitialize_at(log, at) {
        None => None,
        Some(Ok(_)) => done((), at + 1),
        Some(Err(source)) => failed(Error::ReconnectAfterRecovery { source }, at + 1),
    }
}

/// A comparison with flash, which fails where a byte differs.
pub open spec fn confirmed<H: PlatformHandler>(
    handler: H,
    firmware: FirmwareView,
    log: Seq<Event>,
    at: int,
) -> Option<Run<()>> {
    bind(
        handler.verified(firmware, log, at),
        |outcome: VerifyOutcome, at: int|
            if outcome.success {
                done((), at)
            } else {
                failed(Error::VerificationFailed { mismatches: outcome.mismatches }, at)
            },
    )
}

/// A `recover` command: a recovery and a reset.
pub open spec fn recover_run<H: PlatformHandler>(handler: H, log: Seq<Event>, at: int) -> Option<
    Run<()>,
> {
    bind(handler.recovered(log, at), |_r: (), at: int| handler.restarted(log, at))
}

/// A `flash` command: a recovery, a reconnection, the programming, a comparison
/// where it is asked for, and a reset.
pub open spec fn flash_run<H: PlatformHandler>(
    handler: H,
    firmware: FirmwareView,
    verify: bool,
    log: Seq<Event>,
    at: int,
) -> Option<Run<()>> {
    bind(
        handler.recovered(log, at),
        |_r: (), at: int|
            bind(
                reconnected(log, at),
                |_c: (), at: int|
                    bind(
                        handler.flashed(firmware, log, at),
                        |_f: (), at: int|
                            bind(
                                if verify {
                                    confirmed(handler, firmware, log, at)
                                } else {
                                    done((), at)
                                },
                                |_v: (), at: int| handler.restarted(log, at),
                            ),
                    ),
            ),
    )
}

/// `recover`: mass-erases (unlocks) the device, then resets it.
pub fn run_recover<H: PlatformHandler, I: DapIo, P: ProgressFn>(
    handler: &H,
    io: &mut I,
    progress: &mut P,
) -> (r: Result<(), Error>)
    ensures
        extends(old(io).log(), final(io).log()),
        ran(
            recover_run(*handler, final(io).log(), old(io).log().len() as int),
            r,
            old(progress).reports(),
            final(progress).reports(),
            final(io).log().len(),
        ),
{
    let ghost at = io.log().len() as int;
    let ghost told = progress.reports();
    if let Err(e) = handler.recover(io, progress) {
        return Err(e);
    }
    let ghost recovered = io.log();
    let outcome = handler.reset(io);
    proof {
        let any = FirmwareView { start: 0, data: Seq::empty() };
        handler.lemma_stable(any, recovered, io.log(), at);
        lemma_no_reports(handler.restarted(io.log(), recovered.len() as int));
        assert(progress.reports() =~= told + recover_run(*handler, io.log(), at)->0.reports);
    }
    outcome
}

/// An operation that reported nothing has no reports.
proof fn lemma_no_reports<T>(run: Option<Run<T>>)
    requires
        run matches Some(run) && Seq::<Report>::empty() == Seq::<Report>::empty()
            + run.reports,
    ensures
        run->0.reports == Seq::<Report>::empty(),
{
    assert(run->0.reports =~= Seq::<Report>::empty() + run->0.reports);
}

/// Compares flash with firmware, and fails where a byte differs.
fn confirm<H: PlatformHandler, I: DapIo, P: ProgressFn>(
    handler: &H,
    io: &mut I,
    firmware: &Firmware,
    progress: &mut P,
) -> (r: Result<(), Error>)
    requires
        firmware@.addressable(),
    ensures
        extends(old(io).log(), final(io).log()),
        ran(
            confirmed(*handler, firmware@, final(io).log(), old(io).log().len() as int),
            r,
            old(progress).reports(),
            final(progress).reports(),
            final(io).log().len(),
        ),
{
    let ghost at = io.log().len() as int;
    let outcome = handler.verify(io, firmware, progress);
    assert(handler.verified(firmware@, io.log(), at)->0.reports + Seq::<Report>::empty()
        =~= handler.verified(firmware@, io.log(), at)->0.reports);
    match outcome {
        Ok(outcome) => if outcome.success {
            Ok(())
        } else {
            Err(Error::VerificationFailed { mismatches: outcome.mismatches })
        },
        Err(e) => Err(e),
    }
}

/// `verify`: reads flash back and compares it with firmware.
pub fn run_verify<H: PlatformHandler, I: DapIo, P: ProgressFn>(
    handler: &H,
    io: &mut I,
    firmware: &Firmware,
    progress: &mut P,
) -> (r: Result<(), Error>)
    requires
        firmware@.addressable(),
    ensures
        extends(old(io).log(), final(io).log()),
        ran(
            confirmed(*handler, firmware@, final(io).log(), old(io).log().len() as int),
            r,
            old(progress).reports(),
            final(progress).reports(),
            final(io).log().len(),
        ),
{
    confirm(handler, io, firmware, progress)
}

/// `reset`: resets the target device.
pub fn run_reset<H: PlatformHandler, I: DapIo>(
    handler: &H,
    io: &mut I,
) -> (r: Result<(), Error>)
    ensures
        extends(old(io).log(), final(io).log()),
        ran(
            handler.restarted(final(io).log(), old(io).log().len() as int),
            r,
            Seq::empty(),
            Seq::empty(),
            final(io).log().len(),
        ),
{
    handler.reset(io)
}

/// `flash`: recovers, flashes, verifies where it is asked for, then resets.
#[verifier::rlimit(40)]
pub fn run_flash<H: PlatformHandler, I: DapIo, P: ProgressFn>(
    handler: &H,
    io: &mut I,
    firmware: &Firmware,
    verify: bool,
    progress: &mut P,
) -> (r: Result<(), Error>)
    requires
        handler.registers_fit(),
        firmware@.addressable(),
    ensures
        extends(old(io).log(), final(io).log()),
        ran(
            flash_run(*handler, firmware@, verify, final(io).log(), old(io).log().len() as int),
            r,
            old(progress).reports(),
            final(progress).reports(),
            final(io).log().len(),
        ),
{
    let ghost at = io.log().len() as int;
    let ghost told = progress.reports();
    if let Err(e) = handler.recover(io, progress) {
        return Err(e);
    }
    let ghost recovered = io.log();
    let ghost first = handler.recovered(recovered, at)->0;
    let outcome = io.reinitialize();
    let ghost connected = io.log();
    proof {
        handler.lemma_stable(firmware@, recovered, connected, at);
        assert(first.reports + Seq::<Report>::empty() =~= first.reports);
    }
    if let Err(source) = outcome {
        return Err(Error::ReconnectAfterRecovery { source });
    }
    let outcome = handler.flash(io, firmware, progress);
    let ghost written = io.log();
    let ghost second = handler.flashed(firmware@, written, connected.len() as int)->0;
    proof {
        handler.lemma_stable(firmware@, recovered, written, at);
        assert(Seq::<Report>::empty() + second.reports =~= second.reports);
    }
    if let Err(e) = outcome {
        assert(progress.reports() =~= told + flash_run(
            *handler,
            firmware@,
            verify,
            io.log(),
            at,
        )->0.reports);
        return Err(e);
    }
    if verify {
        let outcome = confirm(handler, io, firmware, progress);
        proof {
            handler.lemma_stable(firmware@, recovered, io.log(), at);
            handler.lemma_stable(firmware@, written, io.log(), connected.len() as int);
        }
        if let Err(e) = outcome {
            assert(progress.reports() =~= told + flash_run(
                *handler,
                firmware@,
                verify,
                io.log(),
                at,
            )->0.reports);
            return Err(e);
        }
    }
    let ghost compared = io.log();
    let outcome = handler.reset(io);
    proof {
        handler.lemma_stable(firmware@, recovered, io.log(), at);
        handler.lemma_stable(firmware@, written, io.log(), connected.len() as int);
        handler.lemma_stable(firmware@, compared, io.log(), written.len() as int);
        lemma_no_reports(handler.restarted(io.log(), compared.len() as int));
        assert(progress.reports() =~= told + flash_run(
            *handler,
            firmware@,
            verify,
            io.log(),
            at,
        )->0.reports);
    }
    outcome
}

/// A `flash` command that succeeds has recovered the device, reconnected to it,
/// programmed it, found no byte that differs where it was asked to verify, and
/// reset the device.
#[verifier::rlimit(40)]
pub proof fn law_flash_completes<H: PlatformHandler>(
    handler: H,
    firmware: FirmwareView,
    verify: bool,
    log: Seq<Event>,
    at: int,
)
    requires
        flash_run(handler, firmware, verify, log, at) matches Some(run) && run.result is Ok,
    ensures
        ({
            let recovery = handler.recovered(log, at)->0;
            let programming = handler.flashed(firmware, log, recovery.end + 1)->0;
            let comparison = handler.verified(firmware, log, programming.end)->0;
            let restart = handler.restarted(
                log,
                if verify {
                    comparison.end
                } else {
                    programming.end
                },
            )->0;
            &&& recovery.result is Ok
            &&& reinitialize_at(log, recovery.end) matches Some(reply) && reply is Ok
            &&& programming.result is Ok
            &&& verify ==> comparison.result is Ok && comparison.result->Ok_0.success
            &&& restart.result is Ok
            &&& restart.end == flash_run(handler, firmware, verify, log, at)->0.end
        }),
{
    let recovery = handler.recovered(log, at)->0;
    assert(recovery.result is Ok);
    let connection = reconnected(log, recovery.end)->0;
    assert(connection.result is Ok);
    let programming = handler.flashed(firmware, log, recovery.end + 1)->0;
    assert(programming.result is Ok);
    if verify {
        assert(confirmed(handler, firmware, log, programming.end)->0.result is Ok);
        let comparison = handler.verified(firmware, log, programming.end)->0;
        assert(comparison.result is Ok);
        assert(handler.restarted(log, comparison.end) is Some);
    }
}

/// Nothing is programmed over a dead connection: where the reconnection behind a
/// recovery fails, a `flash` command ends with it, and says so.
pub proof fn law_flash_needs_connection<H: PlatformHandler>(
    handler: H,
    firmware: FirmwareView,
    verify: bool,
    log: Seq<Event>,
    at: int,
)
    requires
        handler.recovered(log, at) matches Some(run) && run.result is Ok,
        reinitialize_at(log, handler.recovered(log, at)->0.end) matches Some(reply) && reply
            is Err,
    ensures
        flash_run(handler, firmware, verify, log, at) matches Some(run) && run.end
            == handler.recovered(log, at)->0.end + 1 && (run.result matches Err(
            Error::ReconnectAfterRecovery { .. },
        )),
{
}

/// Memory that holds an image still does after events that are no writes.
proof fn lemma_still_holds(
    firmware: FirmwareView,
    memory: Memory,
    log: Seq<Event>,
    from: int,
    start: int,
    end: int,
)
    requires
        from <= start <= end,
        holds(memory_at(memory, log, from, start), firmware),
        forall|k: int, a: int| start <= k < end ==> !#[trigger] touches(log[k], a),
    ensures
        holds(memory_at(memory, log, from, end), firmware),
{
    let before = memory_at(memory, log, from, start);
    let left = memory_at(memory, log, from, end);
    assert forall|j: int| 0 <= j < firmware.data.len() implies #[trigger] left(firmware.start + j)
        == firmware.data[j] by {
        let a = firmware.start + j;
        assert forall|k: int| start <= k < end implies !touches(#[trigger] log[k], a) by {}
        lemma_untouched(memory, log, from, start, end, a);
        assert(before(a) == firmware.data[j]);
    }
}

/// A reset writes to no memory.
proof fn lemma_restart_writes_nothing(handler: NordicHandler, log: Seq<Event>, at: int)
    requires
        handler.restarted(log, at) matches Some(run) && run.result is Ok,
    ensures
        forall|k: int, a: int|
            at <= k < handler.restarted(log, at)->0.end ==> !#[trigger] touches(log[k], a),
{
    law_reset_pulses(handler, log, at);
    assert forall|k: int, a: int|
        at <= k < handler.restarted(log, at)->0.end implies !#[trigger] touches(log[k], a) by {
        let d = k - at;
        assert(d == 0 || d == 1 || d == 2 || d == 3);
    }
}

/// After a `flash` command that succeeds, with verification or without, a device
/// that keeps what is written to it holds the image.
#[verifier::rlimit(40)]
pub proof fn law_flash_leaves_image(
    handler: NordicHandler,
    firmware: FirmwareView,
    verify: bool,
    memory: Memory,
    log: Seq<Event>,
    at: int,
)
    requires
        handler.times() == Timing::device() || handler.times() == Timing::zero(),
        flash_run(handler, firmware, verify, log, at) matches Some(run) && run.result is Ok,
    ensures
        holds(
            memory_at(memory, log, at, flash_run(handler, firmware, verify, log, at)->0.end),
            firmware,
        ),
{
    law_flash_completes(handler, firmware, verify, log, at);
    let end = flash_run(handler, firmware, verify, log, at)->0.end;
    let recovery = handler.recovered(log, at)->0;
    let connected = recovery.end + 1;
    let programming = handler.flashed(firmware, log, connected)->0;
    let written = programming.end;
    law_recover_is_bounded(handler, log, at);
    let found = memory_at(memory, log, at, connected);
    law_flash_programs_image(handler, firmware, found, log, connected);
    lemma_memory_at(memory, log, at, connected, written);
    if verify {
        let comparison = handler.verified(firmware, log, written)->0;
        lemma_read_back_writes_nothing(firmware, log, written, Seq::empty());
        lemma_restart_writes_nothing(handler, log, comparison.end);
    } else {
        lemma_restart_writes_nothing(handler, log, written);
    }
    lemma_still_holds(firmware, memory, log, at, written, end);
}

/// Where an `rtt` command scans: from the address that is asked for, else from
/// the start of the target's SRAM, else as by default.
pub open spec fn scan_of(args: RttArgs, target: TargetConfig) -> RttConfig {
    let window = RttConfig::sram_window();
    RttConfig {
        scan_start: match (args.scan_addr, target.sram) {
            (Some(addr), _) => addr,
            (None, Some(sram)) => sram.address,
            (None, None) => window.scan_start,
        },
        scan_range: match args.scan_range {
            Some(range) => range,
            None => window.scan_range,
        },
        scan_block: window.scan_block,
        scan_stride: window.scan_stride,
    }
}

/// Decides where an `rtt` command scans.
pub fn rtt_config(args: &RttArgs, target: &TargetConfig) -> (r: RttConfig)
    ensures
        r == scan_of(*args, *target),
{
    let mut config = RttConfig::default();
    if let Some(addr) = args.scan_addr {
        config.scan_start = addr;
    } else if let Some(sram) = target.sram {
        config.scan_start = sram.address;
    }
    if let Some(range) = args.scan_range {
        config.scan_range = range;
    }
    config
}

/// A reset, and the reconnection behind it, which has to succeed.
pub open spec fn reset_and_reconnected<H: PlatformHandler>(
    handler: H,
    log: Seq<Event>,
    at: int,
) -> Option<Run<()>> {
    bind(
        handler.restarted(log, at),
        |_r: (), at: int|
            match reinitialize_at(log, at) {
                None => None,
                Some(Ok(_)) => done((), at + 1),
                Some(Err(source)) => failed(Error::ReconnectAfterReset { source }, at + 1),
            },
    )
}

/// The start of an `rtt` command: a reset where it is asked for, and the scan
/// for the control block.
pub open spec fn rtt_run<H: PlatformHandler>(
    handler: H,
    reset: bool,
    config: RttConfig,
    log: Seq<Event>,
    at: int,
) -> Option<Run<RttView>> {
    bind(
        if reset {
            reset_and_reconnected(handler, log, at)
        } else {
            done((), at)
        },
        |_r: (), at: int| attached(config, log, at),
    )
}

/// `rtt`: resets the device where it is asked for, and attaches to RTT.
#[verifier::rlimit(40)]
pub fn attach_rtt<H: PlatformHandler, I: DapIo>(
    handler: &H,
    io: &mut I,
    reset: bool,
    config: &RttConfig,
) -> (r: Result<Rtt, Error>)
    ensures
        extends(old(io).log(), final(io).log()),
        ran(
            rtt_run(*handler, reset, *config, final(io).log(), old(io).log().len() as int),
            session_result(r),
            Seq::empty(),
            Seq::empty(),
            final(io).log().len(),
        ),
{
    let ghost at = io.log().len() as int;
    assert(Seq::<Report>::empty() + Seq::<Report>::empty() =~= Seq::<Report>::empty());
    if !reset {
        let session = Rtt::attach(io, config);
        proof {
            lemma_no_reports(attached(*config, io.log(), at));
        }
        return session;
    }
    let outcome = handler.reset(io);
    let ghost restarted = io.log();
    proof {
        lemma_no_reports(handler.restarted(restarted, at));
    }
    if let Err(e) = outcome {
        return Err(e);
    }
    let outcome = io.reinitialize();
    let ghost connected = io.log();
    proof {
        let any = FirmwareView { start: 0, data: Seq::empty() };
        handler.lemma_stable(any, restarted, connected, at);
    }
    if let Err(source) = outcome {
        return Err(Error::ReconnectAfterReset { source });
    }
    let session = Rtt::attach(io, config);
    proof {
        let any = FirmwareView { start: 0, data: Seq::empty() };
        handler.lemma_stable(any, restarted, io.log(), at);
        lemma_no_reports(attached(*config, io.log(), connected.len() as int));
    }
    session
}

/// One look at the first up-buffer, where there is one.
pub open spec fn received(rtt: RttView, log: Seq<Event>, at: int) -> Option<Run<Seq<u8>>> {
    if rtt.up.len() == 0 {
        done(Seq::empty(), at)
    } else {
        up_read(rtt, 0, log, at)
    }
}

/// Takes what the target has written, which is nothing where it has no
/// up-buffer.
pub fn rtt_receive<I: DapIo>(rtt: &Rtt, io: &mut I) -> (r: Result<Vec<u8>, Error>)
    ensures
        extends(old(io).log(), final(io).log()),
        ran(
            received(rtt@, final(io).log(), old(io).log().len() as int),
            bytes_result(r),
            Seq::empty(),
            Seq::empty(),
            final(io).log().len(),
        ),
{
    let (up, _down) = rtt.channel_counts();
    if up == 0 {
        let none: Vec<u8> = Vec::new();
        assert(none@ =~= Seq::<u8>::empty());
        assert(Seq::<Report>::empty() + Seq::<Report>::empty() =~= Seq::<Report>::empty());
        Ok(none)
    } else {
        rtt.read_up(io, 0)
    }
}

/// Tells whether the target takes input at all: whether it has a down-buffer.
pub fn rtt_takes_input(rtt: &Rtt) -> (r: bool)
    ensures
        r == (rtt@.down.len() > 0),
{
    let (_up, down) = rtt.channel_counts();
    down > 0
}

/// A write of input to the first down-buffer, and whether it was taken.
pub open spec fn sent(rtt: RttView, data: Seq<u8>, log: Seq<Event>, at: int) -> Option<Run<bool>> {
    bind(
        down_written(rtt, 0, data, log, at),
        |written: usize, at: int| done(written != 0, at),
    )
}

/// Hands input to the target, and tells whether it was taken. Input that does
/// not fit as a whole is dropped.
pub fn rtt_send<I: DapIo>(rtt: &Rtt, io: &mut I, data: &[u8]) -> (r: Result<bool, Error>)
    ensures
        extends(old(io).log(), final(io).log()),
        ran(
            sent(rtt@, data@, final(io).log(), old(io).log().len() as int),
            r,
            Seq::empty(),
            Seq::empty(),
            final(io).log().len(),
        ),
{
    let ghost at = io.log().len() as int;
    let outcome = rtt.write_down(io, 0, data);
    proof {
        lemma_no_reports(down_written(rtt@, 0, data@, io.log(), at));
        assert(Seq::<Report>::empty() + Seq::<Report>::empty() =~= Seq::<Report>::empty());
    }
    match outcome {
        Ok(written) => Ok(written != 0),
        Err(e) => Err(e),
    }
}

/// The vendor part of a comment, which is written in front of an em dash.
pub open spec fn vendor_of(comment: Seq<char>) -> Seq<char> {
    trimmed(
        match split_once(comment, '\u{2014}') {
            Some((vendor, _)) => vendor,
            None => comment,
        },
    )
}

/// What the listing adds to a probe of a known vendor, by the first entry with
/// its id.
pub open spec fn vendor_note(filters: Seq<ProbeFilter>, vid: u16) -> Seq<char>
    decreases filters.len(),
{
    if filters.len() == 0 {
        Seq::empty()
    } else if filters[0].vid == vid {
        match filters[0].comment {
            Some(comment) => "  ["@ + vendor_of(comment@) + "]"@,
            None => "  [known CMSIS-DAP vendor]"@,
        }
    } else {
        vendor_note(filters.drop_first(), vid)
    }
}

/// The line of the listing for the probe with number `i`.
pub open spec fn probe_line(i: nat, probe: ProbeInfo, filters: Seq<ProbeFilter>) -> Seq<char> {
    "  "@ + dec(i) + ": "@ + probe.identifier@ + " ("@ + hex04(probe.vendor_id as nat) + ":"@
        + hex04(probe.product_id as nat) + ") serial="@ + (match probe.serial_number {
        Some(serial) => serial@,
        None => "-"@,
    }) + vendor_note(filters, probe.vendor_id)
}

/// The lines of the listing of probes.
pub open spec fn probe_lines(probes: Seq<ProbeInfo>, filters: Seq<ProbeFilter>) -> Seq<
    Seq<char>,
> {
    seq!["Connected probes:"@] + if probes.len() == 0 {
        seq!["  (none found)"@]
    } else {
        Seq::new(probes.len(), |i: int| probe_line(i as nat, probes[i], filters))
    }
}

/// The lines of the listing for one target.
pub open spec fn target_lines(target: TargetSummary) -> Seq<Seq<char>> {
    let line = "  "@ + target.id@ + " \u{2014} "@ + target.name@ + " ["@ + joined(
        target.capabilities@,
        ", "@,
    ) + "]"@;
    if target.description@.len() == 0 {
        seq![line]
    } else {
        seq![line, "       "@ + target.description@]
    }
}

/// The lines of the listing of targets.
pub open spec fn targets_lines(targets: Seq<TargetSummary>) -> Seq<Seq<char>>
    decreases targets.len(),
{
    if targets.len() == 0 {
        seq![Seq::empty(), "Available targets:"@]
    } else {
        targets_lines(targets.drop_last()) + target_lines(targets.last())
    }
}

/// The vendor part of a comment.
fn vendor_part(comment: &str) -> (r: String)
    ensures
        r@ == vendor_of(comment@),
{
    let chars = chars_of(comment);
    let mut i: usize = 0;
    while i < chars.len() && chars[i] != '\u{2014}'
        invariant
            i <= chars@.len(),
            chars@ == comment@,
            forall|k: int| 0 <= k < i ==> #[trigger] comment@[k] != '\u{2014}',
        decreases chars@.len() - i,
    {
        i = i + 1;
    }
    let front = comment.substring_char(0, i);
    proof {
        if i < chars@.len() {
            let back = comment@.skip(i as int + 1);
            assert(comment@ =~= front@ + seq!['\u{2014}'] + back);
            lemma_split_once(front@, '\u{2014}', back);
        } else {
            assert(front@ =~= comment@);
            lemma_split_none(comment@, '\u{2014}');
        }
    }
    trim(front).to_owned()
}

/// Writes what the listing adds to a probe of a known vendor.
fn note_for(filters: &Vec<ProbeFilter>, vid: u16) -> (r: String)
    ensures
        r@ == vendor_note(filters@, vid),
{
    let mut i: usize = 0;
    assert(filters@.skip(0) =~= filters@);
    while i < filters.len()
        invariant
            i <= filters@.len(),
            vendor_note(filters@, vid) == vendor_note(filters@.skip(i as int), vid),
        decreases filters@.len() - i,
    {
        assert(filters@.skip(i as int).drop_first() =~= filters@.skip(i as int + 1));
        if filters[i].vid == vid {
            return match &filters[i].comment {
                Some(comment) => {
                    let mut note = "  [".to_owned();
                    note.append(vendor_part(comment.as_str()).as_str());
                    note.append("]");
                    note
                },
                None => "  [known CMSIS-DAP vendor]".to_owned(),
            };
        }
        i = i + 1;
    }
    String::new()
}

/// Writes the line of the listing for the probe with number `i`.
fn write_probe(i: usize, probe: &ProbeInfo, filters: &Vec<ProbeFilter>) -> (r: String)
    ensures
        r@ == probe_line(i as nat, *probe, filters@),
{
    let mut line = "  ".to_owned();
    push_dec(&mut line, i as u64);
    line.append(": ");
    line.append(probe.identifier.as_str());
    line.append(" (");
    push_padded(&mut line, probe.vendor_id as u64, 16, false, 4);
    line.append(":");
    push_padded(&mut line, probe.product_id as u64, 16, false, 4);
    line.append(") serial=");
    match &probe.serial_number {
        Some(serial) => {
            line.append(serial.as_str());
        },
        None => {
            line.append("-");
        },
    }
    line.append(note_for(filters, probe.vendor_id).as_str());
    line
}

/// Writes the listing of probes, line by line.
pub fn describe_probes(probes: &Vec<ProbeInfo>, filters: &Vec<ProbeFilter>) -> (r: Vec<String>)
    ensures
        texts(r@) == probe_lines(probes@, filters@),
{
    let mut lines: Vec<String> = Vec::new();
    lines.push("Connected probes:".to_owned());
    if probes.len() == 0 {
        lines.push("  (none found)".to_owned());
        assert(texts(lines@) =~= probe_lines(probes@, filters@));
        return lines;
    }
    let mut i: usize = 0;
    assert(texts(lines@) =~= seq!["Connected probes:"@] + Seq::new(
        0,
        |k: int| probe_line(k as nat, probes@[k], filters@),
    ));
    while i < probes.len()
        invariant
            i <= probes@.len(),
            texts(lines@) == seq!["Connected probes:"@] + Seq::new(
                i as nat,
                |k: int| probe_line(k as nat, probes@[k], filters@),
            ),
        decreases probes@.len() - i,
    {
        let ghost before = lines@;
        lines.push(write_probe(i, &probes[i], filters));
        assert(texts(lines@) =~= texts(before).push(
            probe_line(i as nat, probes@[i as int], filters@),
        ));
        i = i + 1;
        assert(texts(lines@) =~= seq!["Connected probes:"@] + Seq::new(
            i as nat,
            |k: int| probe_line(k as nat, probes@[k], filters@),
        ));
    }
    assert(texts(lines@) =~= probe_lines(probes@, filters@));
    lines
}

/// Writes the listing of targets, line by line.
pub fn describe_targets(targets: &Vec<TargetSummary>) -> (r: Vec<String>)
    ensures
        texts(r@) == targets_lines(targets@),
{
    let mut lines: Vec<String> = Vec::new();
    lines.push(String::new());
    lines.push("Available targets:".to_owned());
    let mut i: usize = 0;
    assert(targets@.take(0) =~= Seq::<TargetSummary>::empty());
    assert(texts(lines@) =~= targets_lines(targets@.take(0))) by {
        assert(lines@[0]@ =~= Seq::<char>::empty());
    }
    while i < targets.len()
        invariant
            i <= targets@.len(),
            texts(lines@) == targets_lines(targets@.take(i as int)),
        decreases targets@.len() - i,
    {
        let ghost before = texts(lines@);
        let target = &targets[i];
        let mut line = "  ".to_owned();
        line.append(target.id.as_str());
        line.append(" \u{2014} ");
        line.append(target.name.as_str());
        line.append(" [");
        line.append(join(&target.capabilities, ", ").as_str());
        line.append("]");
        let ghost shown = line@;
        lines.push(line);
        assert(texts(lines@) =~= before.push(shown));
        if !same_text(target.description.as_str(), "") {
            let mut line = "       ".to_owned();
            line.append(target.description.as_str());
            let ghost more = line@;
            let ghost first = texts(lines@);
            lines.push(line);
            assert(texts(lines@) =~= first.push(more));
        }
        proof {
            reveal_strlit("");
            if target.description@.len() == 0 {
                assert(target.description@ =~= ""@);
            }
            assert(targets@.take(i as int + 1).drop_last() =~= targets@.take(i as int));
            assert(texts(lines@) =~= before + target_lines(*target));
        }
        i = i + 1;
    }
    assert(targets@.take(targets@.len() as int) =~= targets@);
    lines
}

} // verus!
