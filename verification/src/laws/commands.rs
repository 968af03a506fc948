//! What the commands do: which operations follow each other, and what is refused.

use vstd::prelude::*;
use vstd::string::*;

use crate::cli::{FlashArgs, RttArgs};
use crate::dap::io::{DapError, Event};
use crate::error::Error;
use crate::hex::{FirmwareView, HexError, LoadedFirmware, ihex_read};
use crate::laws::hex::{
    law_overlap_is_told, law_records_place_bytes, law_unreached_bytes_are_erased, puts, reaches,
};
use crate::ops::{
    allows, confirmed, firmware_read, flash_run, handles, may_flash, received, reconnected,
    recover_run, refuses, reset_and_reconnected, rtt_run, scan_of, sent,
};
use crate::platform::PlatformHandler;
use crate::platform::nordic::NordicHandler;
use crate::rtt::{RttConfig, RttView, attached, down_written, up_read};
use crate::targets::definition::TargetConfig;

verus! {

/// Whether the event is a reconnection with this outcome.
pub open spec fn connected_anew(event: Event, outcome: Result<(), DapError>) -> bool {
    event matches Event::Reinitialize { result } && match outcome {
        Ok(_) => result is Ok,
        Err(source) => result == Err::<(), DapError>(source),
    }
}

/// A `recover` command recovers, and resets where that succeeded. What the command
/// returns is what the one returns that fails, or success.
pub proof fn law_recover_command<H: PlatformHandler>(handler: H, log: Seq<Event>, at: int)
    requires
        recover_run(handler, log, at) is Some,
    ensures
        ({
            let run = recover_run(handler, log, at)->0;
            let recovery = handler.recovered(log, at)->0;
            let reset = handler.restarted(log, recovery.end)->0;
            &&& handler.recovered(log, at) is Some
            &&& recovery.result matches Err(e) ==> run.result == Err::<(), Error>(e) && run.end
                == recovery.end && run.reports == recovery.reports
            &&& recovery.result is Ok ==> {
                &&& handler.restarted(log, recovery.end) is Some
                &&& run.result == reset.result
                &&& run.end == reset.end
                &&& run.reports == recovery.reports + reset.reports
            }
        }),
{
    let recovery = handler.recovered(log, at)->0;
    if recovery.result is Ok {
        let reset = handler.restarted(log, recovery.end)->0;
        assert(reset.result matches Ok(u) ==> u == ());
    }
}

/// A `flash` command that succeeds has recovered the device, connected it anew,
/// programmed it, compared it where that was asked for and found no difference, and
/// reset it, one behind the other.
pub proof fn law_flash_command_succeeds<H: PlatformHandler>(
    handler: H,
    firmware: FirmwareView,
    verify: bool,
    log: Seq<Event>,
    at: int,
)
    requires
        flash_run(handler, firmware, verify, log, at) matches Some(run) && run.result is Ok,
    ensures
        ({
            let run = flash_run(handler, firmware, verify, log, at)->0;
            let recovery = handler.recovered(log, at)->0;
            let programming = handler.flashed(firmware, log, recovery.end + 1)->0;
            let comparison = handler.verified(firmware, log, programming.end)->0;
            let before = if verify {
                comparison.end
            } else {
                programming.end
            };
            let reset = handler.restarted(log, before)->0;
            &&& handler.recovered(log, at) is Some && recovery.result is Ok
            &&& 0 <= recovery.end < log.len()
            &&& connected_anew(log[recovery.end], Ok(()))
            &&& handler.flashed(firmware, log, recovery.end + 1) is Some && programming.result is Ok
            &&& verify ==> handler.verified(firmware, log, programming.end) is Some
                && comparison.result is Ok && comparison.result->Ok_0.success
            &&& handler.restarted(log, before) is Some && reset.result is Ok
            &&& run.end == reset.end
            &&& run.reports == recovery.reports + programming.reports + (if verify {
                comparison.reports
            } else {
                seq![]
            }) + reset.reports
        }),
{
    let run = flash_run(handler, firmware, verify, log, at)->0;
    let recovery = handler.recovered(log, at)->0;
    let programming = handler.flashed(firmware, log, recovery.end + 1)->0;
    let comparison = handler.verified(firmware, log, programming.end)->0;
    let before = if verify {
        comparison.end
    } else {
        programming.end
    };
    let reset = handler.restarted(log, before)->0;
    assert(reconnected(log, recovery.end) is Some);
    if verify {
        assert(confirmed(handler, firmware, log, programming.end) is Some);
    }
    assert(run.reports =~= recovery.reports + programming.reports + (if verify {
        comparison.reports
    } else {
        seq![]
    }) + reset.reports);
}

/// A `flash` command that fails ends with the first operation that fails, and with
/// its failure: nothing is programmed where the recovery or the reconnection fails,
/// nothing compared where programming fails, and no device reset before all is
/// well.
pub proof fn law_flash_command_fails<H: PlatformHandler>(
    handler: H,
    firmware: FirmwareView,
    verify: bool,
    log: Seq<Event>,
    at: int,
)
    requires
        flash_run(handler, firmware, verify, log, at) matches Some(run) && run.result is Err,
    ensures
        ({
            let run = flash_run(handler, firmware, verify, log, at)->0;
            let e = run.result->Err_0;
            let recovery = handler.recovered(log, at)->0;
            let programming = handler.flashed(firmware, log, recovery.end + 1)->0;
            let comparison = handler.verified(firmware, log, programming.end)->0;
            let before = if verify {
                comparison.end
            } else {
                programming.end
            };
            let reset = handler.restarted(log, before)->0;
            &&& handler.recovered(log, at) is Some
            &&& if recovery.result is Err {
                e == recovery.result->Err_0 && run.end == recovery.end
            } else if !connected_anew(log[recovery.end], Ok(())) {
                &&& e is ReconnectAfterRecovery
                &&& connected_anew(
                    log[recovery.end],
                    Err(e->ReconnectAfterRecovery_source),
                )
                &&& run.end == recovery.end + 1
            } else if programming.result is Err {
                e == programming.result->Err_0 && run.end == programming.end
            } else if verify && comparison.result is Err {
                e == comparison.result->Err_0 && run.end == comparison.end
            } else if verify && !comparison.result->Ok_0.success {
                e == (Error::VerificationFailed { mismatches: comparison.result->Ok_0.mismatches })
                    && run.end == comparison.end
            } else {
                reset.result is Err && e == reset.result->Err_0 && run.end == reset.end
            }
        }),
{
    let recovery = handler.recovered(log, at)->0;
    if recovery.result is Ok {
        assert(reconnected(log, recovery.end) is Some);
        if connected_anew(log[recovery.end], Ok(())) {
            let programming = handler.flashed(firmware, log, recovery.end + 1)->0;
            if programming.result is Ok && verify {
                assert(confirmed(handler, firmware, log, programming.end) is Some);
            }
        }
    }
}

/// An `rtt` command resets the device and connects it anew where that is asked
/// for, and then attaches. What fails first is what the command fails with.
pub proof fn law_rtt_command<H: PlatformHandler>(
    handler: H,
    reset: bool,
    config: RttConfig,
    log: Seq<Event>,
    at: int,
)
    requires
        rtt_run(handler, reset, config, log, at) is Some,
    ensures
        ({
            let run = rtt_run(handler, reset, config, log, at)->0;
            let restart = handler.restarted(log, at)->0;
            let ready = if reset {
                restart.end + 1
            } else {
                at
            };
            let attach = attached(config, log, ready)->0;
            &&& reset ==> handler.restarted(log, at) is Some
            &&& if reset && restart.result is Err {
                run.result is Err && run.result->Err_0 == restart.result->Err_0 && run.end
                    == restart.end
            } else if reset && !connected_anew(log[restart.end], Ok(())) {
                &&& run.result is Err
                &&& run.result->Err_0 is ReconnectAfterReset
                &&& connected_anew(
                    log[restart.end],
                    Err(run.result->Err_0->ReconnectAfterReset_source),
                )
                &&& run.end == restart.end + 1
            } else {
                &&& attached(config, log, ready) is Some
                &&& run.result == attach.result
                &&& run.end == attach.end
            }
        }),
{
    if reset {
        assert(reset_and_reconnected(handler, log, at) is Some);
    }
}

/// What is received is what the first up-channel holds, and nothing where there is
/// none.
pub proof fn law_first_channel_is_received(rtt: RttView, log: Seq<Event>, at: int)
    ensures
        rtt.up.len() == 0 ==> (received(rtt, log, at) matches Some(run) && run.end == at && (
        run.result matches Ok(data) && data.len() == 0)),
        rtt.up.len() > 0 ==> received(rtt, log, at) == up_read(rtt, 0, log, at),
{
}

/// What is sent goes to the first down-channel, and is said to be sent exactly if
/// any of it was stored.
pub proof fn law_first_channel_is_sent_to(rtt: RttView, data: Seq<u8>, log: Seq<Event>, at: int)
    requires
        sent(rtt, data, log, at) is Some,
    ensures
        ({
            let run = sent(rtt, data, log, at)->0;
            let write = down_written(rtt, 0, data, log, at)->0;
            &&& down_written(rtt, 0, data, log, at) is Some
            &&& run.end == write.end
            &&& run.result is Ok <==> write.result is Ok
            &&& run.result matches Ok(stored) ==> (stored <==> write.result->Ok_0 > 0)
            &&& run.result matches Err(e) ==> e == write.result->Err_0
        }),
{
}

/// A target allows what it lists, and everything where it lists nothing. What it
/// does not allow is refused by name, with what it does list.
pub proof fn law_targets_allow_what_they_list(
    target: TargetConfig,
    capability: Seq<char>,
    i: int,
    error: Error,
)
    ensures
        target.capabilities@.len() == 0 ==> allows(target, capability),
        0 <= i < target.capabilities@.len() ==> allows(target, target.capabilities@[i]@),
        target.capabilities@.len() > 0 && (forall|k: int|
            0 <= k < target.capabilities@.len() ==> #[trigger] target.capabilities@[k]@
                != capability) ==> !allows(target, capability),
        refuses(target, capability, error) ==> error is Unsupported && error->Unsupported_target
            == target.id && error->Unsupported_capability@ == capability
            && error->Unsupported_capabilities@ == target.capabilities@,
{
}

/// A `flash` command needs the target to allow programming, and comparing too
/// where that is asked for.
pub proof fn law_flash_needs_capabilities(args: FlashArgs, target: TargetConfig)
    ensures
        may_flash(args, target) ==> target.platform@ == "nordic"@ && (target.capabilities@.len()
            == 0 || target.lists("flash"@)),
        may_flash(args, target) && args.verify ==> target.capabilities@.len() == 0
            || target.lists("verify"@),
        target.platform@ == "nordic"@ && target.lists("flash"@) && target.lists("verify"@)
            ==> may_flash(args, target),
        target.platform@ == "nordic"@ && target.lists("flash"@) && !args.verify ==> may_flash(
            args,
            target,
        ),
        target.platform@ == "nordic"@ && target.capabilities@.len() == 0 ==> may_flash(
            args,
            target,
        ),
{
}

/// A command works with the definition of its target and the timing of real
/// devices.
pub proof fn law_handlers_know_their_target(handler: NordicHandler, target: TargetConfig)
    requires
        handles(handler, target),
    ensures
        handler.config().id == target.id,
        handler.config().name == target.name,
        handler.config().platform == target.platform,
        handler.config().cpu == target.cpu,
        handler.config().cputapid == target.cputapid,
        handler.config().ctrl_ap == target.ctrl_ap,
        handler.config().erase_all_status == target.erase_all_status,
        handler.config().flash_controller == target.flash_controller,
        handler.config().flash == target.flash,
        handler.config().sram == target.sram,
        handler.config().capabilities@ == target.capabilities@,
        handler.config().description == target.description,
        target.platform@ == "nordic"@,
        handler.times().erase_timeout == 30_000,
        handler.times().ready_timeout == 1_000,
{
}

/// A scan starts where it is asked to, else where the target's SRAM starts, else at
/// 0x2000_0000; it covers what it is asked to, else 64 KiB.
pub proof fn law_scan_follows_arguments(args: RttArgs, target: TargetConfig)
    ensures
        args.scan_addr matches Some(addr) ==> scan_of(args, target).scan_start == addr,
        args.scan_addr is None ==> (target.sram matches Some(sram) ==> scan_of(
            args,
            target,
        ).scan_start == sram.address),
        args.scan_addr is None && target.sram is None ==> scan_of(args, target).scan_start
            == 0x2000_0000,
        args.scan_range matches Some(range) ==> scan_of(args, target).scan_range == range,
        args.scan_range is None ==> scan_of(args, target).scan_range == 0x1_0000,
        scan_of(args, target).scan_block == 0x1000,
        scan_of(args, target).scan_stride == 0x800,
{
}

/// Firmware that was read is what the records of its file put where: every byte of
/// the last record that reaches an address stands there, and 0xFF where none does.
/// Where two records reach the same address, one such address is told.
pub proof fn law_firmware_is_what_its_file_puts(
    path: Seq<char>,
    text: String,
    loaded: LoadedFirmware,
    i: int,
    addr: int,
    byte: u8,
)
    requires
        firmware_read(path, Ok(text), Ok(loaded)),
    ensures
        ihex_read(text@) is Ok,
        ({
            let records = ihex_read(text@)->Ok_0;
            let firmware = loaded.firmware@;
            &&& puts(records, i, addr, byte) && (forall|m: int|
                i < m < records.len() ==> !#[trigger] reaches(records, m, addr))
                ==> firmware.start <= addr < firmware.start + firmware.data.len()
                && firmware.data[addr - firmware.start] == byte
            &&& (forall|m: int| 0 <= m < records.len() ==> !#[trigger] reaches(records, m, addr))
                && firmware.start <= addr < firmware.start + firmware.data.len()
                ==> firmware.data[addr - firmware.start] == 0xFF
            &&& firmware.data.len() <= 268_435_456
            &&& firmware.addressable()
            &&& loaded.overlap matches Some(a) ==> exists|k: int, m: int|
                0 <= k < m < records.len() && #[trigger] reaches(records, k, a as int)
                    && #[trigger] reaches(records, m, a as int)
            &&& loaded.overlap is None ==> forall|k: int, m: int|
                0 <= k < m < records.len() && #[trigger] reaches(records, k, addr)
                    ==> !#[trigger] reaches(records, m, addr)
        }),
{
    let records = ihex_read(text@)->Ok_0;
    let firmware = loaded.firmware@;
    law_overlap_is_told(records, loaded.overlap);
    if puts(records, i, addr, byte) && (forall|m: int|
        i < m < records.len() ==> !#[trigger] reaches(records, m, addr)) {
        law_records_place_bytes(records, i, addr, byte);
    }
    if (forall|m: int| 0 <= m < records.len() ==> !#[trigger] reaches(records, m, addr))
        && firmware.start <= addr < firmware.start + firmware.data.len() {
        law_unreached_bytes_are_erased(records, addr);
    }
}

/// A file that could not be read is named with the reason, and one that is no Intel
/// HEX file with what is wrong with it.
pub proof fn law_unreadable_firmware_is_named(
    path: Seq<char>,
    content: Result<String, String>,
    r: Result<LoadedFirmware, Error>,
)
    requires
        firmware_read(path, content, r),
    ensures
        content matches Err(why) ==> (r matches Err(Error::ReadFirmware { path: named, reason })
            && named@ == path && reason@ == why@),
        content matches Ok(text) ==> (ihex_read(text@) matches Err(why) ==> (r matches Err(
            Error::Hex(HexError::Record { reason }),
        ) && reason@ == why)),
        content is Ok && ihex_read(content->Ok_0@) is Ok && r is Err ==> r->Err_0 is Hex && (
        r->Err_0->Hex_0 is NoData || r->Err_0->Hex_0 is SpanTooLarge),
{
}

} // verus!
