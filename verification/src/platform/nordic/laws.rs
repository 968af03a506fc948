//! What holds of the handler as a whole: what programming and verification mean
//! for the memory of a device, and what a recovery does and how long it takes.

use vstd::prelude::*;

use crate::dap::io::{
    DapError, Event, ap_read_at, ap_write_at, clock_at, slept_at, word_read_at, words_read_at,
    words_write_at,
};
use crate::dap::memory::{
    Memory, faithful, lemma_untouched, lemma_word_bytes, memory_at, shows, touches, untouched,
    word_byte,
};
use crate::error::{Controller, Error};
use crate::hex::{ERASED, FirmwareView};
use crate::platform::{PlatformHandler, Progress, Report, VerifyOutcome, Warning};
use crate::platform::nordic::{
    CTRL_AP_ERASEALL, CTRL_AP_ERASEALLSTATUS, CTRL_AP_ERASEPROTECTSTATUS, CTRL_AP_RESET, ErasePhase,
    EraseWait, NANOS_PER_MILLI, NordicHandler, Timing, elapsed, erase_state,
};
use crate::platform::nordic::flash::{
    NVMC_READY_OFFSET, TOLD_MISMATCHES, differing, mismatches_told, padded_byte, ready_polled,
    transfer_len, word_count, word_of, words_from, words_read_back, words_written,
};
use crate::targets::definition::{CtrlAp, EraseAllStatus, FlashController};

verus! {

/// Whether memory holds the image.
pub open spec fn holds(memory: Memory, firmware: FirmwareView) -> bool {
    forall|j: int|
        0 <= j < firmware.data.len() ==> #[trigger] memory(firmware.start + j) == firmware.data[j]
}

/// Byte `j` of an image, or of what pads it, is a byte of one of its words.
proof fn lemma_word_of(data: Seq<u8>, j: int)
    requires
        0 <= j,
    ensures
        word_byte(word_of(data, j / 4), j % 4) == padded_byte(data, j),
{
    let w = j / 4;
    lemma_word_bytes(
        padded_byte(data, 4 * w),
        padded_byte(data, 4 * w + 1),
        padded_byte(data, 4 * w + 2),
        padded_byte(data, 4 * w + 3),
    );
    assert(j == 4 * w + j % 4);
}

/// After the transfers from word `w` on, memory holds that part of the image,
/// and below it what it held before.
proof fn lemma_written(
    firmware: FirmwareView,
    memory: Memory,
    log: Seq<Event>,
    from: int,
    at: int,
    w: nat,
)
    requires
        from <= at,
        words_written(firmware, log, at, w) matches Some(run) && run.result is Ok,
    ensures
        ({
            let end = words_written(firmware, log, at, w)->0.end;
            &&& at <= end
            &&& forall|j: int|
                4 * w <= j < 4 * word_count(firmware.data.len()) ==> #[trigger] memory_at(
                    memory,
                    log,
                    from,
                    end,
                )(firmware.start + j) == padded_byte(firmware.data, j)
            &&& forall|a: int|
                a < firmware.start + 4 * w ==> #[trigger] memory_at(memory, log, from, end)(a)
                    == memory_at(memory, log, from, at)(a)
        }),
    decreases word_count(firmware.data.len()) - w,
{
    let total = word_count(firmware.data.len());
    let end = words_written(firmware, log, at, w)->0.end;
    if w < total {
        let next = w + transfer_len(w, total);
        let words = words_from(firmware.data, w);
        lemma_written(firmware, memory, log, from, at + 1, next);
        let mid = memory_at(memory, log, from, at + 1);
        assert forall|j: int| 4 * w <= j < 4 * total implies #[trigger] memory_at(
            memory,
            log,
            from,
            end,
        )(firmware.start + j) == padded_byte(firmware.data, j) by {
            if j < 4 * next {
                let a = firmware.start + j;
                assert(touches(log[at], a));
                let k = j - 4 * w;
                assert(k / 4 == j / 4 - w && k % 4 == j % 4);
                assert(mid(a) == word_byte(words[k / 4], k % 4));
                assert(words[k / 4] == word_of(firmware.data, j / 4));
                lemma_word_of(firmware.data, j);
                assert(memory_at(memory, log, from, end)(a) == mid(a));
            }
        }
        assert forall|a: int| a < firmware.start + 4 * w implies #[trigger] memory_at(
            memory,
            log,
            from,
            end,
        )(a) == memory_at(memory, log, from, at)(a) by {
            assert(!touches(log[at], a));
            assert(mid(a) == memory_at(memory, log, from, at)(a));
        }
    }
}

/// The words that a read-back from a device that keeps what is written to it adds
/// to those seen are what memory holds.
pub proof fn lemma_read_back(
    firmware: FirmwareView,
    memory: Memory,
    log: Seq<Event>,
    from: int,
    at: int,
    seen: Seq<u32>,
)
    requires
        from <= at,
        seen.len() <= word_count(firmware.data.len()),
        words_read_back(firmware, log, at, seen) matches Some(run) && run.result is Ok && faithful(
            memory,
            log,
            from,
            run.end,
        ),
    ensures
        ({
            let words = words_read_back(firmware, log, at, seen)->0.result->Ok_0;
            &&& words.len() == word_count(firmware.data.len())
            &&& forall|k: int| 0 <= k < seen.len() ==> #[trigger] words[k] == seen[k]
            &&& forall|j: int|
                4 * seen.len() <= j < 4 * words.len() ==> #[trigger] word_byte(
                    words[j / 4],
                    j % 4,
                ) == memory_at(memory, log, from, at)(firmware.start + j)
        }),
    decreases word_count(firmware.data.len()) - seen.len(),
{
    let total = word_count(firmware.data.len());
    let w = seen.len();
    if w < total {
        let len = transfer_len(w, total);
        let addr = (firmware.start + 4 * w) as int;
        let got = words_read_at(log, at, addr, len)->0->Ok_0;
        let all = seen + got;
        let held = memory_at(memory, log, from, at);
        let words = words_read_back(firmware, log, at, seen)->0.result->Ok_0;
        lemma_read_back_writes_nothing(firmware, log, at + 1, all);
        lemma_read_back(firmware, memory, log, from, at + 1, all);
        assert(shows(held, log[at]));
        assert forall|k: int| 0 <= k < seen.len() implies #[trigger] words[k] == seen[k] by {
            assert(words[k] == all[k]);
        }
        assert forall|j: int| 4 * w <= j < 4 * words.len() implies #[trigger] word_byte(
            words[j / 4],
            j % 4,
        ) == held(firmware.start + j) by {
            let a = firmware.start + j;
            if j < 4 * all.len() {
                let k = j - 4 * w;
                assert(k / 4 == j / 4 - w && k % 4 == j % 4);
                assert(words[j / 4] == all[j / 4]);
                assert(word_byte(got[k / 4], k % 4) == held(addr + k));
            } else {
                let next = memory_at(memory, log, from, at + 1);
                assert(word_byte(words[j / 4], j % 4) == next(a));
                assert(!touches(log[at], a));
                assert(next(a) == held(a));
            }
        }
    }
}

/// A read-back writes to no memory.
pub proof fn lemma_read_back_writes_nothing(
    firmware: FirmwareView,
    log: Seq<Event>,
    at: int,
    seen: Seq<u32>,
)
    requires
        words_read_back(firmware, log, at, seen) is Some,
    ensures
        at <= words_read_back(firmware, log, at, seen)->0.end,
        forall|k: int, a: int|
            at <= k < words_read_back(firmware, log, at, seen)->0.end ==> !#[trigger] touches(
                log[k],
                a,
            ),
    decreases word_count(firmware.data.len()) - seen.len(),
{
    let total = word_count(firmware.data.len());
    let w = seen.len();
    if w < total {
        let addr = (firmware.start + 4 * w) as int;
        if let Some(Ok(words)) = words_read_at(log, at, addr, transfer_len(w, total)) {
            lemma_read_back_writes_nothing(firmware, log, at + 1, seen + words);
        }
    }
}

/// No byte differs exactly if each byte is equal.
proof fn lemma_differing_none(data: Seq<u8>, words: Seq<u32>, n: nat)
    ensures
        differing(data, words, n) == 0 <==> forall|j: int|
            0 <= j < n ==> #[trigger] word_byte(words[j / 4], j % 4) == data[j],
    decreases n,
{
    if n > 0 {
        lemma_differing_none(data, words, (n - 1) as nat);
        let j = n - 1;
        if differing(data, words, n) != 0 && differing(data, words, (n - 1) as nat) == 0 {
            assert(word_byte(words[j / 4], j % 4) != data[j]);
        }
    }
}

/// Whether polls wait between their looks, or look once only.
pub open spec fn paced(times: Timing) -> bool {
    &&& times.erase_timeout > 0 ==> times.erase_interval > 0
    &&& times.ready_timeout > 0 ==> times.ready_interval > 0
}

proof fn lemma_controller_events(h: NordicHandler, log: Seq<Event>, at: int)
    requires
        h.controller_enabled(log, at) is Some,
    ensures
        at <= h.controller_enabled(log, at)->0.end,
        paced(h.times()) ==> h.controller_enabled(log, at)->0.end <= at + 4 + poll_bound(
            h.times().ready_timeout,
            h.times().ready_interval,
            0,
        ),
{
    if paced(h.times()) && h.times().ready_timeout > 0 {
        lemma_poll_bound(h.times().ready_timeout, h.times().ready_interval, 0);
    }
    if let Some(fc) = h.config().flash_controller {
        match FlashController::controller_of(fc.kind@) {
            None => {},
            Some(Controller::Rramc) => {
                if let Some(regs) = fc.registers {
                    let addr = (fc.base + regs.ready.offset) as u64;
                    lemma_ready_events(h, Controller::Rramc, addr, log, at + 3);
                }
            },
            Some(Controller::Nvmc) => {
                let addr = (fc.base + NVMC_READY_OFFSET) as u64;
                lemma_ready_events(h, Controller::Nvmc, addr, log, at + 1);
            },
        }
    }
}

proof fn lemma_ready_events(
    h: NordicHandler,
    controller: Controller,
    addr: u64,
    log: Seq<Event>,
    at: int,
)
    ensures
        h.ready_awaited(controller, addr, log, at) matches Some(run) ==> at <= run.end && (paced(
            h.times(),
        ) ==> run.end <= at + 1 + poll_bound(
            h.times().ready_timeout,
            h.times().ready_interval,
            0,
        )),
{
    if h.ready_awaited(controller, addr, log, at) is Some {
        lemma_polled_events(
            addr,
            h.times().ready_timeout,
            h.times().ready_interval,
            log,
            at + 1,
            clock_at(log, at)->0,
            0,
        );
    }
}

proof fn lemma_polled_events(
    addr: u64,
    timeout: u64,
    interval: u64,
    log: Seq<Event>,
    at: int,
    start: u64,
    waited: nat,
)
    requires
        ready_polled(addr, timeout, interval, log, at, start, waited) is Some,
    ensures
        at <= ready_polled(addr, timeout, interval, log, at, start, waited)->0.end,
        (timeout > 0 ==> interval > 0) ==> ready_polled(
            addr,
            timeout,
            interval,
            log,
            at,
            start,
            waited,
        )->0.end <= at + poll_bound(timeout, interval, waited),
    decreases log.len() - at,
{
    if waited < timeout && interval > 0 {
        lemma_poll_bound(timeout, interval, waited);
    }
    let reply = word_read_at(log, at, addr)->0;
    if !(reply matches Ok(v) && v % 2 == 1) {
        if elapsed(start, clock_at(log, at + 1)->0, waited) < timeout * NANOS_PER_MILLI {
            lemma_polled_events(
                addr,
                timeout,
                interval,
                log,
                at + 3,
                start,
                waited + interval as nat,
            );
        }
    }
}

/// What programming leaves in memory, from the first to the last word of an
/// image.
#[verifier::rlimit(40)]
proof fn lemma_flashed(
    handler: NordicHandler,
    firmware: FirmwareView,
    memory: Memory,
    log: Seq<Event>,
    at: int,
)
    requires
        handler.flashed(firmware, log, at) matches Some(run) && run.result is Ok,
    ensures
        at <= handler.flashed(firmware, log, at)->0.end,
        forall|j: int|
            0 <= j < 4 * word_count(firmware.data.len()) ==> #[trigger] memory_at(
                memory,
                log,
                at,
                handler.flashed(firmware, log, at)->0.end,
            )(firmware.start + j) == padded_byte(firmware.data, j),
{
    lemma_controller_events(handler, log, at);
    let ready = handler.controller_enabled(log, at)->0;
    lemma_written(firmware, memory, log, at, ready.end, 0);
    let written = words_written(firmware, log, ready.end, 0)->0;
    let end = handler.flashed(firmware, log, at)->0.end;
    assert forall|j: int| 0 <= j < 4 * word_count(firmware.data.len()) implies #[trigger] memory_at(
        memory,
        log,
        at,
        end,
    )(firmware.start + j) == padded_byte(firmware.data, j) by {
        let a = firmware.start + j;
        assert forall|k: int| written.end <= k < end implies !touches(#[trigger] log[k], a) by {}
        lemma_untouched(memory, log, at, written.end, end, a);
        assert(memory_at(memory, log, at, written.end)(a) == padded_byte(firmware.data, j));
    }
}

/// A device that keeps what is written to it holds the whole image when
/// programming has succeeded.
pub proof fn law_flash_programs_image(
    handler: NordicHandler,
    firmware: FirmwareView,
    memory: Memory,
    log: Seq<Event>,
    at: int,
)
    requires
        handler.flashed(firmware, log, at) matches Some(run) && run.result is Ok,
    ensures
        holds(
            memory_at(memory, log, at, handler.flashed(firmware, log, at)->0.end),
            firmware,
        ),
        at <= handler.flashed(firmware, log, at)->0.end,
{
    lemma_flashed(handler, firmware, memory, log, at);
    let held = memory_at(memory, log, at, handler.flashed(firmware, log, at)->0.end);
    assert forall|j: int| 0 <= j < firmware.data.len() implies #[trigger] held(firmware.start + j)
        == firmware.data[j] by {
        assert(held(firmware.start + j) == padded_byte(firmware.data, j));
    }
}

/// Programming pads the last word of an image with the erased value.
pub proof fn law_flash_pads_with_erased(
    handler: NordicHandler,
    firmware: FirmwareView,
    memory: Memory,
    log: Seq<Event>,
    at: int,
    j: int,
)
    requires
        handler.flashed(firmware, log, at) matches Some(run) && run.result is Ok,
        firmware.data.len() <= j < 4 * word_count(firmware.data.len()),
    ensures
        memory_at(memory, log, at, handler.flashed(firmware, log, at)->0.end)(firmware.start + j)
            == ERASED,
{
    lemma_flashed(handler, firmware, memory, log, at);
    let held = memory_at(memory, log, at, handler.flashed(firmware, log, at)->0.end);
    assert(held(firmware.start + j) == padded_byte(firmware.data, j));
}

/// Programming an image that is not empty ends with a read of its last words,
/// which makes the controller commit what it buffers.
pub proof fn law_flash_ends_with_read(
    handler: NordicHandler,
    firmware: FirmwareView,
    log: Seq<Event>,
    at: int,
)
    requires
        handler.flashed(firmware, log, at) matches Some(run) && run.result is Ok,
        firmware.data.len() > 0,
    ensures
        ({
            let end = handler.flashed(firmware, log, at)->0.end;
            let total = word_count(firmware.data.len());
            let len = transfer_len(0, total);
            words_read_at(log, end - 1, firmware.start + 4 * (total - len), len) is Some
        }),
{
}

/// On a device that keeps what is written to it, verification succeeds exactly
/// if memory holds the image.
pub proof fn law_verify_compares_memory(
    handler: NordicHandler,
    firmware: FirmwareView,
    memory: Memory,
    log: Seq<Event>,
    from: int,
    at: int,
)
    requires
        from <= at,
        handler.verified(firmware, log, at) matches Some(run) && run.result is Ok && faithful(
            memory,
            log,
            from,
            run.end,
        ),
    ensures
        ({
            let outcome = handler.verified(firmware, log, at)->0.result->Ok_0;
            &&& outcome.success <==> holds(memory_at(memory, log, from, at), firmware)
            &&& outcome.success ==> outcome.mismatches == 0
        }),
{
    lemma_read_back(firmware, memory, log, from, at, Seq::empty());
    let words = words_read_back(firmware, log, at, Seq::empty())->0.result->Ok_0;
    let held = memory_at(memory, log, from, at);
    lemma_differing_none(firmware.data, words, firmware.data.len());
    assert forall|j: int| 0 <= j < firmware.data.len() implies #[trigger] word_byte(
        words[j / 4],
        j % 4,
    ) == held(firmware.start + j) by {
        assert(0 <= j < 4 * words.len());
    }
    if holds(held, firmware) {
        assert forall|j: int| 0 <= j < firmware.data.len() implies #[trigger] word_byte(
            words[j / 4],
            j % 4,
        ) == firmware.data[j] by {
            assert(held(firmware.start + j) == firmware.data[j]);
        }
    }
    if differing(firmware.data, words, firmware.data.len()) == 0 {
        assert forall|j: int| 0 <= j < firmware.data.len() implies #[trigger] held(
            firmware.start + j,
        ) == firmware.data[j] by {
            assert(word_byte(words[j / 4], j % 4) == firmware.data[j]);
        }
    }
}

/// Verification of an image that was programmed before succeeds, on a device
/// that keeps what is written to it, if nothing wrote to the image in between.
#[verifier::rlimit(40)]
pub proof fn law_flash_then_verify(
    handler: NordicHandler,
    firmware: FirmwareView,
    memory: Memory,
    log: Seq<Event>,
    at: int,
    again: int,
)
    requires
        handler.flashed(firmware, log, at) matches Some(run) && run.result is Ok && run.end
            <= again && untouched(
            log,
            run.end,
            again,
            firmware.start as int,
            (firmware.start + firmware.data.len()) as int,
        ),
        handler.verified(firmware, log, again) matches Some(run) && run.result is Ok && faithful(
            memory,
            log,
            at,
            run.end,
        ),
    ensures
        handler.verified(firmware, log, again)->0.result == Ok::<VerifyOutcome, Error>(
            VerifyOutcome { success: true, mismatches: 0 },
        ),
{
    law_flash_programs_image(handler, firmware, memory, log, at);
    let end = handler.flashed(firmware, log, at)->0.end;
    assert forall|j: int| 0 <= j < firmware.data.len() implies #[trigger] memory_at(
        memory,
        log,
        at,
        again,
    )(firmware.start + j) == firmware.data[j] by {
        let a = firmware.start + j;
        assert forall|k: int| end <= k < again implies !touches(#[trigger] log[k], a) by {}
        lemma_untouched(memory, log, at, end, again, a);
        assert(memory_at(memory, log, at, end)(a) == firmware.data[j]);
    }
    law_verify_compares_memory(handler, firmware, memory, log, at, again);
}

/// Whether the event triggers a mass erase.
pub open spec fn triggers_erase(event: Event) -> bool {
    event matches Event::WriteAp { reg, value, .. } && reg == CTRL_AP_ERASEALL && value == 1
}

/// Whether none of the events `from` up to `to` triggers a mass erase.
pub open spec fn erases_nothing(log: Seq<Event>, from: int, to: int) -> bool {
    forall|k: int| from <= k < to ==> !triggers_erase(#[trigger] log[k])
}

/// Whether the events `from` up to `to` trigger a mass erase at `first` and
/// `second` at most.
pub open spec fn erases_only_at(
    log: Seq<Event>,
    from: int,
    to: int,
    first: int,
    second: int,
) -> bool {
    forall|k: int|
        from <= k < to && triggers_erase(#[trigger] log[k]) ==> k == first || k == second
}

/// How many operations a poll takes at most, after `waited` milliseconds of
/// waits.
pub open spec fn poll_bound(timeout: u64, interval: u64, waited: nat) -> int {
    if waited >= timeout {
        2
    } else {
        3 * ((timeout - waited) / interval as int + 1) + 2
    }
}

proof fn lemma_poll_bound(timeout: u64, interval: u64, waited: nat)
    requires
        waited < timeout,
        interval > 0,
    ensures
        poll_bound(timeout, interval, waited + interval as nat) + 3 <= poll_bound(
            timeout,
            interval,
            waited,
        ),
{
    let left = timeout - waited;
    assert(left / interval as int >= 0) by (nonlinear_arith)
        requires
            left > 0,
            interval > 0,
    ;
    assert((left - interval) / interval as int == left / interval as int - 1) by (nonlinear_arith)
        requires
            interval > 0,
    ;
}

/// A poll of ERASEALLSTATUS triggers nothing, does not go on forever, and says
/// that the erase is done only when the device was seen ready to be reset.
proof fn lemma_phase(phase: ErasePhase, log: Seq<Event>, at: int, start: u64, waited: nat)
    requires
        phase.polled(log, at, start, waited) is Some,
        phase.timeout > 0 ==> phase.interval > 0,
    ensures
        ({
            let run = phase.polled(log, at, start, waited)->0;
            &&& at <= run.end <= at + poll_bound(phase.timeout, phase.interval, waited)
            &&& run.result is Ok
            &&& erases_nothing(log, at, run.end)
            &&& run.result->Ok_0 == Some(EraseWait::Done) ==> at < run.end && ap_read_at(
                log,
                run.end - 1,
                phase.ap,
                CTRL_AP_ERASEALLSTATUS,
            ) == Some(Ok::<u32, DapError>(phase.status.ready_to_reset))
        }),
    decreases log.len() - at,
{
    let reply = ap_read_at(log, at, phase.ap, CTRL_AP_ERASEALLSTATUS)->0;
    if erase_state(phase.status, phase.busy_is_wait, reply.ok()) is None {
        let lasted = elapsed(start, clock_at(log, at + 1)->0, waited);
        if lasted < phase.timeout * NANOS_PER_MILLI {
            assert(waited < phase.timeout);
            lemma_phase(phase, log, at + 3, start, waited + phase.interval as nat);
            lemma_poll_bound(phase.timeout, phase.interval, waited);
        }
    } else if waited < phase.timeout {
        lemma_poll_bound(phase.timeout, phase.interval, waited);
    }
}

/// The number of operations that a wait for ERASEALLSTATUS takes at most.
pub open spec fn wait_bound(times: Timing) -> int {
    1 + poll_bound(times.erase_timeout, times.erase_interval, 0)
}

proof fn lemma_waited(
    h: NordicHandler,
    ctrl: CtrlAp,
    status: EraseAllStatus,
    busy_is_wait: bool,
    log: Seq<Event>,
    at: int,
)
    requires
        paced(h.times()),
        h.phase(ctrl, status, busy_is_wait).waited(log, at) is Some,
    ensures
        ({
            let run = h.phase(ctrl, status, busy_is_wait).waited(log, at)->0;
            &&& at < run.end <= at + wait_bound(h.times())
            &&& run.result is Ok
            &&& erases_nothing(log, at, run.end)
            &&& run.result->Ok_0 == Some(EraseWait::Done) ==> ap_read_at(
                log,
                run.end - 1,
                ctrl.num,
                CTRL_AP_ERASEALLSTATUS,
            ) == Some(Ok::<u32, DapError>(status.ready_to_reset))
        }),
{
    let phase = h.phase(ctrl, status, busy_is_wait);
    lemma_phase(phase, log, at + 1, clock_at(log, at)->0, 0);
}

/// One attempt at a mass erase triggers it once at most, and claims success only
/// when the device was seen ready to be reset.
#[verifier::rlimit(40)]
proof fn lemma_erased(h: NordicHandler, log: Seq<Event>, at: int)
    requires
        paced(h.times()),
        h.erased(log, at) is Some,
    ensures
        ({
            let run = h.erased(log, at)->0;
            &&& at <= run.end <= at + 3 + 2 * wait_bound(h.times())
            &&& forall|k: int|
                at <= k < run.end && triggers_erase(#[trigger] log[k]) ==> k == at + 2
            &&& run.result == Ok::<bool, Error>(true) ==> {
                &&& h.config().ctrl_ap is Some
                &&& h.config().erase_all_status is Some
                &&& at + 2 < run.end - 1
                &&& ap_write_at(log, at + 2, h.config().ctrl_ap->0.num, CTRL_AP_ERASEALL, 1)
                    == Some(Ok::<(), DapError>(()))
                &&& ap_read_at(
                    log,
                    run.end - 1,
                    h.config().ctrl_ap->0.num,
                    CTRL_AP_ERASEALLSTATUS,
                ) == Some(Ok::<u32, DapError>(h.config().erase_all_status->0.ready_to_reset))
            }
        }),
{
    if h.config().ctrl_ap is Some && h.config().erase_all_status is Some {
        let ctrl = h.config().ctrl_ap->0;
        let status = h.config().erase_all_status->0;
        assert(wait_bound(h.times()) >= 0) by {
            if h.times().erase_timeout > 0 {
                lemma_poll_bound(h.times().erase_timeout, h.times().erase_interval, 0);
            }
        }
        if h.erase_awaited(ctrl, status, log, at + 3) is Some {
            lemma_waited(h, ctrl, status, false, log, at + 3);
            let first = h.phase(ctrl, status, false).waited(log, at + 3)->0;
            if first.result->Ok_0 == Some(EraseWait::Busy) {
                lemma_waited(h, ctrl, status, true, log, first.end);
            }
        }
    }
}

/// Whether the events end a mass erase at event `seen`: the device was seen
/// ready to be reset, and the RESET register pulsed.
pub open spec fn erase_completed(h: NordicHandler, log: Seq<Event>, seen: int) -> bool {
    match (h.config().ctrl_ap, h.config().erase_all_status) {
        (Some(ctrl), Some(status)) => {
            &&& ap_read_at(log, seen, ctrl.num, CTRL_AP_ERASEALLSTATUS) == Some(
                Ok::<u32, DapError>(status.ready_to_reset),
            )
            &&& ap_write_at(log, seen + 2, ctrl.num, CTRL_AP_RESET, 2) == Some(
                Ok::<(), DapError>(()),
            )
            &&& ap_write_at(log, seen + 4, ctrl.num, CTRL_AP_RESET, 0) == Some(
                Ok::<(), DapError>(()),
            )
        },
        _ => false,
    }
}

/// Whether the last event of a recovery leaves it open that the device is
/// unlocked: it is a look at ERASEPROTECTSTATUS that did not show 0.
pub open spec fn not_locked(h: NordicHandler, log: Seq<Event>, end: int) -> bool {
    match h.config().ctrl_ap {
        Some(ctrl) => ap_read_at(log, end - 1, ctrl.num, CTRL_AP_ERASEPROTECTSTATUS) matches Some(
            reply,
        ) && reply != Ok::<u32, DapError>(0),
        None => false,
    }
}

/// How many operations a recovery takes at most.
pub open spec fn recovery_bound(times: Timing) -> int {
    23 + 4 * wait_bound(times)
}

#[verifier::rlimit(40)]
proof fn lemma_mass_erased(h: NordicHandler, log: Seq<Event>, at: int) -> (second: int)
    requires
        paced(h.times()),
        h.mass_erased(log, at) is Some,
    ensures
        ({
            let run = h.mass_erased(log, at)->0;
            &&& at <= run.end <= at + 8 + 4 * wait_bound(h.times())
            &&& erases_only_at(log, at, run.end, at + 2, second)
            &&& run.result is Ok ==> {
                &&& h.config().ctrl_ap is Some
                &&& h.config().erase_all_status is Some
                &&& at + 2 < run.end - 1
                &&& ap_read_at(
                    log,
                    run.end - 1,
                    h.config().ctrl_ap->0.num,
                    CTRL_AP_ERASEALLSTATUS,
                ) == Some(Ok::<u32, DapError>(h.config().erase_all_status->0.ready_to_reset))
            }
        }),
{
    assert(wait_bound(h.times()) >= 0) by {
        if h.times().erase_timeout > 0 {
            lemma_poll_bound(h.times().erase_timeout, h.times().erase_interval, 0);
        }
    }
    lemma_erased(h, log, at);
    let first = h.erased(log, at)->0;
    if first.result == Ok::<bool, Error>(false) && h.erased(log, first.end + 2) is Some {
        lemma_erased(h, log, first.end + 2);
    }
    first.end + 4
}

#[verifier::rlimit(40)]
proof fn lemma_settled(h: NordicHandler, ctrl: CtrlAp, log: Seq<Event>, at: int)
    requires
        h.settled(ctrl, log, at) is Some,
    ensures
        ({
            let run = h.settled(ctrl, log, at)->0;
            &&& at <= run.end <= at + 8
            &&& erases_nothing(log, at, run.end)
            &&& run.result is Ok ==> {
                &&& run.end == at + 8
                &&& ap_write_at(log, at + 1, ctrl.num, CTRL_AP_RESET, 2) == Some(
                    Ok::<(), DapError>(()),
                )
                &&& ap_write_at(log, at + 3, ctrl.num, CTRL_AP_RESET, 0) == Some(
                    Ok::<(), DapError>(()),
                )
            }
        }),
{
    let run = h.settled(ctrl, log, at)->0;
    assert(h.released(ctrl, log, at + 3) is Some || run.end <= at + 3);
    assert forall|k: int| at <= k < run.end implies !triggers_erase(#[trigger] log[k]) by {
        let d = k - at;
        assert(d == 0 || d == 1 || d == 2 || d == 3 || d == 4 || d == 5 || d == 6 || d == 7);
    }
}

#[verifier::rlimit(40)]
proof fn lemma_unlock(h: NordicHandler, ctrl: CtrlAp, log: Seq<Event>, at: int)
    requires
        h.unlock_confirmed(ctrl, log, at) is Some,
        h.config().ctrl_ap == Some(ctrl),
    ensures
        ({
            let run = h.unlock_confirmed(ctrl, log, at)->0;
            &&& at <= run.end <= at + 6
            &&& erases_nothing(log, at, run.end)
            &&& run.result is Ok ==> at < run.end && not_locked(h, log, run.end)
        }),
{
}

#[verifier::rlimit(40)]
proof fn lemma_recovered(h: NordicHandler, log: Seq<Event>, at: int) -> (triggers: (int, int))
    requires
        paced(h.times()),
        h.recovered(log, at) is Some,
    ensures
        ({
            let run = h.recovered(log, at)->0;
            &&& at <= run.end <= at + recovery_bound(h.times())
            &&& erases_only_at(log, at, run.end, triggers.0, triggers.1)
            &&& run.result is Ok ==> {
                &&& exists|seen: int| at < seen < run.end && erase_completed(h, log, seen)
                &&& not_locked(h, log, run.end)
            }
        }),
{
    assert(wait_bound(h.times()) >= 0) by {
        if h.times().erase_timeout > 0 {
            lemma_poll_bound(h.times().erase_timeout, h.times().erase_interval, 0);
        }
    }
    if let Some(ctrl) = h.config().ctrl_ap {
        let run = h.recovered(log, at)->0;
        let second = lemma_mass_erased(h, log, at + 1);
        let erased = h.mass_erased(log, at + 1)->0;
        if erased.result is Ok {
            lemma_settled(h, ctrl, log, erased.end);
            let settled = h.settled(ctrl, log, erased.end)->0;
            if settled.result is Ok {
                assert(erase_completed(h, log, erased.end - 1));
                lemma_unlock(h, ctrl, log, settled.end);
            }
        }
        (at + 3, second)
    } else {
        (at, at)
    }
}

/// A recovery that succeeded has seen the device ready to be reset, has pulsed
/// its reset, and has not left off with the device reporting itself locked.
pub proof fn law_recover_unlocks(handler: NordicHandler, log: Seq<Event>, at: int)
    requires
        handler.times() == Timing::device() || handler.times() == Timing::zero(),
        handler.recovered(log, at) matches Some(run) && run.result is Ok,
    ensures
        ({
            let end = handler.recovered(log, at)->0.end;
            &&& exists|seen: int| at < seen < end && erase_completed(handler, log, seen)
            &&& not_locked(handler, log, end)
        }),
{
    lemma_recovered(handler, log, at);
}

/// A recovery triggers a mass erase twice at most, whatever the device answers.
pub proof fn law_recover_erases_at_most_twice(handler: NordicHandler, log: Seq<Event>, at: int)
    requires
        handler.times() == Timing::device() || handler.times() == Timing::zero(),
        handler.recovered(log, at) is Some,
    ensures
        exists|first: int, second: int| #[trigger]
            erases_only_at(log, at, handler.recovered(log, at)->0.end, first, second),
{
    let (first, second) = lemma_recovered(handler, log, at);
    assert(erases_only_at(log, at, handler.recovered(log, at)->0.end, first, second));
}

/// A recovery comes to an end within a bounded number of operations, whatever
/// the device answers.
pub proof fn law_recover_is_bounded(handler: NordicHandler, log: Seq<Event>, at: int)
    requires
        handler.times() == Timing::device() || handler.times() == Timing::zero(),
        handler.recovered(log, at) is Some,
    ensures
        at <= handler.recovered(log, at)->0.end <= at + 3647,
{
    lemma_recovered(handler, log, at);
}

/// A reset that succeeded is a pulse of the RESET register and nothing else.
pub proof fn law_reset_pulses(handler: NordicHandler, log: Seq<Event>, at: int)
    requires
        handler.restarted(log, at) matches Some(run) && run.result is Ok,
    ensures
        handler.config().ctrl_ap matches Some(ctrl) && {
            &&& handler.restarted(log, at)->0.end == at + 4
            &&& ap_write_at(log, at, ctrl.num, CTRL_AP_RESET, 2) == Some(Ok::<(), DapError>(()))
            &&& slept_at(log, at + 1, handler.times().settle_short)
            &&& ap_write_at(log, at + 2, ctrl.num, CTRL_AP_RESET, 0) == Some(
                Ok::<(), DapError>(()),
            )
            &&& slept_at(log, at + 3, handler.times().post_reset)
        },
{
}

/// The number of transfers of an image.
pub open spec fn transfers(firmware: FirmwareView) -> nat {
    (firmware.data.len() + 4095) / 4096
}

proof fn lemma_written_events(firmware: FirmwareView, log: Seq<Event>, at: int, w: nat)
    requires
        words_written(firmware, log, at, w) is Some,
        w % 1024 == 0,
    ensures
        words_written(firmware, log, at, w)->0.end <= at + if w < word_count(firmware.data.len()) {
            transfers(firmware) - w / 1024
        } else {
            0
        },
    decreases word_count(firmware.data.len()) - w,
{
    let total = word_count(firmware.data.len());
    if w < total {
        let addr = (firmware.start + 4 * w) as int;
        if words_write_at(log, at, addr, words_from(firmware.data, w)) matches Some(Ok(_)) {
            let next = w + transfer_len(w, total);
            if next < total {
                lemma_written_events(firmware, log, at + 1, next);
            }
        }
    }
}

proof fn lemma_read_events(firmware: FirmwareView, log: Seq<Event>, at: int, seen: Seq<u32>)
    requires
        words_read_back(firmware, log, at, seen) is Some,
        seen.len() % 1024 == 0,
    ensures
        words_read_back(firmware, log, at, seen)->0.end <= at + if seen.len() < word_count(
            firmware.data.len(),
        ) {
            transfers(firmware) - seen.len() / 1024
        } else {
            0
        },
    decreases word_count(firmware.data.len()) - seen.len(),
{
    let total = word_count(firmware.data.len());
    let w = seen.len();
    if w < total {
        let addr = (firmware.start + 4 * w) as int;
        if let Some(Ok(words)) = words_read_at(log, at, addr, transfer_len(w, total)) {
            if w + words.len() < total {
                lemma_read_events(firmware, log, at + 1, seen + words);
            }
        }
    }
}

/// Programming comes to an end within a bounded number of operations, whatever
/// the device answers: one for each 4 KiB of the image, and some for the
/// controller and the end of the image.
pub proof fn law_flash_is_bounded(
    handler: NordicHandler,
    firmware: FirmwareView,
    log: Seq<Event>,
    at: int,
)
    requires
        handler.times() == Timing::device() || handler.times() == Timing::zero(),
        handler.flashed(firmware, log, at) is Some,
    ensures
        handler.flashed(firmware, log, at)->0.end <= at + 310 + transfers(firmware),
{
    lemma_controller_events(handler, log, at);
    let ready = handler.controller_enabled(log, at)->0;
    if ready.result is Ok {
        lemma_written_events(firmware, log, ready.end, 0);
    }
}

/// Verification comes to an end within one operation for each 4 KiB of the
/// image, whatever the device answers.
pub proof fn law_verify_is_bounded(
    handler: NordicHandler,
    firmware: FirmwareView,
    log: Seq<Event>,
    at: int,
)
    requires
        handler.verified(firmware, log, at) is Some,
    ensures
        handler.verified(firmware, log, at)->0.end <= at + transfers(firmware),
{
    lemma_read_events(firmware, log, at, Seq::empty());
}

/// Nothing is written to flash through a controller that could not be enabled or
/// did not become ready: programming ends there, with that error.
pub proof fn law_flash_needs_controller(
    handler: NordicHandler,
    firmware: FirmwareView,
    log: Seq<Event>,
    at: int,
)
    requires
        handler.controller_enabled(log, at) matches Some(run) && run.result is Err,
    ensures
        handler.flashed(firmware, log, at) matches Some(run) && {
            let enabling = handler.controller_enabled(log, at)->0;
            &&& run.end == enabling.end
            &&& run.result is Err
            &&& run.result->Err_0 == enabling.result->Err_0
        },
{
}

/// The bytes that differ are told one by one up to the fifth: a comparison that
/// finds fewer tells all of them.
pub proof fn law_mismatches_are_told(firmware: FirmwareView, words: Seq<u32>, n: nat)
    ensures
        mismatches_told(firmware, words, 0, n).len() == (if differing(firmware.data, words, n)
            < TOLD_MISMATCHES {
            differing(firmware.data, words, n)
        } else {
            TOLD_MISMATCHES as nat
        }),
    decreases n,
{
    if n > 0 {
        law_mismatches_are_told(firmware, words, (n - 1) as nat);
    }
}

/// A look at the lock that succeeds although its last reading failed ends with a
/// warning.
proof fn lemma_lock_unread(h: NordicHandler, ctrl: CtrlAp, log: Seq<Event>, at: int)
    requires
        h.unlock_confirmed(ctrl, log, at) matches Some(run) && run.result is Ok,
        ap_read_at(
            log,
            h.unlock_confirmed(ctrl, log, at)->0.end - 1,
            ctrl.num,
            CTRL_AP_ERASEPROTECTSTATUS,
        ) matches Some(reply) && reply is Err,
    ensures
        ({
            let reports = h.unlock_confirmed(ctrl, log, at)->0.reports;
            reports.len() > 0 && reports.last() == Report::Warning(Warning::LockUnread)
        }),
{
    let run = h.unlock_confirmed(ctrl, log, at)->0;
    let reply = ap_read_at(log, at + 1, ctrl.num, CTRL_AP_ERASEPROTECTSTATUS)->0;
    if reply is Ok {
        assert(reply->Ok_0 == 0);
        assert(h.unlock_retried(ctrl, log, at + 2) is Some);
        assert(h.lock_seen(ctrl, log, at + 4) is Some);
    }
    let warning = seq![Report::Warning(Warning::LockUnread)];
    assert(run.reports =~= warning);
}

/// A recovery that succeeds without a reading of the lock status says so: its last
/// report but one is the warning that the unlock is not confirmed.
#[verifier::rlimit(40)]
pub proof fn law_recover_warns_of_unread_lock(handler: NordicHandler, log: Seq<Event>, at: int)
    requires
        handler.recovered(log, at) matches Some(run) && run.result is Ok,
        handler.config().ctrl_ap matches Some(ctrl) && ap_read_at(
            log,
            handler.recovered(log, at)->0.end - 1,
            ctrl.num,
            CTRL_AP_ERASEPROTECTSTATUS,
        ) matches Some(reply) && reply is Err,
    ensures
        ({
            let reports = handler.recovered(log, at)->0.reports;
            &&& reports.len() >= 2
            &&& reports[reports.len() - 2] == Report::Warning(Warning::LockUnread)
        }),
{
    let ctrl = handler.config().ctrl_ap->0;
    let run = handler.recovered(log, at)->0;
    let erased = handler.mass_erased(log, at + 1)->0;
    let settled = handler.settled(ctrl, log, erased.end)->0;
    let confirmed = handler.unlock_confirmed(ctrl, log, settled.end)->0;
    assert(handler.unlocked(ctrl, log, at + 1) is Some);
    assert(confirmed.end == run.end);
    lemma_lock_unread(handler, ctrl, log, settled.end);
    let last = seq![Report::Progress(Progress::recovered(100))];
    let tail = confirmed.reports + last;
    let rest = handler.unlocked(ctrl, log, at + 1)->0.reports;
    assert(rest =~= erased.reports + (settled.reports + tail));
    assert(rest[rest.len() - 2] == confirmed.reports.last());
    assert(run.reports[run.reports.len() - 2] == rest[rest.len() - 2]);
}

} // verus!
