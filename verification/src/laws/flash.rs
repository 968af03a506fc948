//! What programming does to a device, told by the words that it writes, and why it
//! fails.

use vstd::prelude::*;

use crate::dap::io::{DapError, Event, clock_at, word_read_at, word_write_at, words_write_at};
use crate::dap::run::Run;
use crate::error::{Controller, Error};
use crate::hex::FirmwareView;
use crate::laws::recover::{lemma_slept_between, passed, slept_between};
use crate::platform::{Phase, PlatformHandler, Progress, Report, Warning};
use crate::platform::nordic::{NANOS_PER_MILLI, NordicHandler, Timing, elapsed};
use crate::platform::nordic::flash::{
    NVMC_CONFIG_OFFSET, NVMC_CONFIG_WEN, NVMC_READY_OFFSET, ready_polled, tail_read, transfer_len,
    word_count, word_of, words_from, words_written,
};
use crate::targets::definition::{FlashController, TargetConfig};

verus! {

/// Byte `j` of an image, or what an erased byte holds behind its end.
pub open spec fn image_byte(data: Seq<u8>, j: int) -> u8 {
    if j < data.len() {
        data[j]
    } else {
        0xFF
    }
}

/// Whether a word is made of the four bytes of an image from byte `j` on, the
/// lowest first.
pub open spec fn word_made_of(word: u32, data: Seq<u8>, j: int) -> bool {
    word == image_byte(data, j) + 0x100 * image_byte(data, j + 1) + 0x1_0000 * image_byte(
        data,
        j + 2,
    ) + 0x100_0000 * image_byte(data, j + 3)
}

/// The number of words in part `m` of an image that is transferred in parts of
/// 1024 words.
pub open spec fn part_len(firmware: FirmwareView, m: int) -> int {
    let left = (firmware.data.len() as int + 3) / 4 - 1024 * m;
    if left < 1024 {
        left
    } else {
        1024
    }
}

/// The number of parts of an image.
pub open spec fn parts(firmware: FirmwareView) -> int {
    (firmware.data.len() as int + 4095) / 4096
}

/// Whether the event writes part `m` of an image to where it belongs.
pub open spec fn part_written(event: Event, firmware: FirmwareView, m: int) -> bool {
    event matches Event::WriteWords { addr, words, .. } && addr == firmware.start + 4096 * m
        && words.len() == part_len(firmware, m) && forall|k: int|
        0 <= k < words.len() ==> word_made_of(
            #[trigger] words[k],
            firmware.data,
            4096 * m + 4 * k,
        )
}

/// Whether the event reads a word at `addr`.
pub open spec fn word_looked_at(event: Event, addr: int) -> bool {
    event matches Event::ReadWord { addr: a, .. } && a == addr
}

/// Whether the event shows an odd word at `addr`: a controller that is ready.
pub open spec fn ready_shown(event: Event, addr: int) -> bool {
    event matches Event::ReadWord { addr: a, result: Ok(v) } && a == addr && v % 2 == 1
}

/// Whether the event writes a word, and the write succeeds.
pub open spec fn word_put(event: Event, addr: int, value: u32) -> bool {
    event matches Event::WriteWord { addr: a, value: v, result: Ok(_) } && a == addr && v == value
}

/// Whether the event belongs to a wait for the controller at `addr`.
pub open spec fn waits_for(event: Event, addr: int, interval: u64) -> bool {
    ||| word_looked_at(event, addr)
    ||| event is Clock
    ||| event == (Event::Sleep { millis: interval })
}

/// Whether the events `at` up to `end` enable the NVMC at `base` and end with it
/// ready.
pub open spec fn nvmc_ready(log: Seq<Event>, base: u64, at: int, end: int) -> bool {
    &&& at + 3 <= end
    &&& word_put(log[at], base + 0x504, 1)
    &&& log[at + 1] is Clock
    &&& forall|k: int| at < k < end ==> waits_for(#[trigger] log[k], base + 0x400, 10)
    &&& ready_shown(log[end - 1], base + 0x400)
}

/// Whether the events `at` up to `end` enable the RRAMC with registers at `config`
/// and `ready`, and end with it ready.
pub open spec fn rramc_ready(
    log: Seq<Event>,
    config: int,
    value: u32,
    ready: int,
    at: int,
    end: int,
) -> bool {
    &&& at + 5 <= end
    &&& word_looked_at(log[at], config)
    &&& word_put(log[at + 1], config, value)
    &&& word_looked_at(log[at + 2], config)
    &&& log[at + 3] is Clock
    &&& forall|k: int| at + 2 < k < end ==> waits_for(#[trigger] log[k], ready, 10)
    &&& ready_shown(log[end - 1], ready)
}

proof fn lemma_ready(
    addr: u64,
    timeout: u64,
    interval: u64,
    log: Seq<Event>,
    first: int,
    at: int,
    start: u64,
    waited: nat,
)
    requires
        0 <= first < at,
        clock_at(log, first) == Some(start),
        waited == slept_between(log, first, at),
        ready_polled(addr, timeout, interval, log, at, start, waited) is Some,
    ensures
        ({
            let run = ready_polled(addr, timeout, interval, log, at, start, waited)->0;
            &&& at < run.end <= log.len()
            &&& run.reports.len() == 0
            &&& run.result is Ok
            &&& run.result == Ok::<bool, Error>(true) ==> ready_shown(
                log[run.end - 1],
                addr as int,
            )
            &&& run.result == Ok::<bool, Error>(false) ==> passed(
                log,
                first,
                run.end - 1,
                timeout as nat,
            )
            &&& run.result == Ok::<bool, Error>(false) ==> forall|k: int|
                at <= k < run.end ==> !ready_shown(#[trigger] log[k], addr as int)
            &&& forall|k: int|
                at <= k < run.end ==> waits_for(#[trigger] log[k], addr as int, interval)
        }),
    decreases log.len() - at,
{
    let reply = word_read_at(log, at, addr)->0;
    assert(word_looked_at(log[at], addr as int));
    if !(reply matches Ok(v) && v % 2 == 1) {
        let now = clock_at(log, at + 1)->0;
        if elapsed(start, now, waited) < timeout * NANOS_PER_MILLI {
            lemma_slept_between(log, first, at, interval);
            let more = waited + interval as nat;
            lemma_ready(addr, timeout, interval, log, first, at + 3, start, more);
        } else {
            reveal_with_fuel(slept_between, 2);
            assert(slept_between(log, first, at + 1) == waited);
        }
    }
}

/// Whether the events `at` up to `end` enable the flash controller of a target.
pub open spec fn enabled(config: TargetConfig, log: Seq<Event>, at: int, end: int) -> bool {
    config.flash_controller matches Some(fc) && if fc.kind@ == "nvmc"@ {
        nvmc_ready(log, fc.base, at, end)
    } else {
        &&& fc.kind@ == "rramc"@
        &&& fc.registers matches Some(regs) && rramc_ready(
            log,
            fc.base + regs.config.offset,
            regs.config.enable_value,
            fc.base + regs.ready.offset,
            at,
            end,
        )
    }
}

/// Whether the event is a write of a word that failed.
pub open spec fn word_put_failed(event: Event, source: DapError) -> bool {
    event matches Event::WriteWord { result, .. } && result == Err::<(), DapError>(source)
}

/// What enabling a target's controller gives to report: an RRAMC is looked at once
/// more, and warned of where it does not show an odd CONFIG.
pub open spec fn enabling_told(config: TargetConfig, log: Seq<Event>, at: int) -> Seq<Report> {
    match config.flash_controller {
        Some(fc) => if fc.kind@ == "rramc"@ {
            match log[at + 2] {
                Event::ReadWord { result: Ok(v), .. } => if v % 2 == 1 {
                    seq![]
                } else {
                    seq![Report::Warning(Warning::WriteNotEnabled)]
                },
                Event::ReadWord { result: Err(source), .. } => seq![
                    Report::Warning(Warning::ConfigUnread { source }),
                ],
                _ => seq![],
            }
        } else {
            seq![]
        },
        None => seq![],
    }
}

/// What enabling a controller is, and why it fails.
#[verifier::rlimit(40)]
proof fn lemma_enabled(handler: NordicHandler, log: Seq<Event>, at: int)
    requires
        0 <= at,
        handler.times() == Timing::device(),
        handler.register_addresses_fit(),
        handler.controller_enabled(log, at) is Some,
    ensures
        ({
            let run = handler.controller_enabled(log, at)->0;
            let e = run.result->Err_0;
            &&& at <= run.end
            &&& run.result is Ok ==> enabled(handler.config(), log, at, run.end)
            &&& run.result is Ok ==> run.reports == enabling_told(handler.config(), log, at)
            &&& run.result is Err ==> enabling_failed(handler.config(), log, at, run.end, e)
            &&& forall|k: int| at <= k < run.end ==> !(#[trigger] log[k] is WriteWords)
        }),
{
    reveal_strlit("nvmc");
    reveal_strlit("rramc");
    assert("nvmc"@.len() == 4 && "rramc"@.len() == 5);
    reveal_with_fuel(slept_between, 2);
    if let Some(fc) = handler.config().flash_controller {
        match FlashController::controller_of(fc.kind@) {
            None => {},
            Some(Controller::Nvmc) => {
                let addr = (fc.base + NVMC_READY_OFFSET) as u64;
                let config: u64 = (fc.base + NVMC_CONFIG_OFFSET) as u64;
                let reply = word_write_at(log, at, config, NVMC_CONFIG_WEN)->0;
                assert(handler.nvmc_enabled(fc, log, at) is Some);
                if reply is Ok {
                    assert(handler.ready_awaited(Controller::Nvmc, addr, log, at + 1) is Some);
                    let start = clock_at(log, at + 1)->0;
                    assert(slept_between(log, at + 1, at + 2) == 0);
                    lemma_ready(addr, 1_000, 10, log, at + 1, at + 2, start, 0);
                    let run = handler.controller_enabled(log, at)->0;
                    if run.result is Ok {
                        assert(nvmc_ready(log, fc.base, at, run.end));
                        assert(run.reports =~= seq![]);
                    } else {
                        assert(passed(log, at + 1, run.end - 1, 1_000));
                        assert(never_ready(log, fc.base + 0x400, at, run.end));
                    }
                }
            },
            Some(Controller::Rramc) => {
                if let Some(regs) = fc.registers {
                    let addr = (fc.base + regs.ready.offset) as u64;
                    let config = (fc.base + regs.config.offset) as u64;
                    let reply = word_write_at(log, at + 1, config, regs.config.enable_value)->0;
                    if reply is Ok {
                        assert(handler.ready_awaited(Controller::Rramc, addr, log, at + 3)
                            is Some);
                        let start = clock_at(log, at + 3)->0;
                        assert(slept_between(log, at + 3, at + 4) == 0);
                        lemma_ready(addr, 1_000, 10, log, at + 3, at + 4, start, 0);
                        let run = handler.controller_enabled(log, at)->0;
                        if run.result is Ok {
                            assert(rramc_ready(
                                log,
                                config as int,
                                regs.config.enable_value,
                                addr as int,
                                at,
                                run.end,
                            ));
                            assert(run.reports =~= enabling_told(handler.config(), log, at));
                        } else {
                            assert(passed(log, at + 3, run.end - 1, 1_000));
                            assert(never_ready(log, addr as int, at, run.end));
                        }
                    }
                }
            },
        }
    }
}

/// Whether `e` is what enabling a target's controller fails with, for what the
/// events `at` up to `end` show.
pub open spec fn enabling_failed(
    config: TargetConfig,
    log: Seq<Event>,
    at: int,
    end: int,
    e: Error,
) -> bool {
    match config.flash_controller {
        None => e == (Error::MissingFlashController { target: config.id }) && end == at,
        Some(fc) => if fc.kind@ == "rramc"@ && fc.registers is None {
            e == Error::MissingRegisters && end == at
        } else if fc.kind@ == "rramc"@ || fc.kind@ == "nvmc"@ {
            let controller = if fc.kind@ == "rramc"@ {
                Controller::Rramc
            } else {
                Controller::Nvmc
            };
            let ready = if fc.kind@ == "rramc"@ {
                fc.base + fc.registers->0.ready.offset
            } else {
                fc.base + 0x400
            };
            match e {
                Error::ConfigWrite { controller: c, source } => c == controller && at < end
                    && word_put_failed(log[end - 1], source),
                Error::NotReady { controller: c } => c == controller && never_ready(
                    log,
                    ready,
                    at,
                    end,
                ),
                _ => false,
            }
        } else {
            e == (Error::UnsupportedFlashController { target: config.id }) && end == at
        },
    }
}

/// Whether a second passed before `end` in which no look at `addr` showed a
/// controller that is ready.
pub open spec fn never_ready(log: Seq<Event>, addr: int, at: int, end: int) -> bool {
    exists|first: int|
        at <= first && #[trigger] passed(log, first, end - 1, 1_000) && forall|k: int|
            first < k < end ==> !ready_shown(#[trigger] log[k], addr)
}

/// Whether the event is a write of a block of words that failed.
pub open spec fn block_failed(event: Event, addr: u64, source: DapError) -> bool {
    event matches Event::WriteWords { addr: a, result, .. } && a == addr && result == Err::<
        (),
        DapError,
    >(source)
}

/// Whether the event is a write of a block of words that succeeded.
pub open spec fn block_done(event: Event) -> bool {
    event matches Event::WriteWords { result, .. } && result is Ok
}

/// The report of how many words of an image were transferred after part `m`.
pub open spec fn part_told(phase: Phase, firmware: FirmwareView, m: int) -> Report {
    let total = (firmware.data.len() as int + 3) / 4;
    Report::Progress(
        Progress {
            phase,
            from: 0,
            to: 100,
            done: (1024 * m + part_len(firmware, m)) as u64,
            total: total as u64,
        },
    )
}

proof fn lemma_part(firmware: FirmwareView, log: Seq<Event>, at: int, m: int)
    requires
        0 <= m,
        1024 * m < word_count(firmware.data.len()),
        words_write_at(
            log,
            at,
            (firmware.start + 4 * (1024 * m)) as int,
            words_from(firmware.data, (1024 * m) as nat),
        ) is Some,
    ensures
        part_written(log[at], firmware, m),
{
    let w = (1024 * m) as nat;
    let words = words_from(firmware.data, w);
    assert forall|k: int| 0 <= k < words.len() implies word_made_of(
        #[trigger] words[k],
        firmware.data,
        4096 * m + 4 * k,
    ) by {
        assert(words[k] == word_of(firmware.data, w + k));
        assert(4 * (w + k) == 4096 * m + 4 * k);
    }
}

/// The parts of an image are written one after another, up to the first that fails.
proof fn lemma_parts_written(firmware: FirmwareView, log: Seq<Event>, from: int, at: int, w: nat)
    requires
        0 <= from <= at,
        1024 * (at - from) < word_count(firmware.data.len()) ==> w == 1024 * (at - from),
        1024 * (at - from) >= word_count(firmware.data.len()) ==> w == word_count(
            firmware.data.len(),
        ),
        at - from <= parts(firmware),
        words_written(firmware, log, at, w) is Some,
    ensures
        ({
            let run = words_written(firmware, log, at, w)->0;
            &&& at <= run.end <= from + parts(firmware)
            &&& forall|k: int|
                at <= k < run.end ==> part_written(#[trigger] log[k], firmware, k - from)
            &&& run.result is Ok ==> run.end == from + parts(firmware) && forall|k: int|
                at <= k < run.end ==> block_done(#[trigger] log[k])
            &&& run.result matches Err(e) ==> e is FlashWrite && at < run.end && block_failed(
                log[run.end - 1],
                e->FlashWrite_addr,
                e->FlashWrite_source,
            ) && forall|k: int| at <= k < run.end - 1 ==> block_done(#[trigger] log[k])
            &&& run.result is Ok ==> run.reports.len() == run.end - at
            &&& run.result is Err ==> run.reports.len() == run.end - at - 1
            &&& forall|i: int|
                0 <= i < run.reports.len() ==> #[trigger] run.reports[i] == part_told(
                    Phase::Flash,
                    firmware,
                    at - from + i,
                )
        }),
    decreases word_count(firmware.data.len()) - w,
{
    let total = word_count(firmware.data.len());
    if w < total {
        let m = at - from;
        let addr = (firmware.start + 4 * w) as int;
        lemma_part(firmware, log, at, m);
        if words_write_at(log, at, addr, words_from(firmware.data, w)) matches Some(Ok(_)) {
            let next = w + transfer_len(w, total);
            lemma_parts_written(firmware, log, from, at + 1, next);
            let run = words_written(firmware, log, at, w)->0;
            let rest = words_written(firmware, log, at + 1, next)->0;
            assert forall|i: int| 0 <= i < run.reports.len() implies #[trigger] run.reports[i]
                == part_told(Phase::Flash, firmware, at - from + i) by {
                if i > 0 {
                    assert(run.reports[i] == rest.reports[i - 1]);
                }
            }
        }
    }
}

/// Whether programming enables the controller up to event `ready`, writes part
/// after part of the image, and ends with a read of its last words.
pub open spec fn programmed(
    config: TargetConfig,
    firmware: FirmwareView,
    log: Seq<Event>,
    at: int,
    ready: int,
    run: Run<()>,
) -> bool {
    let behind = ready + parts(firmware);
    let total = (firmware.data.len() as int + 3) / 4;
    &&& enabled(config, log, at, ready)
    &&& forall|k: int|
        ready <= k < behind ==> part_written(#[trigger] log[k], firmware, k - ready)
            && block_done(log[k])
    &&& total == 0 ==> run.end == behind
    &&& total > 0 ==> run.end == behind + 1 && (log[behind] matches Event::ReadWords {
        addr,
        len,
        ..
    } && (if total <= 1024 {
        len == total && addr == firmware.start
    } else {
        len == 1024 && addr == firmware.start + 4 * total - 4096
    }))
}

/// Successful programming first enables the flash controller, sees it ready, and
/// then writes every part of the image once, in order, to where it belongs, with
/// the last word filled up by erased bytes. A read of the last words follows.
#[verifier::rlimit(40)]
pub proof fn law_flash_writes_parts(
    handler: NordicHandler,
    firmware: FirmwareView,
    log: Seq<Event>,
    at: int,
)
    requires
        0 <= at,
        handler.times() == Timing::device(),
        handler.registers_fit(),
        handler.flashed(firmware, log, at) matches Some(run) && run.result is Ok,
    ensures
        exists|ready: int|
            #[trigger] programmed(
                handler.config(),
                firmware,
                log,
                at,
                ready,
                handler.flashed(firmware, log, at)->0,
            ),
{
    lemma_enabled(handler, log, at);
    let ready = handler.controller_enabled(log, at)->0.end;
    assert(words_written(firmware, log, ready, 0) is Some);
    lemma_parts_written(firmware, log, ready, ready, 0);
    let run = handler.flashed(firmware, log, at)->0;
    let written = words_written(firmware, log, ready, 0)->0;
    assert(tail_read(firmware, log, written.end) is Some);
    assert(programmed(handler.config(), firmware, log, at, ready, run));
}

/// Programming fails only for a cause: the controller is missing, unknown or could
/// not be enabled, or a write of a part failed. Before it fails it writes nothing
/// but the controller's register and parts of the image.
#[verifier::rlimit(40)]
pub proof fn law_flash_fails_for_a_cause(
    handler: NordicHandler,
    firmware: FirmwareView,
    log: Seq<Event>,
    at: int,
)
    requires
        0 <= at,
        handler.times() == Timing::device(),
        handler.registers_fit(),
        handler.flashed(firmware, log, at) matches Some(run) && run.result is Err,
    ensures
        ({
            let run = handler.flashed(firmware, log, at)->0;
            let e = run.result->Err_0;
            ||| enabling_failed(handler.config(), log, at, run.end, e)
            ||| e matches Error::FlashWrite { addr, source } && at < run.end && block_failed(
                log[run.end - 1],
                addr,
                source,
            ) && exists|ready: int|
                #[trigger] enabled(handler.config(), log, at, ready) && at <= ready < run.end
                    && part_written(log[run.end - 1], firmware, run.end - 1 - ready)
        }),
{
    lemma_enabled(handler, log, at);
    let enabling = handler.controller_enabled(log, at)->0;
    if enabling.result is Ok {
        let ready = enabling.end;
        assert(words_written(firmware, log, ready, 0) is Some);
        lemma_parts_written(firmware, log, ready, ready, 0);
        let written = words_written(firmware, log, ready, 0)->0;
        if written.result is Ok {
            assert(tail_read(firmware, log, written.end) is Some);
        } else {
            assert(enabled(handler.config(), log, at, ready));
        }
    }
}

/// Successful programming tells what is to be told of the controller, and after
/// every part how many words are written; a failure of the last read is told too,
/// and is no failure of programming.
#[verifier::rlimit(40)]
pub proof fn law_flash_tells_parts(
    handler: NordicHandler,
    firmware: FirmwareView,
    log: Seq<Event>,
    at: int,
)
    requires
        0 <= at,
        firmware.data.len() <= u64::MAX,
        handler.times() == Timing::device(),
        handler.registers_fit(),
        handler.flashed(firmware, log, at) matches Some(run) && run.result is Ok,
    ensures
        ({
            let run = handler.flashed(firmware, log, at)->0;
            let told = Seq::new(
                parts(firmware) as nat,
                |m: int| part_told(Phase::Flash, firmware, m),
            );
            let ends = if firmware.data.len() == 0 {
                seq![]
            } else {
                match log[run.end - 1] {
                    Event::ReadWords { addr, result: Err(source), .. } => seq![
                        Report::Warning(Warning::FlushFailed { addr, source }),
                    ],
                    _ => seq![],
                }
            };
            run.reports == enabling_told(handler.config(), log, at) + told + ends
        }),
{
    lemma_enabled(handler, log, at);
    let enabling = handler.controller_enabled(log, at)->0;
    let ready = enabling.end;
    assert(words_written(firmware, log, ready, 0) is Some);
    lemma_parts_written(firmware, log, ready, ready, 0);
    let run = handler.flashed(firmware, log, at)->0;
    let written = words_written(firmware, log, ready, 0)->0;
    let tail = tail_read(firmware, log, written.end)->0;
    assert(tail_read(firmware, log, written.end) is Some);
    let told = Seq::new(parts(firmware) as nat, |m: int| part_told(Phase::Flash, firmware, m));
    assert(written.reports =~= told);
    let ends = if firmware.data.len() == 0 {
        seq![]
    } else {
        match log[run.end - 1] {
            Event::ReadWords { addr, result: Err(source), .. } => seq![
                Report::Warning(Warning::FlushFailed { addr, source }),
            ],
            _ => seq![],
        }
    };
    assert(tail.reports =~= ends);
    assert(run.reports =~= enabling.reports + told + ends);
}

/// The last part completes an image: what is told then is that all of its words
/// are done.
pub proof fn law_last_part_completes(firmware: FirmwareView)
    requires
        0 < firmware.data.len() <= u64::MAX,
    ensures
        part_told(Phase::Flash, firmware, parts(firmware) - 1) matches Report::Progress(p)
            && p.done == p.total && 4 * p.total >= firmware.data.len() && 4 * p.total
            < firmware.data.len() + 4,
{
}

} // verus!
