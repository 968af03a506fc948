//! Nordic flash programming and verification.
//!
//! Enabling the flash controller (RRAMC on nRF54, NVMC on nRF52), writing an
//! image as a stream of words, and reading it back byte for byte.

use vstd::prelude::*;

use crate::dap::io::{
    DapError, DapIo, Event, clock_at, extends, slept_at, word_read_at, word_write_at, words_read_at,
    words_write_at,
};
use crate::dap::run::{Run, answered, attempted, bind, clocked, done, failed, prefixed, ran, warned};
use crate::error::{Controller, Error};
use crate::hex::{ERASED, Firmware, FirmwareView};
use crate::platform::{Phase, Progress, ProgressFn, Report, VerifyOutcome, Warning};
use crate::platform::nordic::{NANOS_PER_MILLI, NordicHandler, elapsed, time_left};
use crate::dap::memory::{le_word, word_byte};
use crate::targets::definition::FlashController;

verus! {

/// Words in one transfer of a flash write or read-back (4 KiB).
pub const WORD_CHUNK: usize = 1024;

/// How many bytes that differ are told one by one.
pub const TOLD_MISMATCHES: usize = 5;

/// NVMC: offset of the CONFIG register.
pub const NVMC_CONFIG_OFFSET: u64 = 0x504;

/// NVMC: offset of the READY register.
pub const NVMC_READY_OFFSET: u64 = 0x400;

/// NVMC: the value of CONFIG that enables writes.
pub const NVMC_CONFIG_WEN: u32 = 1;

/// The number of words that `len` bytes take up.
pub open spec fn word_count(len: nat) -> nat {
    (len + 3) / 4
}

/// Byte `j` of an image, or the erased value behind its end.
pub open spec fn padded_byte(data: Seq<u8>, j: int) -> u8 {
    if 0 <= j < data.len() {
        data[j]
    } else {
        ERASED
    }
}

/// Word `w` of an image.
pub open spec fn word_of(data: Seq<u8>, w: int) -> u32 {
    le_word(
        padded_byte(data, 4 * w),
        padded_byte(data, 4 * w + 1),
        padded_byte(data, 4 * w + 2),
        padded_byte(data, 4 * w + 3),
    )
}

/// The number of words in the transfer that starts at word `w` of `total`.
pub open spec fn transfer_len(w: nat, total: nat) -> nat {
    if total - w > WORD_CHUNK {
        WORD_CHUNK as nat
    } else {
        (total - w) as nat
    }
}

/// The words of the transfer that starts at word `w` of an image.
pub open spec fn words_from(data: Seq<u8>, w: nat) -> Seq<u32> {
    Seq::new(transfer_len(w, word_count(data.len())), |k: int| word_of(data, w + k))
}

/// The report after `w` of `total` words.
pub open spec fn words_done(phase: Phase, w: nat, total: nat) -> Progress {
    Progress { phase, from: 0, to: 100, done: w as u64, total: total as u64 }
}

/// A write of a CONFIG register, whose failure ends the operation.
pub open spec fn configured(
    controller: Controller,
    reply: Option<Result<(), DapError>>,
    at: int,
) -> Option<Run<()>> {
    match reply {
        None => None,
        Some(Ok(_)) => done((), at + 1),
        Some(Err(source)) => failed(Error::ConfigWrite { controller, source }, at + 1),
    }
}

/// The poll of a READY register that goes on at event `at`, after `waited`
/// milliseconds of waits. It ends when bit 0 is set, and with `false` when its
/// timeout has passed.
pub open spec fn ready_polled(
    addr: u64,
    timeout: u64,
    interval: u64,
    log: Seq<Event>,
    at: int,
    start: u64,
    waited: nat,
) -> Option<Run<bool>>
    decreases log.len() - at,
{
    match word_read_at(log, at, addr) {
        None => None,
        Some(reply) => if reply matches Ok(v) && v % 2 == 1 {
            done(true, at + 1)
        } else {
            match clock_at(log, at + 1) {
                None => None,
                Some(now) => if elapsed(start, now, waited) >= timeout * NANOS_PER_MILLI {
                    done(false, at + 2)
                } else if slept_at(log, at + 2, interval) {
                    ready_polled(
                        addr,
                        timeout,
                        interval,
                        log,
                        at + 3,
                        start,
                        waited + interval as nat,
                    )
                } else {
                    None
                },
            }
        },
    }
}

/// A longer log shows the same poll.
pub proof fn lemma_ready_polled_stable(
    addr: u64,
    timeout: u64,
    interval: u64,
    log: Seq<Event>,
    later: Seq<Event>,
    at: int,
    start: u64,
    waited: nat,
)
    requires
        extends(log, later),
        ready_polled(addr, timeout, interval, log, at, start, waited) is Some,
    ensures
        ready_polled(addr, timeout, interval, later, at, start, waited) == ready_polled(
            addr,
            timeout,
            interval,
            log,
            at,
            start,
            waited,
        ),
    decreases log.len() - at,
{
    let reply = word_read_at(log, at, addr)->0;
    if !(reply matches Ok(v) && v % 2 == 1) {
        if elapsed(start, clock_at(log, at + 1)->0, waited) < timeout * NANOS_PER_MILLI {
            lemma_ready_polled_stable(
                addr,
                timeout,
                interval,
                log,
                later,
                at + 3,
                start,
                waited + interval as nat,
            );
        }
    }
}

/// The warning that the CONFIG register of the RRAMC gives when it is read back:
/// that bit 0, which enables writing, is not set, or that it cannot be read.
pub open spec fn config_warning(reply: Result<u32, DapError>) -> Option<Warning> {
    match reply {
        Ok(v) => if v % 2 == 1 {
            None
        } else {
            Some(Warning::WriteNotEnabled)
        },
        Err(source) => Some(Warning::ConfigUnread { source }),
    }
}

impl NordicHandler {
    /// The wait for a controller to become ready.
    pub open spec fn ready_awaited(
        self,
        controller: Controller,
        addr: u64,
        log: Seq<Event>,
        at: int,
    ) -> Option<Run<()>> {
        bind(
            clocked(log, at),
            |start: u64, at: int|
                bind(
                    ready_polled(
                        addr,
                        self.times().ready_timeout,
                        self.times().ready_interval,
                        log,
                        at,
                        start,
                        0,
                    ),
                    |ready: bool, at: int|
                        if ready {
                            done((), at)
                        } else {
                            failed(Error::NotReady { controller }, at)
                        },
                ),
        )
    }

    /// Enabling the RRAMC: CONFIG is read, written and read again, and READY
    /// awaited. What the second read shows may give a warning.
    pub open spec fn rramc_enabled(self, fc: FlashController, log: Seq<Event>, at: int) -> Option<
        Run<()>,
    > {
        match fc.registers {
            None => failed(Error::MissingRegisters, at),
            Some(regs) => {
                let config_addr = (fc.base + regs.config.offset) as u64;
                let ready_addr = (fc.base + regs.ready.offset) as u64;
                bind(
                    attempted(word_read_at(log, at, config_addr), at),
                    |_v: Option<u32>, at: int|
                        bind(
                            configured(
                                Controller::Rramc,
                                word_write_at(log, at, config_addr, regs.config.enable_value),
                                at,
                            ),
                            |_w: (), at: int|
                                bind(
                                    answered(word_read_at(log, at, config_addr), at),
                                    |reply: Result<u32, DapError>, at: int|
                                        bind(
                                            warned(config_warning(reply), at),
                                            |_n: (), at: int|
                                                self.ready_awaited(
                                                    Controller::Rramc,
                                                    ready_addr,
                                                    log,
                                                    at,
                                                ),
                                        ),
                                ),
                        ),
                )
            },
        }
    }

    /// Enabling the NVMC: CONFIG is written, and READY awaited.
    pub open spec fn nvmc_enabled(self, fc: FlashController, log: Seq<Event>, at: int) -> Option<
        Run<()>,
    > {
        bind(
            configured(
                Controller::Nvmc,
                word_write_at(log, at, (fc.base + NVMC_CONFIG_OFFSET) as u64, NVMC_CONFIG_WEN),
                at,
            ),
            |_w: (), at: int|
                self.ready_awaited(
                    Controller::Nvmc,
                    (fc.base + NVMC_READY_OFFSET) as u64,
                    log,
                    at,
                ),
        )
    }

    /// Enabling the flash controller of the target.
    pub open spec fn controller_enabled(self, log: Seq<Event>, at: int) -> Option<Run<()>> {
        match self.config().flash_controller {
            None => failed(Error::MissingFlashController { target: self.config().id }, at),
            Some(fc) => match FlashController::controller_of(fc.kind@) {
                None => failed(
                    Error::UnsupportedFlashController { target: self.config().id },
                    at,
                ),
                Some(Controller::Rramc) => self.rramc_enabled(fc, log, at),
                Some(Controller::Nvmc) => self.nvmc_enabled(fc, log, at),
            },
        }
    }

    /// A longer log shows the same.
    pub proof fn lemma_controller_enabled_stable(
        self,
        log: Seq<Event>,
        later: Seq<Event>,
        at: int,
    )
        requires
            extends(log, later),
            self.controller_enabled(log, at) is Some,
        ensures
            self.controller_enabled(later, at) == self.controller_enabled(log, at),
    {
        if let Some(fc) = self.config().flash_controller {
            match FlashController::controller_of(fc.kind@) {
                None => {},
                Some(Controller::Rramc) => {
                    if let Some(regs) = fc.registers {
                        let addr = (fc.base + regs.ready.offset) as u64;
                        self.lemma_ready_awaited_stable(
                            Controller::Rramc,
                            addr,
                            log,
                            later,
                            at + 3,
                        );
                    }
                },
                Some(Controller::Nvmc) => {
                    let addr = (fc.base + NVMC_READY_OFFSET) as u64;
                    self.lemma_ready_awaited_stable(Controller::Nvmc, addr, log, later, at + 1);
                },
            }
        }
    }

    proof fn lemma_ready_awaited_stable(
        self,
        controller: Controller,
        addr: u64,
        log: Seq<Event>,
        later: Seq<Event>,
        at: int,
    )
        requires
            extends(log, later),
        ensures
            self.ready_awaited(controller, addr, log, at) is Some ==> self.ready_awaited(
                controller,
                addr,
                later,
                at,
            ) == self.ready_awaited(controller, addr, log, at),
    {
        if self.ready_awaited(controller, addr, log, at) is Some {
            lemma_ready_polled_stable(
                addr,
                self.times().ready_timeout,
                self.times().ready_interval,
                log,
                later,
                at + 1,
                clock_at(log, at)->0,
                0,
            );
        }
    }

    /// Whether the addresses of the controller's registers exist.
    pub open spec fn register_addresses_fit(self) -> bool {
        match self.config().flash_controller {
            None => true,
            Some(fc) => match FlashController::controller_of(fc.kind@) {
                None => true,
                Some(Controller::Rramc) => fc.registers matches Some(regs) ==> {
                    &&& fc.base + regs.config.offset <= u64::MAX
                    &&& fc.base + regs.ready.offset <= u64::MAX
                },
                Some(Controller::Nvmc) => fc.base + NVMC_CONFIG_OFFSET <= u64::MAX,
            },
        }
    }

    /// Tells whether the addresses of the controller's registers exist.
    pub fn addresses_fit(&self) -> (r: bool)
        ensures
            r == self.register_addresses_fit(),
    {
        let fc = match self.flash_controller() {
            Ok(fc) => fc,
            Err(_) => return true,
        };
        match fc.controller() {
            None => true,
            Some(Controller::Rramc) => match fc.registers {
                None => true,
                Some(regs) => fc.base.checked_add(regs.config.offset).is_some()
                    && fc.base.checked_add(regs.ready.offset).is_some(),
            },
            Some(Controller::Nvmc) => fc.base.checked_add(NVMC_CONFIG_OFFSET).is_some(),
        }
    }

    /// Polls a READY register until bit 0 is set, and fails on a timeout, so
    /// that nothing is programmed through a controller that hangs.
    fn wait_flash_ready<I: DapIo>(
        &self,
        io: &mut I,
        ready_addr: u64,
        controller: Controller,
    ) -> (r: Result<(), Error>)
        ensures
            extends(old(io).log(), final(io).log()),
            ran(
                self.ready_awaited(
                    controller,
                    ready_addr,
                    final(io).log(),
                    old(io).log().len() as int,
                ),
                r,
                Seq::empty(),
                Seq::empty(),
                final(io).log().len(),
            ),
    {
        let ghost at = io.log().len() as int;
        let timing = self.timing();
        let timeout: u64 = timing.ready_timeout;
        let interval: u64 = timing.ready_interval;
        let start: u64 = io.now();
        let mut waited: u64 = 0;
        assert(Seq::<Report>::empty() + Seq::<Report>::empty() =~= Seq::<Report>::empty());
        loop
            invariant
                timeout == self.times().ready_timeout,
                interval == self.times().ready_interval,
                timeout <= 100_000,
                interval <= 100_000,
                timeout > 0 ==> interval > 0,
                waited <= timeout + interval,
                at == old(io).log().len(),
                extends(old(io).log(), io.log()),
                clock_at(io.log(), at) == Some(start),
                Seq::<Report>::empty() + Seq::<Report>::empty() == Seq::<Report>::empty(),
                forall|l: Seq<Event>| #[trigger]
                    extends(io.log(), l) ==> ready_polled(
                        ready_addr,
                        timeout,
                        interval,
                        l,
                        at + 1,
                        start,
                        0,
                    ) == ready_polled(
                        ready_addr,
                        timeout,
                        interval,
                        l,
                        io.log().len() as int,
                        start,
                        waited as nat,
                    ),
            decreases timeout + interval - waited,
        {
            let ghost before = io.log();
            let ghost from = before.len() as int;
            let reading = io.read_word_32(ready_addr);
            assert(extends(before, io.log()));
            if let Ok(v) = reading {
                if v % 2 == 1 {
                    return Ok(());
                }
            }
            let left = time_left(io, start, waited, timeout);
            assert(extends(before, io.log()));
            if left.is_none() {
                return Err(Error::NotReady { controller });
            }
            io.sleep(interval);
            assert(extends(before, io.log()));
            assert forall|l: Seq<Event>| #[trigger] extends(io.log(), l) implies ready_polled(
                ready_addr,
                timeout,
                interval,
                l,
                at + 1,
                start,
                0,
            ) == ready_polled(
                ready_addr,
                timeout,
                interval,
                l,
                from + 3,
                start,
                waited as nat + interval as nat,
            ) by {
                assert(extends(before, l));
                assert(l[from] == io.log()[from]);
                assert(l[from + 1] == io.log()[from + 1]);
                assert(l[from + 2] == io.log()[from + 2]);
            }
            waited = waited + interval;
        }
    }

    /// Enables RRAMC write mode (nRF54) and waits until it reports ready.
    fn init_rramc<I: DapIo, P: ProgressFn>(
        &self,
        io: &mut I,
        progress: &mut P,
        fc: &FlashController,
    ) -> (r: Result<(), Error>)
        requires
            fc.registers matches Some(regs) ==> {
                &&& fc.base + regs.config.offset <= u64::MAX
                &&& fc.base + regs.ready.offset <= u64::MAX
            },
        ensures
            extends(old(io).log(), final(io).log()),
            ran(
                self.rramc_enabled(*fc, final(io).log(), old(io).log().len() as int),
                r,
                old(progress).reports(),
                final(progress).reports(),
                final(io).log().len(),
            ),
    {
        let ghost at = io.log().len() as int;
        let ghost told = progress.reports();
        assert(told + Seq::<Report>::empty() =~= told);
        assert(Seq::<Report>::empty() + Seq::<Report>::empty() =~= Seq::<Report>::empty());
        let regs = match fc.registers {
            Some(regs) => regs,
            None => return Err(Error::MissingRegisters),
        };
        let config_addr: u64 = fc.base + regs.config.offset;
        let ready_addr: u64 = fc.base + regs.ready.offset;
        let _current = io.read_word_32(config_addr);
        if let Err(source) = io.write_word_32(config_addr, regs.config.enable_value) {
            return Err(Error::ConfigWrite { controller: Controller::Rramc, source });
        }
        match io.read_word_32(config_addr) {
            Ok(new) => if new % 2 != 1 {
                progress.warn(Warning::WriteNotEnabled);
            },
            Err(source) => {
                progress.warn(Warning::ConfigUnread { source });
            },
        }
        let ghost configured = io.log().len() as int;
        let outcome = self.wait_flash_ready(io, ready_addr, Controller::Rramc);
        proof {
            let wait = self.ready_awaited(Controller::Rramc, ready_addr, io.log(), configured)->0;
            assert(wait.reports =~= Seq::<Report>::empty() + wait.reports);
            assert(progress.reports() =~= told + self.rramc_enabled(
                *fc,
                io.log(),
                at,
            )->0.reports);
        }
        outcome
    }

    /// Enables NVMC write mode (nRF52) and waits until it reports ready.
    fn init_nvmc<I: DapIo>(
        &self,
        io: &mut I,
        fc: &FlashController,
    ) -> (r: Result<(), Error>)
        requires
            fc.base + NVMC_CONFIG_OFFSET <= u64::MAX,
        ensures
            extends(old(io).log(), final(io).log()),
            ran(
                self.nvmc_enabled(*fc, final(io).log(), old(io).log().len() as int),
                r,
                Seq::empty(),
                Seq::empty(),
                final(io).log().len(),
            ),
    {
        assert(Seq::<Report>::empty() + Seq::<Report>::empty() =~= Seq::<Report>::empty());
        let config_addr: u64 = fc.base + NVMC_CONFIG_OFFSET;
        let ready_addr: u64 = fc.base + NVMC_READY_OFFSET;
        if let Err(source) = io.write_word_32(config_addr, NVMC_CONFIG_WEN) {
            return Err(Error::ConfigWrite { controller: Controller::Nvmc, source });
        }
        self.wait_flash_ready(io, ready_addr, Controller::Nvmc)
    }

    /// Enables the flash controller for programming, by its declared type.
    pub(crate) fn init_flash_controller<I: DapIo, P: ProgressFn>(
        &self,
        io: &mut I,
        progress: &mut P,
    ) -> (r: Result<(), Error>)
        requires
            self.register_addresses_fit(),
        ensures
            extends(old(io).log(), final(io).log()),
            ran(
                self.controller_enabled(final(io).log(), old(io).log().len() as int),
                r,
                old(progress).reports(),
                final(progress).reports(),
                final(io).log().len(),
            ),
    {
        let ghost at = io.log().len() as int;
        assert(progress.reports() + Seq::<Report>::empty() =~= progress.reports());
        let fc = match self.flash_controller() {
            Ok(fc) => fc,
            Err(e) => return Err(e),
        };
        match fc.controller() {
            Some(Controller::Rramc) => self.init_rramc(io, progress, fc),
            Some(Controller::Nvmc) => {
                let outcome = self.init_nvmc(io, fc);
                proof {
                    let run = self.nvmc_enabled(*fc, io.log(), at)->0;
                    assert(run.reports =~= Seq::<Report>::empty() + run.reports);
                }
                outcome
            },
            None => Err(Error::UnsupportedFlashController { target: self.target_id() }),
        }
    }
}

/// The transfers of an image from word `w` on.
pub open spec fn words_written(
    firmware: FirmwareView,
    log: Seq<Event>,
    at: int,
    w: nat,
) -> Option<Run<()>>
    decreases word_count(firmware.data.len()) - w,
{
    let total = word_count(firmware.data.len());
    let addr = (firmware.start + 4 * w) as int;
    if w >= total {
        done((), at)
    } else {
        match words_write_at(log, at, addr, words_from(firmware.data, w)) {
            None => None,
            Some(Err(source)) => failed(Error::FlashWrite { addr: addr as u64, source }, at + 1),
            Some(Ok(_)) => {
                let next = w + transfer_len(w, total);
                prefixed(
                    seq![Report::Progress(words_done(Phase::Flash, next, total))],
                    words_written(firmware, log, at + 1, next),
                )
            },
        }
    }
}

/// A longer log shows the same transfers.
pub proof fn lemma_words_written_stable(
    firmware: FirmwareView,
    log: Seq<Event>,
    later: Seq<Event>,
    at: int,
    w: nat,
)
    requires
        extends(log, later),
        words_written(firmware, log, at, w) is Some,
    ensures
        words_written(firmware, later, at, w) == words_written(firmware, log, at, w),
    decreases word_count(firmware.data.len()) - w,
{
    let total = word_count(firmware.data.len());
    if w < total {
        let addr = (firmware.start + 4 * w) as int;
        if words_write_at(log, at, addr, words_from(firmware.data, w)) matches Some(Ok(_)) {
            lemma_words_written_stable(firmware, log, later, at + 1, w + transfer_len(w, total));
        }
    }
}

/// The read-back of the end of an image, which makes the controller commit what
/// it buffers. What it shows does not matter; its failure gives a warning.
pub open spec fn tail_read(firmware: FirmwareView, log: Seq<Event>, at: int) -> Option<Run<()>> {
    let total = word_count(firmware.data.len());
    let len = transfer_len(0, total);
    let addr = firmware.start + 4 * (total - len);
    if len == 0 {
        done((), at)
    } else {
        bind(
            answered(words_read_at(log, at, addr, len), at),
            |reply: Result<Seq<u32>, DapError>, at: int|
                warned(
                    match reply {
                        Ok(_) => None,
                        Err(source) => Some(Warning::FlushFailed { addr: addr as u64, source }),
                    },
                    at,
                ),
        )
    }
}

/// The address of byte `j` of an image. Behind the last address it starts over.
pub open spec fn byte_addr(firmware: FirmwareView, j: int) -> u64 {
    let addr = firmware.start + j;
    if addr > u64::MAX {
        (addr - u64::MAX - 1) as u64
    } else {
        addr as u64
    }
}

/// The warnings that bytes `from` up to `to` of an image give against the words
/// that were read: one for each byte that differs, as long as it is among the
/// first five that do.
pub open spec fn mismatches_told(
    firmware: FirmwareView,
    words: Seq<u32>,
    from: nat,
    to: nat,
) -> Seq<Report>
    decreases to,
{
    if to <= from {
        Seq::empty()
    } else {
        let before = mismatches_told(firmware, words, from, (to - 1) as nat);
        let j = to - 1;
        let actual = word_byte(words[j / 4], j % 4);
        if actual != firmware.data[j] && differing(firmware.data, words, j as nat)
            < TOLD_MISMATCHES {
            before.push(
                Report::Warning(
                    Warning::Mismatch {
                        addr: byte_addr(firmware, j),
                        wanted: firmware.data[j],
                        actual,
                    },
                ),
            )
        } else {
            before
        }
    }
}

/// The number of bytes of an image in its first `w` words.
pub open spec fn bytes_in(firmware: FirmwareView, w: nat) -> nat {
    if 4 * w < firmware.data.len() {
        4 * w
    } else {
        firmware.data.len()
    }
}

/// The read-back of an image that goes on behind the words `seen`. It ends with
/// all of its words.
pub open spec fn words_read_back(
    firmware: FirmwareView,
    log: Seq<Event>,
    at: int,
    seen: Seq<u32>,
) -> Option<Run<Seq<u32>>>
    decreases word_count(firmware.data.len()) - seen.len(),
{
    let total = word_count(firmware.data.len());
    let w = seen.len();
    let addr = (firmware.start + 4 * w) as int;
    if w >= total {
        done(seen, at)
    } else {
        match words_read_at(log, at, addr, transfer_len(w, total)) {
            None => None,
            Some(Err(source)) => failed(Error::VerifyRead { addr: addr as u64, source }, at + 1),
            Some(Ok(words)) => {
                let all = seen + words;
                prefixed(
                    mismatches_told(firmware, all, 4 * w, bytes_in(firmware, all.len())).push(
                        Report::Progress(words_done(Phase::Verify, all.len(), total)),
                    ),
                    words_read_back(firmware, log, at + 1, all),
                )
            },
        }
    }
}

/// A longer log shows the same read-back.
pub proof fn lemma_words_read_back_stable(
    firmware: FirmwareView,
    log: Seq<Event>,
    later: Seq<Event>,
    at: int,
    seen: Seq<u32>,
)
    requires
        extends(log, later),
        words_read_back(firmware, log, at, seen) is Some,
    ensures
        words_read_back(firmware, later, at, seen) == words_read_back(firmware, log, at, seen),
    decreases word_count(firmware.data.len()) - seen.len(),
{
    let total = word_count(firmware.data.len());
    let w = seen.len();
    if w < total {
        let addr = (firmware.start + 4 * w) as int;
        if let Some(Ok(words)) = words_read_at(log, at, addr, transfer_len(w, total)) {
            lemma_words_read_back_stable(firmware, log, later, at + 1, seen + words);
        }
    }
}

/// How many of the first `n` bytes of an image differ from the words that were
/// read.
pub open spec fn differing(data: Seq<u8>, words: Seq<u32>, n: nat) -> nat
    decreases n,
{
    if n == 0 {
        0
    } else {
        let j = n - 1;
        differing(data, words, (n - 1) as nat) + if word_byte(words[j / 4], j % 4) != data[j] {
            1nat
        } else {
            0nat
        }
    }
}

/// The outcome of comparing an image with the words that were read.
pub open spec fn outcome_of(data: Seq<u8>, words: Seq<u32>) -> VerifyOutcome {
    VerifyOutcome {
        success: differing(data, words, data.len()) == 0,
        mismatches: differing(data, words, data.len()) as usize,
    }
}

proof fn lemma_differing(data: Seq<u8>, words: Seq<u32>, more: Seq<u32>, n: nat)
    requires
        n <= 4 * words.len(),
    ensures
        differing(data, words + more, n) == differing(data, words, n),
        differing(data, words, n) <= n,
    decreases n,
{
    if n > 0 {
        lemma_differing(data, words, more, (n - 1) as nat);
        assert((words + more)[(n - 1) / 4] == words[(n - 1) / 4]);
    }
}

/// The little-endian word `w` of an image.
fn pack_word(data: &Vec<u8>, w: usize) -> (r: u32)
    requires
        w < word_count(data@.len()),
    ensures
        r == word_of(data@, w as int),
{
    let len: usize = data.len();
    let at: usize = 4 * w;
    let left: usize = len - at;
    let b0: u32 = data[at] as u32;
    let b1: u32 = if left > 1 {
        data[at + 1] as u32
    } else {
        ERASED as u32
    };
    let b2: u32 = if left > 2 {
        data[at + 2] as u32
    } else {
        ERASED as u32
    };
    let b3: u32 = if left > 3 {
        data[at + 3] as u32
    } else {
        ERASED as u32
    };
    b0 + 0x100 * b1 + 0x1_0000 * b2 + 0x100_0000 * b3
}

/// Byte `b` of a little-endian word.
fn unpack_byte(word: u32, b: usize) -> (r: u8)
    requires
        b < 4,
    ensures
        r == word_byte(word, b as int),
{
    if b == 0 {
        (word % 0x100) as u8
    } else if b == 1 {
        (word / 0x100 % 0x100) as u8
    } else if b == 2 {
        (word / 0x1_0000 % 0x100) as u8
    } else {
        (word / 0x100_0000) as u8
    }
}

/// The number of words in whole blocks of 1024 words and a rest.
#[verifier::rlimit(40)]
proof fn lemma_word_count(len: int) -> (r: (int, int))
    requires
        len > 0,
    ensures
        len - 1 == 4096 * r.0 + r.1,
        0 <= r.1 < 4096,
        r.0 == (len - 1) / 4096,
        (len + 3) / 4 == 1024 * r.0 + r.1 / 4 + 1,
{
    let q = (len - 1) / 4096;
    let rest = (len - 1) % 4096;
    assert(len + 3 == 4 * (1024 * q + 1) + rest);
    (q, rest)
}

/// Each transfer of an addressable image starts at an address.
proof fn lemma_transfer_addr(firmware: FirmwareView, w: nat)
    requires
        firmware.addressable(),
        w < word_count(firmware.data.len()),
        w % 1024 == 0,
    ensures
        firmware.start + 4 * w <= u64::MAX,
{
    let (blocks, rest) = lemma_word_count(firmware.data.len() as int);
    let k = w as int / 1024;
    assert(w == 1024 * k);
    assert(k <= blocks);
}

/// The last words of an addressable image start at an address.
#[verifier::rlimit(40)]
proof fn lemma_tail_addr(firmware: FirmwareView)
    requires
        firmware.addressable(),
        firmware.data.len() > 0,
    ensures
        ({
            let total = word_count(firmware.data.len());
            firmware.start + 4 * (total - transfer_len(0, total)) <= u64::MAX
        }),
{
    let (blocks, rest) = lemma_word_count(firmware.data.len() as int);
    assert(word_count(firmware.data.len()) == 1024 * blocks + rest / 4 + 1);
}

/// The number of words that `len` bytes take up.
fn count_words(len: usize) -> (r: usize)
    ensures
        r == word_count(len as nat),
{
    if len % 4 == 0 {
        len / 4
    } else {
        len / 4 + 1
    }
}

/// The number of words in the transfer that starts at word `w` of `total`.
fn chunk_len(w: usize, total: usize) -> (r: usize)
    requires
        w <= total,
    ensures
        r == transfer_len(w as nat, total as nat),
{
    if total - w > WORD_CHUNK {
        WORD_CHUNK
    } else {
        total - w
    }
}

/// The words of the transfer that starts at word `w`.
fn pack_chunk(data: &Vec<u8>, w: usize, total: usize) -> (r: Vec<u32>)
    requires
        total == word_count(data@.len()),
        w < total,
    ensures
        r@ == words_from(data@, w as nat),
{
    let len: usize = chunk_len(w, total);
    let mut words: Vec<u32> = Vec::new();
    let mut k: usize = 0;
    while k < len
        invariant
            k <= len,
            len == transfer_len(w as nat, total as nat),
            total == word_count(data@.len()),
            w < total,
            words@ == Seq::new(k as nat, |j: int| word_of(data@, w + j)),
        decreases len - k,
    {
        words.push(pack_word(data, w + k));
        k = k + 1;
        assert(words@ =~= Seq::new(k as nat, |j: int| word_of(data@, w + j)));
    }
    assert(words@ =~= words_from(data@, w as nat));
    words
}

/// Compares the bytes of an image from word `read` up to byte `end` with the
/// words that were read for them. `mismatches` bytes differ in front of them, and
/// the result counts all that do; the first are told one by one. `known` are the
/// words in front of `words`.
#[verifier::rlimit(40)]
fn compare_words<P: ProgressFn>(
    firmware: &Firmware,
    words: &Vec<u32>,
    read: usize,
    end: usize,
    mismatches: usize,
    progress: &mut P,
    Ghost(known): Ghost<Seq<u32>>,
) -> (r: usize)
    requires
        known.len() == read,
        4 * read <= end <= firmware@.data.len(),
        end <= 4 * (read + words@.len()),
        mismatches == differing(firmware@.data, known, 4 * read as nat),
    ensures
        r == differing(firmware@.data, known + words@, end as nat),
        final(progress).reports() == old(progress).reports() + mismatches_told(
            firmware@,
            known + words@,
            4 * read as nat,
            end as nat,
        ),
{
    let ghost told = progress.reports();
    let ghost seen = known + words@;
    let size: usize = firmware.data.len();
    let mut count: usize = mismatches;
    let mut j: usize = 4 * read;
    proof {
        lemma_differing(firmware@.data, known, words@, 4 * read as nat);
    }
    assert(progress.reports() =~= told + mismatches_told(firmware@, seen, j as nat, j as nat));
    while j < end
        invariant
            4 * read <= j <= end,
            end <= size,
            end <= 4 * (read + words@.len()),
            size == firmware@.data.len(),
            known.len() == read,
            seen == known + words@,
            count == differing(firmware@.data, seen, j as nat),
            progress.reports() == told + mismatches_told(
                firmware@,
                seen,
                4 * read as nat,
                j as nat,
            ),
        decreases end - j,
    {
        assert(read <= j / 4 < read + words@.len());
        let actual = unpack_byte(words[j / 4 - read], j % 4);
        assert(seen[j as int / 4] == words@[j / 4 - read]);
        proof {
            lemma_differing(firmware@.data, seen, Seq::empty(), j as nat);
        }
        let ghost so_far = mismatches_told(firmware@, seen, 4 * read as nat, j as nat);
        let wanted = firmware.data[j];
        if actual != wanted {
            if count < TOLD_MISMATCHES {
                let addr: u64 = firmware.start_address.wrapping_add(j as u64);
                let ghost warning = Report::Warning(Warning::Mismatch { addr, wanted, actual });
                progress.warn(Warning::Mismatch { addr, wanted, actual });
                assert((told + so_far).push(warning) =~= told + so_far.push(warning));
            }
            count = count + 1;
        }
        j = j + 1;
    }
    count
}

impl NordicHandler {
    /// The programming of an image: the controller is enabled, the image is
    /// written, and its end read back.
    pub open spec fn image_flashed(
        self,
        firmware: FirmwareView,
        log: Seq<Event>,
        at: int,
    ) -> Option<Run<()>> {
        bind(
            self.controller_enabled(log, at),
            |_e: (), at: int|
                bind(
                    words_written(firmware, log, at, 0),
                    |_w: (), at: int| tail_read(firmware, log, at),
                ),
        )
    }

    /// The comparison of an image with flash.
    pub open spec fn image_verified(
        self,
        firmware: FirmwareView,
        log: Seq<Event>,
        at: int,
    ) -> Option<Run<VerifyOutcome>> {
        bind(
            words_read_back(firmware, log, at, Seq::empty()),
            |words: Seq<u32>, at: int| done(outcome_of(firmware.data, words), at),
        )
    }

    /// Streams an image to flash.
    #[verifier::rlimit(40)]
    fn write_image<I: DapIo, P: ProgressFn>(
        &self,
        io: &mut I,
        firmware: &Firmware,
        progress: &mut P,
    ) -> (r: Result<(), Error>)
        requires
            firmware@.addressable(),
        ensures
            extends(old(io).log(), final(io).log()),
            ran(
                words_written(firmware@, final(io).log(), old(io).log().len() as int, 0),
                r,
                old(progress).reports(),
                final(progress).reports(),
                final(io).log().len(),
            ),
    {
        let ghost at = io.log().len() as int;
        let total: usize = count_words(firmware.data.len());
        let mut written: usize = 0;
        let ghost mut reports: Seq<Report> = Seq::empty();
        assert(progress.reports() =~= old(progress).reports() + reports);
        assert forall|l: Seq<Event>| #[trigger] extends(io.log(), l) implies words_written(
            firmware@,
            l,
            at,
            0,
        ) == prefixed(reports, words_written(firmware@, l, at, 0)) by {
            let run = words_written(firmware@, l, at, 0);
            if run is Some {
                assert(reports + run->0.reports =~= run->0.reports);
            }
        }
        while written < total
            invariant
                total == word_count(firmware@.data.len()),
                firmware@.addressable(),
                written <= total,
                written < total ==> written % 1024 == 0,
                at == old(io).log().len(),
                extends(old(io).log(), io.log()),
                progress.reports() == old(progress).reports() + reports,
                forall|l: Seq<Event>| #[trigger]
                    extends(io.log(), l) ==> words_written(firmware@, l, at, 0) == prefixed(
                        reports,
                        words_written(firmware@, l, io.log().len() as int, written as nat),
                    ),
            decreases total - written,
        {
            let ghost before = io.log();
            let ghost from = before.len() as int;
            let words = pack_chunk(&firmware.data, written, total);
            proof {
                lemma_transfer_addr(firmware@, written as nat);
            }
            let addr: u64 = firmware.start_address + 4 * (written as u64);
            let outcome = io.write_32(addr, words.as_slice());
            assert(extends(before, io.log()));
            if let Err(source) = outcome {
                assert(reports + Seq::<Report>::empty() =~= reports);
                return Err(Error::FlashWrite { addr, source });
            }
            let ghost was = written as nat;
            written = written + words.len();
            let tick = Progress {
                phase: Phase::Flash,
                from: 0,
                to: 100,
                done: written as u64,
                total: total as u64,
            };
            progress.report(tick);
            proof {
                let so_far = reports;
                reports = reports.push(Report::Progress(tick));
                assert forall|l: Seq<Event>| #[trigger] extends(io.log(), l) implies words_written(
                    firmware@,
                    l,
                    at,
                    0,
                ) == prefixed(
                    reports,
                    words_written(firmware@, l, io.log().len() as int, written as nat),
                ) by {
                    assert(extends(before, l));
                    assert(l[from] == io.log()[from]);
                    let rest = words_written(firmware@, l, from + 1, written as nat);
                    assert(words_written(firmware@, l, from, was) == prefixed(
                        seq![Report::Progress(tick)],
                        rest,
                    ));
                    if rest is Some {
                        assert(so_far + (seq![Report::Progress(tick)] + rest->0.reports) =~= reports
                            + rest->0.reports);
                    }
                }
                assert(progress.reports() =~= old(progress).reports() + reports);
            }
        }
        assert(extends(io.log(), io.log()));
        assert(reports + Seq::<Report>::empty() =~= reports);
        Ok(())
    }

    /// Reads the end of an image back from flash.
    #[verifier::rlimit(40)]
    fn read_tail<I: DapIo, P: ProgressFn>(
        &self,
        io: &mut I,
        firmware: &Firmware,
        progress: &mut P,
    )
        requires
            firmware@.addressable(),
        ensures
            extends(old(io).log(), final(io).log()),
            ran(
                tail_read(firmware@, final(io).log(), old(io).log().len() as int),
                Ok(()),
                old(progress).reports(),
                final(progress).reports(),
                final(io).log().len(),
            ),
    {
        let ghost at = io.log().len() as int;
        let total: usize = count_words(firmware.data.len());
        let len: usize = chunk_len(0, total);
        if len > 0 {
            proof {
                lemma_tail_addr(firmware@);
            }
            let addr: u64 = firmware.start_address + 4 * ((total - len) as u64);
            let mut scratch: Vec<u32> = vec![0; len];
            if let Err(source) = io.read_32(addr, scratch.as_mut_slice()) {
                progress.warn(Warning::FlushFailed { addr, source });
            }
        }
        assert(progress.reports() =~= old(progress).reports() + tail_read(
            firmware@,
            io.log(),
            at,
        )->0.reports);
    }

    /// Enables the flash controller, streams the image to flash as
    /// little-endian words, the last one padded with `0xFF`, and reads the end
    /// of it back. The nRF54L holds the most recent words in a small buffer
    /// that only such a read makes it commit; without it the last word would be
    /// lost at the reset. A failure of that read is a warning, not an error.
    #[verifier::rlimit(40)]
    pub(crate) fn flash_impl<I: DapIo, P: ProgressFn>(
        &self,
        io: &mut I,
        firmware: &Firmware,
        progress: &mut P,
    ) -> (r: Result<(), Error>)
        requires
            self.register_addresses_fit(),
            firmware@.addressable(),
        ensures
            extends(old(io).log(), final(io).log()),
            ran(
                self.image_flashed(firmware@, final(io).log(), old(io).log().len() as int),
                r,
                old(progress).reports(),
                final(progress).reports(),
                final(io).log().len(),
            ),
    {
        let ghost at = io.log().len() as int;
        let enabled = self.init_flash_controller(io, progress);
        let ghost ready = io.log();
        if let Err(e) = enabled {
            return Err(e);
        }
        let outcome = self.write_image(io, firmware, progress);
        let ghost filled = io.log();
        proof {
            self.lemma_controller_enabled_stable(ready, filled, at);
        }
        if let Err(e) = outcome {
            assert(progress.reports() =~= old(progress).reports() + self.image_flashed(
                firmware@,
                io.log(),
                at,
            )->0.reports);
            return Err(e);
        }
        self.read_tail(io, firmware, progress);
        proof {
            self.lemma_controller_enabled_stable(ready, io.log(), at);
            lemma_words_written_stable(firmware@, filled, io.log(), ready.len() as int, 0);
        }
        assert(progress.reports() =~= old(progress).reports() + self.image_flashed(
            firmware@,
            io.log(),
            at,
        )->0.reports);
        Ok(())
    }

    /// Reads the whole image back from flash and counts the bytes that differ
    /// from the expected firmware. The first of them are told one by one.
    #[verifier::rlimit(40)]
    pub(crate) fn verify_impl<I: DapIo, P: ProgressFn>(
        &self,
        io: &mut I,
        firmware: &Firmware,
        progress: &mut P,
    ) -> (r: Result<VerifyOutcome, Error>)
        requires
            firmware@.addressable(),
        ensures
            extends(old(io).log(), final(io).log()),
            ran(
                self.image_verified(firmware@, final(io).log(), old(io).log().len() as int),
                r,
                old(progress).reports(),
                final(progress).reports(),
                final(io).log().len(),
            ),
    {
        let ghost at = io.log().len() as int;
        let ghost told = progress.reports();
        let ghost none = Seq::<u32>::empty();
        let size: usize = firmware.data.len();
        let total: usize = count_words(size);
        let mut mismatches: usize = 0;
        let mut read: usize = 0;
        let ghost mut reports: Seq<Report> = Seq::empty();
        let ghost mut seen: Seq<u32> = none;
        assert(progress.reports() =~= told + reports);
        assert forall|l: Seq<Event>| #[trigger] extends(io.log(), l) implies words_read_back(
            firmware@,
            l,
            at,
            none,
        ) == prefixed(reports, words_read_back(firmware@, l, at, seen)) by {
            let run = words_read_back(firmware@, l, at, none);
            if run is Some {
                assert(reports + run->0.reports =~= run->0.reports);
            }
        }
        while read < total
            invariant
                size == firmware@.data.len(),
                total == word_count(firmware@.data.len()),
                firmware@.addressable(),
                read <= total,
                read < total ==> read % 1024 == 0,
                seen.len() == read,
                mismatches == differing(firmware@.data, seen, bytes_in(firmware@, read as nat)),
                at == old(io).log().len(),
                told == old(progress).reports(),
                none == Seq::<u32>::empty(),
                extends(old(io).log(), io.log()),
                progress.reports() == told + reports,
                forall|l: Seq<Event>| #[trigger]
                    extends(io.log(), l) ==> words_read_back(firmware@, l, at, none) == prefixed(
                        reports,
                        words_read_back(firmware@, l, io.log().len() as int, seen),
                    ),
            decreases total - read,
        {
            let ghost before = io.log();
            let ghost from = before.len() as int;
            let len: usize = chunk_len(read, total);
            proof {
                lemma_transfer_addr(firmware@, read as nat);
            }
            let addr: u64 = firmware.start_address + 4 * (read as u64);
            let mut words: Vec<u32> = vec![0; len];
            let outcome = io.read_32(addr, words.as_mut_slice());
            assert(extends(before, io.log()));
            if let Err(source) = outcome {
                assert(reports + Seq::<Report>::empty() =~= reports);
                return Err(Error::VerifyRead { addr, source });
            }
            let ghost known = seen;
            let end: usize = if total - read > len {
                4 * (read + len)
            } else {
                size
            };
            mismatches = compare_words(
                firmware,
                &words,
                read,
                end,
                mismatches,
                progress,
                Ghost(known),
            );
            proof {
                seen = known + words@;
            }
            let ghost warnings = mismatches_told(firmware@, seen, 4 * read as nat, end as nat);
            read = read + len;
            assert(end == bytes_in(firmware@, read as nat));
            let tick = Progress {
                phase: Phase::Verify,
                from: 0,
                to: 100,
                done: read as u64,
                total: total as u64,
            };
            progress.report(tick);
            proof {
                let so_far = reports;
                let more = warnings.push(Report::Progress(tick));
                reports = so_far + more;
                assert forall|l: Seq<Event>| #[trigger]
                    extends(io.log(), l) implies words_read_back(firmware@, l, at, none)
                    == prefixed(
                    reports,
                    words_read_back(firmware@, l, io.log().len() as int, seen),
                ) by {
                    assert(extends(before, l));
                    assert(l[from] == io.log()[from]);
                    let rest = words_read_back(firmware@, l, from + 1, seen);
                    assert(words_read_back(firmware@, l, from, known) == prefixed(more, rest));
                    if rest is Some {
                        assert(so_far + (more + rest->0.reports) =~= reports + rest->0.reports);
                    }
                }
                assert(progress.reports() =~= told + reports);
            }
        }
        assert(extends(io.log(), io.log()));
        assert(reports + Seq::<Report>::empty() =~= reports);
        Ok(VerifyOutcome { success: mismatches == 0, mismatches })
    }
}

} // verus!
