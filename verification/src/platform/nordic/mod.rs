//! Nordic Semiconductor platform handler.
//!
//! CTRL-AP mass-erase recovery, RRAMC and NVMC flash programming, verification
//! and reset for the Nordic nRF series, driven by the target definition.

pub mod flash;
pub mod laws;

use vstd::prelude::*;

use crate::dap::io::{
    DapError, DapIo, Event, ap_read_at, ap_write_at, clock_at, extends, reinitialize_at, slept_at,
    try_read_ap,
};
use crate::dap::run::{
    Run, answered, attempted, bind, clocked, done, failed, prefixed, ran, reported, slept,
    transferred, warned,
};
use crate::error::Error;
use crate::hex::{Firmware, FirmwareView};
use crate::platform::{Phase, PlatformHandler, Progress, ProgressFn, Report, VerifyOutcome, Warning};
use crate::platform::nordic::flash::{
    lemma_words_read_back_stable, lemma_words_written_stable, words_written,
};
use crate::targets::definition::{CtrlAp, EraseAllStatus, FlashController, TargetConfig};

verus! {

/// CTRL-AP register: device reset.
pub const CTRL_AP_RESET: u64 = 0x000;

/// CTRL-AP register: mass erase task.
pub const CTRL_AP_ERASEALL: u64 = 0x004;

/// CTRL-AP register: state of the mass erase.
pub const CTRL_AP_ERASEALLSTATUS: u64 = 0x008;

/// CTRL-AP register: whether the device is unlocked.
pub const CTRL_AP_ERASEPROTECTSTATUS: u64 = 0x00C;

/// CTRL-AP register: identification.
pub const CTRL_AP_IDR: u64 = 0x0FC;

/// Nanoseconds in a millisecond.
pub const NANOS_PER_MILLI: u64 = 1_000_000;

/// Delays and timeouts of the handler, in milliseconds.
#[derive(Clone, Copy, Debug, PartialEq, Eq, Structural)]
pub struct Timing {
    /// Timeout for each phase of waiting for ERASEALL (start, complete).
    pub erase_timeout: u64,
    /// Polling interval while waiting on ERASEALLSTATUS.
    pub erase_interval: u64,
    /// Timeout while waiting for the flash controller's READY flag.
    pub ready_timeout: u64,
    /// Polling interval while waiting on the READY flag.
    pub ready_interval: u64,
    /// Short settle delay between CTRL-AP register writes.
    pub settle_short: u64,
    /// Stabilization delay after the reset that follows an erase.
    pub settle_reset: u64,
    /// Delay after the debug port was connected anew.
    pub reconnect: u64,
    /// Settle delay after a plain device reset.
    pub post_reset: u64,
}

impl Timing {
    /// The timing of real devices.
    pub open spec fn device() -> Timing {
        Timing {
            erase_timeout: 30_000,
            erase_interval: 100,
            ready_timeout: 1_000,
            ready_interval: 10,
            settle_short: 10,
            settle_reset: 500,
            reconnect: 200,
            post_reset: 100,
        }
    }

    /// The timing that waits for nothing: a poll checks exactly once.
    pub open spec fn zero() -> Timing {
        Timing {
            erase_timeout: 0,
            erase_interval: 0,
            ready_timeout: 0,
            ready_interval: 0,
            settle_short: 0,
            settle_reset: 0,
            reconnect: 0,
            post_reset: 0,
        }
    }

    /// The timing that waits for nothing: a poll checks exactly once.
    pub fn instant() -> (r: Timing)
        ensures
            r == Timing::zero(),
    {
        Timing {
            erase_timeout: 0,
            erase_interval: 0,
            ready_timeout: 0,
            ready_interval: 0,
            settle_short: 0,
            settle_reset: 0,
            reconnect: 0,
            post_reset: 0,
        }
    }
}

impl Default for Timing {
    fn default() -> (r: Timing)
        ensures
            r == Timing::device(),
    {
        Timing {
            erase_timeout: 30_000,
            erase_interval: 100,
            ready_timeout: 1_000,
            ready_interval: 10,
            settle_short: 10,
            settle_reset: 500,
            reconnect: 200,
            post_reset: 100,
        }
    }
}

/// How long a poll has lasted, in nanoseconds: what the clock shows, and never
/// less than the waits that the poll has made.
pub open spec fn elapsed(start: u64, now: u64, waited: nat) -> nat {
    let shown = if now >= start {
        (now - start) as nat
    } else {
        0
    };
    let least = waited * NANOS_PER_MILLI as nat;
    if shown >= least {
        shown
    } else {
        least
    }
}

/// Looks at the clock, and says how long the poll has lasted where its timeout
/// has not passed.
pub(crate) fn time_left<I: DapIo>(
    io: &mut I,
    start: u64,
    waited: u64,
    timeout: u64,
) -> (r: Option<u64>)
    requires
        waited <= 1_000_000,
        timeout <= 1_000_000,
    ensures
        extends(old(io).log(), final(io).log()),
        final(io).log().len() == old(io).log().len() + 1,
        clock_at(final(io).log(), old(io).log().len() as int) matches Some(now) && {
            let lasted = elapsed(start, now, waited as nat);
            r == (if lasted >= timeout * NANOS_PER_MILLI {
                None
            } else {
                Some(lasted as u64)
            })
        },
{
    let now: u64 = io.now();
    let shown: u64 = now.saturating_sub(start);
    let least: u64 = waited * NANOS_PER_MILLI;
    let lasted: u64 = if shown >= least {
        shown
    } else {
        least
    };
    if lasted >= timeout * NANOS_PER_MILLI {
        None
    } else {
        Some(lasted)
    }
}

/// The report of a whole percentage of a recovery.
fn percent_recovered(percent: u64) -> (r: Progress)
    ensures
        r == Progress::recovered(percent),
{
    Progress { phase: Phase::Recover, from: percent, to: percent, done: 0, total: 1 }
}

/// Outcome of one phase of waiting on ERASEALLSTATUS.
#[derive(Clone, Copy, Debug, PartialEq, Eq, Structural)]
pub enum EraseWait {
    Busy,
    Done,
    Error,
}

/// What a value of ERASEALLSTATUS, or a failed read of it, ends a wait with.
pub open spec fn erase_state(
    status: EraseAllStatus,
    busy_is_wait: bool,
    reading: Option<u32>,
) -> Option<EraseWait> {
    match reading {
        None => None,
        Some(v) => if v == status.busy {
            if busy_is_wait {
                None
            } else {
                Some(EraseWait::Busy)
            }
        } else if v == status.error {
            Some(EraseWait::Error)
        } else if v == status.ready_to_reset {
            Some(EraseWait::Done)
        } else {
            None
        },
    }
}

/// One phase of waiting on ERASEALLSTATUS.
pub struct ErasePhase {
    pub ap: u8,
    pub status: EraseAllStatus,
    pub busy_is_wait: bool,
    pub timeout: u64,
    pub interval: u64,
    pub from: u64,
    pub to: u64,
}

impl ErasePhase {
    /// The poll of ERASEALLSTATUS that goes on at event `at`, after `waited`
    /// milliseconds of waits: it ends with a state, or with nothing when its
    /// timeout has passed.
    pub open spec fn polled(self, log: Seq<Event>, at: int, start: u64, waited: nat) -> Option<
        Run<Option<EraseWait>>,
    >
        decreases log.len() - at,
    {
        match ap_read_at(log, at, self.ap, CTRL_AP_ERASEALLSTATUS) {
            None => None,
            Some(reply) => match erase_state(self.status, self.busy_is_wait, reply.ok()) {
                Some(state) => done(Some(state), at + 1),
                None => match clock_at(log, at + 1) {
                    None => None,
                    Some(now) => {
                        let lasted = elapsed(start, now, waited);
                        if lasted >= self.timeout * NANOS_PER_MILLI {
                            done(None, at + 2)
                        } else if slept_at(log, at + 2, self.interval) {
                            prefixed(
                                seq![Report::Progress(self.tick(lasted))],
                                self.polled(log, at + 3, start, waited + self.interval as nat),
                            )
                        } else {
                            None
                        }
                    },
                },
            },
        }
    }

    /// The progress after `lasted` nanoseconds.
    pub open spec fn tick(self, lasted: nat) -> Progress {
        Progress {
            phase: Phase::Recover,
            from: self.from,
            to: self.to,
            done: lasted as u64,
            total: (self.timeout * NANOS_PER_MILLI) as u64,
        }
    }

    /// A whole poll, from its first look at the clock.
    pub open spec fn waited(self, log: Seq<Event>, at: int) -> Option<Run<Option<EraseWait>>> {
        bind(clocked(log, at), |start: u64, at: int| self.polled(log, at, start, 0))
    }

    /// A longer log shows the same poll.
    pub proof fn lemma_polled_stable(
        self,
        log: Seq<Event>,
        later: Seq<Event>,
        at: int,
        start: u64,
        waited: nat,
    )
        requires
            extends(log, later),
            self.polled(log, at, start, waited) is Some,
        ensures
            self.polled(later, at, start, waited) == self.polled(log, at, start, waited),
        decreases log.len() - at,
    {
        let reply = ap_read_at(log, at, self.ap, CTRL_AP_ERASEALLSTATUS)->0;
        if erase_state(self.status, self.busy_is_wait, reply.ok()) is None {
            let lasted = elapsed(start, clock_at(log, at + 1)->0, waited);
            if lasted < self.timeout * NANOS_PER_MILLI {
                self.lemma_polled_stable(
                    log,
                    later,
                    at + 3,
                    start,
                    waited + self.interval as nat,
                );
            }
        }
    }
}

/// Nordic platform handler.
pub struct NordicHandler {
    cfg: TargetConfig,
    timing: Timing,
}

impl NordicHandler {
    #[verifier::type_invariant]
    spec fn paced(self) -> bool {
        self.timing == Timing::device() || self.timing == Timing::zero()
    }

    /// The target definition that the handler is bound to.
    pub closed spec fn config(self) -> TargetConfig {
        self.cfg
    }

    /// The delays and timeouts that the handler keeps.
    pub closed spec fn times(self) -> Timing {
        self.timing
    }

    /// The delays and timeouts that the handler keeps.
    pub(crate) fn timing(&self) -> (r: Timing)
        ensures
            r == self.times(),
            r == Timing::device() || r == Timing::zero(),
    {
        proof {
            use_type_invariant(self);
        }
        self.timing
    }

    /// The id of the target that the handler is bound to.
    pub(crate) fn target_id(&self) -> (r: String)
        ensures
            r == self.config().id,
    {
        self.cfg.id.clone()
    }

    /// Creates a handler bound to a target definition.
    pub fn new(cfg: TargetConfig) -> (r: NordicHandler)
        ensures
            r.config() == cfg,
            r.times() == Timing::device(),
    {
        NordicHandler { cfg, timing: Timing::default() }
    }

    /// Creates a handler that waits for nothing.
    pub fn new_for_test(cfg: TargetConfig) -> (r: NordicHandler)
        ensures
            r.config() == cfg,
            r.times() == Timing::zero(),
    {
        NordicHandler { cfg, timing: Timing::instant() }
    }

    /// The target's CTRL-AP definition, or an error if it is missing.
    pub fn ctrl_ap(&self) -> (r: Result<CtrlAp, Error>)
        ensures
            r == (match self.config().ctrl_ap {
                Some(ctrl) => Ok(ctrl),
                None => Err(Error::MissingCtrlAp { target: self.config().id }),
            }),
    {
        match self.cfg.ctrl_ap {
            Some(ctrl) => Ok(ctrl),
            None => Err(Error::MissingCtrlAp { target: self.cfg.id.clone() }),
        }
    }

    /// The target's ERASEALLSTATUS codes, or an error if they are missing.
    pub fn erase_status(&self) -> (r: Result<EraseAllStatus, Error>)
        ensures
            r == (match self.config().erase_all_status {
                Some(status) => Ok(status),
                None => Err(Error::MissingEraseAllStatus { target: self.config().id }),
            }),
    {
        match self.cfg.erase_all_status {
            Some(status) => Ok(status),
            None => Err(Error::MissingEraseAllStatus { target: self.cfg.id.clone() }),
        }
    }

    /// The target's flash controller definition, or an error if it is missing.
    pub fn flash_controller(&self) -> (r: Result<&FlashController, Error>)
        ensures
            match (self.config().flash_controller, r) {
                (Some(fc), Ok(found)) => *found == fc,
                (None, Err(e)) => e == (Error::MissingFlashController {
                    target: self.config().id,
                }),
                _ => false,
            },
    {
        match &self.cfg.flash_controller {
            Some(fc) => Ok(fc),
            None => Err(Error::MissingFlashController { target: self.cfg.id.clone() }),
        }
    }

    /// The phase of waiting for an erase to start (`busy_is_wait` unset) or to
    /// complete.
    pub open spec fn phase(
        self,
        ctrl: CtrlAp,
        status: EraseAllStatus,
        busy_is_wait: bool,
    ) -> ErasePhase {
        ErasePhase {
            ap: ctrl.num,
            status,
            busy_is_wait,
            timeout: self.times().erase_timeout,
            interval: self.times().erase_interval,
            from: if busy_is_wait {
                30
            } else {
                0
            },
            to: if busy_is_wait {
                80
            } else {
                30
            },
        }
    }

    /// Waits for ERASEALLSTATUS to reach one of the known states, mapping the
    /// progress into the percentages of the phase.
    #[verifier::rlimit(40)]
    fn wait_erase_status<I: DapIo, P: ProgressFn>(
        &self,
        io: &mut I,
        progress: &mut P,
        phase: &ErasePhase,
    ) -> (r: Option<EraseWait>)
        requires
            phase.timeout <= 100_000,
            phase.interval <= 100_000,
            phase.timeout > 0 ==> phase.interval > 0,
            phase.from <= phase.to <= 100,
        ensures
            extends(old(io).log(), final(io).log()),
            ran(
                phase.waited(final(io).log(), old(io).log().len() as int),
                Ok(r),
                old(progress).reports(),
                final(progress).reports(),
                final(io).log().len(),
            ),
    {
        let ghost at = io.log().len() as int;
        let start: u64 = io.now();
        let mut waited: u64 = 0;
        let ghost mut reports: Seq<Report> = Seq::empty();
        assert(progress.reports() =~= old(progress).reports() + reports);
        assert forall|l: Seq<Event>| #[trigger] extends(io.log(), l) implies phase.polled(
            l,
            at + 1,
            start,
            0,
        ) == prefixed(reports, phase.polled(l, at + 1, start, 0)) by {
            let run = phase.polled(l, at + 1, start, 0);
            if run is Some {
                assert(reports + run->0.reports =~= run->0.reports);
            }
        }
        loop
            invariant
                phase.timeout <= 100_000,
                phase.interval <= 100_000,
                phase.timeout > 0 ==> phase.interval > 0,
                phase.from <= phase.to <= 100,
                waited <= phase.timeout + phase.interval,
                at == old(io).log().len(),
                extends(old(io).log(), io.log()),
                clock_at(io.log(), at) == Some(start),
                progress.reports() == old(progress).reports() + reports,
                forall|l: Seq<Event>| #[trigger]
                    extends(io.log(), l) ==> phase.polled(l, at + 1, start, 0) == prefixed(
                        reports,
                        phase.polled(l, io.log().len() as int, start, waited as nat),
                    ),
            decreases phase.timeout + phase.interval - waited,
        {
            let ghost before = io.log();
            let ghost from = before.len() as int;
            let reading = try_read_ap(io, phase.ap, CTRL_AP_ERASEALLSTATUS);
            assert(extends(before, io.log()));
            let state = match reading {
                Some(v) => if v == phase.status.busy {
                    if phase.busy_is_wait {
                        None
                    } else {
                        Some(EraseWait::Busy)
                    }
                } else if v == phase.status.error {
                    Some(EraseWait::Error)
                } else if v == phase.status.ready_to_reset {
                    Some(EraseWait::Done)
                } else {
                    None
                },
                None => None,
            };
            if state.is_some() {
                assert(reports + Seq::<Report>::empty() =~= reports);
                return state;
            }
            let left = time_left(io, start, waited, phase.timeout);
            assert(extends(before, io.log()));
            match left {
                None => {
                    assert(reports + Seq::<Report>::empty() =~= reports);
                    return None;
                },
                Some(lasted) => {
                    let tick = Progress {
                        phase: Phase::Recover,
                        from: phase.from,
                        to: phase.to,
                        done: lasted,
                        total: phase.timeout * NANOS_PER_MILLI,
                    };
                    progress.report(tick);
                    io.sleep(phase.interval);
                    proof {
                        let so_far = reports;
                        let was = waited as nat;
                        reports = reports.push(Report::Progress(tick));
                        assert(extends(before, io.log()));
                        assert forall|l: Seq<Event>| #[trigger]
                            extends(io.log(), l) implies phase.polled(l, at + 1, start, 0)
                            == prefixed(
                            reports,
                            phase.polled(l, from + 3, start, was + phase.interval as nat),
                        ) by {
                            assert(extends(before, l));
                            let rest = phase.polled(
                                l,
                                from + 3,
                                start,
                                was + phase.interval as nat,
                            );
                            assert(l[from] == io.log()[from]);
                            assert(l[from + 1] == io.log()[from + 1]);
                            assert(l[from + 2] == io.log()[from + 2]);
                            assert(phase.polled(l, from, start, was) == prefixed(
                                seq![Report::Progress(tick)],
                                rest,
                            ));
                            if rest is Some {
                                assert(so_far + (seq![Report::Progress(tick)]
                                    + rest->0.reports) =~= reports + rest->0.reports);
                            }
                        }
                        assert(progress.reports() =~= old(progress).reports() + reports);
                    }
                    waited = waited + phase.interval;
                },
            }
        }
    }

    /// One mass erase: ERASEALL is cleared and triggered, and ERASEALLSTATUS
    /// awaited. It returns whether the device reported that it is ready to be
    /// reset.
    pub open spec fn erased(self, log: Seq<Event>, at: int) -> Option<Run<bool>> {
        match (self.config().ctrl_ap, self.config().erase_all_status) {
            (None, _) => failed(Error::MissingCtrlAp { target: self.config().id }, at),
            (Some(_), None) => failed(
                Error::MissingEraseAllStatus { target: self.config().id },
                at,
            ),
            (Some(ctrl), Some(status)) => bind(
                transferred(ap_write_at(log, at, ctrl.num, CTRL_AP_ERASEALL, 0), at),
                |_w: (), at: int|
                    bind(
                        slept(log, at, self.times().settle_short),
                        |_s: (), at: int|
                            bind(
                                transferred(
                                    ap_write_at(log, at, ctrl.num, CTRL_AP_ERASEALL, 1),
                                    at,
                                ),
                                |_t: (), at: int| self.erase_awaited(ctrl, status, log, at),
                            ),
                    ),
            ),
        }
    }

    /// The wait for a mass erase that was triggered.
    pub open spec fn erase_awaited(
        self,
        ctrl: CtrlAp,
        status: EraseAllStatus,
        log: Seq<Event>,
        at: int,
    ) -> Option<Run<bool>> {
        bind(
            self.phase(ctrl, status, false).waited(log, at),
            |state: Option<EraseWait>, at: int|
                if state == Some(EraseWait::Busy) {
                    bind(
                        self.phase(ctrl, status, true).waited(log, at),
                        |state: Option<EraseWait>, at: int|
                            done(state == Some(EraseWait::Done), at),
                    )
                } else {
                    done(state == Some(EraseWait::Done), at)
                },
        )
    }

    /// A longer log shows the same mass erase.
    proof fn lemma_erased_stable(self, log: Seq<Event>, later: Seq<Event>, at: int)
        requires
            extends(log, later),
            self.erased(log, at) is Some,
        ensures
            self.erased(later, at) == self.erased(log, at),
    {
        if self.config().ctrl_ap is Some && self.config().erase_all_status is Some {
            let ctrl = self.config().ctrl_ap->0;
            let status = self.config().erase_all_status->0;
            if self.erase_awaited(ctrl, status, log, at + 3) is Some {
                self.lemma_erase_awaited_stable(ctrl, status, log, later, at + 3);
            }
        }
    }

    proof fn lemma_erase_awaited_stable(
        self,
        ctrl: CtrlAp,
        status: EraseAllStatus,
        log: Seq<Event>,
        later: Seq<Event>,
        at: int,
    )
        requires
            extends(log, later),
            self.erase_awaited(ctrl, status, log, at) is Some,
        ensures
            self.erase_awaited(ctrl, status, later, at) == self.erase_awaited(
                ctrl,
                status,
                log,
                at,
            ),
    {
        let start = clock_at(log, at)->0;
        let first = self.phase(ctrl, status, false);
        first.lemma_polled_stable(log, later, at + 1, start, 0);
        let run = first.waited(log, at)->0;
        if run.result == Ok::<Option<EraseWait>, Error>(Some(EraseWait::Busy)) {
            let second = self.phase(ctrl, status, true);
            second.lemma_polled_stable(log, later, run.end + 1, clock_at(log, run.end)->0, 0);
        }
    }

    /// Triggers ERASEALL and waits for completion. A failure that a second
    /// attempt may mend is told as `false` rather than as an error.
    #[verifier::rlimit(40)]
    fn attempt_erase_all<I: DapIo, P: ProgressFn>(
        &self,
        io: &mut I,
        progress: &mut P,
    ) -> (r: Result<bool, Error>)
        ensures
            extends(old(io).log(), final(io).log()),
            ran(
                self.erased(final(io).log(), old(io).log().len() as int),
                r,
                old(progress).reports(),
                final(progress).reports(),
                final(io).log().len(),
            ),
    {
        proof {
            use_type_invariant(self);
        }
        let ghost at = io.log().len() as int;
        assert(progress.reports() + Seq::<Report>::empty() =~= progress.reports());
        let ctrl = match self.ctrl_ap() {
            Ok(ctrl) => ctrl,
            Err(e) => return Err(e),
        };
        let status = match self.erase_status() {
            Ok(status) => status,
            Err(e) => return Err(e),
        };
        if let Err(e) = io.write_ap(ctrl.num, CTRL_AP_ERASEALL, 0) {
            return Err(Error::Transfer(e));
        }
        io.sleep(self.timing.settle_short);
        if let Err(e) = io.write_ap(ctrl.num, CTRL_AP_ERASEALL, 1) {
            return Err(Error::Transfer(e));
        }
        let phase = ErasePhase {
            ap: ctrl.num,
            status,
            busy_is_wait: false,
            timeout: self.timing.erase_timeout,
            interval: self.timing.erase_interval,
            from: 0,
            to: 30,
        };
        let first = self.wait_erase_status(io, progress, &phase);
        let ghost started = io.log();
        let ghost start_run = phase.waited(started, at + 3)->0;
        match first {
            Some(EraseWait::Busy) => {},
            Some(EraseWait::Done) => {
                assert(start_run.reports + Seq::<Report>::empty() =~= start_run.reports);
                return Ok(true);
            },
            _ => {
                assert(start_run.reports + Seq::<Report>::empty() =~= start_run.reports);
                return Ok(false);
            },
        }
        let phase = ErasePhase {
            ap: ctrl.num,
            status,
            busy_is_wait: true,
            timeout: self.timing.erase_timeout,
            interval: self.timing.erase_interval,
            from: 30,
            to: 80,
        };
        let second = self.wait_erase_status(io, progress, &phase);
        proof {
            self.phase(ctrl, status, false).lemma_polled_stable(
                started,
                io.log(),
                at + 4,
                clock_at(started, at + 3)->0,
                0,
            );
        }
        assert(progress.reports() =~= old(progress).reports() + self.erased(
            io.log(),
            at,
        )->0.reports);
        match second {
            Some(EraseWait::Done) => Ok(true),
            _ => Ok(false),
        }
    }

    /// A mass erase, with one more attempt behind a reconnection where the
    /// first did not succeed.
    pub open spec fn mass_erased(self, log: Seq<Event>, at: int) -> Option<Run<()>> {
        bind(
            self.erased(log, at),
            |first: bool, at: int|
                if first {
                    done((), at)
                } else {
                    bind(
                        warned(Some(Warning::EraseRetried), at),
                        |_n: (), at: int| self.erase_retried(log, at),
                    )
                },
        )
    }

    /// The second attempt at a mass erase, behind a reconnection.
    pub open spec fn erase_retried(self, log: Seq<Event>, at: int) -> Option<Run<()>> {
        bind(
            transferred(reinitialize_at(log, at), at),
            |_r: (), at: int|
                bind(
                    slept(log, at, self.times().reconnect),
                    |_s: (), at: int|
                        bind(
                            self.erased(log, at),
                            |second: bool, at: int|
                                if second {
                                    done((), at)
                                } else {
                                    failed(Error::EraseFailed, at)
                                },
                        ),
                ),
        )
    }

    /// A longer log shows the same mass erase.
    proof fn lemma_mass_erased_stable(self, log: Seq<Event>, later: Seq<Event>, at: int)
        requires
            extends(log, later),
            self.mass_erased(log, at) is Some,
        ensures
            self.mass_erased(later, at) == self.mass_erased(log, at),
    {
        self.lemma_erased_stable(log, later, at);
        let first = self.erased(log, at)->0;
        if first.result == Ok::<bool, Error>(false) {
            if self.erased(log, first.end + 2) is Some {
                self.lemma_erased_stable(log, later, first.end + 2);
            }
        }
    }

    /// Erases the device, with one attempt more where the first fails.
    #[verifier::rlimit(40)]
    fn mass_erase<I: DapIo, P: ProgressFn>(
        &self,
        io: &mut I,
        progress: &mut P,
    ) -> (r: Result<(), Error>)
        ensures
            extends(old(io).log(), final(io).log()),
            ran(
                self.mass_erased(final(io).log(), old(io).log().len() as int),
                r,
                old(progress).reports(),
                final(progress).reports(),
                final(io).log().len(),
            ),
    {
        let ghost at = io.log().len() as int;
        let attempt = self.attempt_erase_all(io, progress);
        let ghost tried = io.log();
        let ghost first = self.erased(tried, at)->0;
        assert(first.reports + Seq::<Report>::empty() =~= first.reports);
        match attempt {
            Err(e) => return Err(e),
            Ok(true) => return Ok(()),
            Ok(false) => {},
        }
        progress.warn(Warning::EraseRetried);
        if let Err(e) = io.reinitialize() {
            proof {
                self.lemma_erased_stable(tried, io.log(), at);
                assert(progress.reports() =~= old(progress).reports() + self.mass_erased(
                    io.log(),
                    at,
                )->0.reports);
            }
            return Err(Error::Transfer(e));
        }
        io.sleep(self.timing.reconnect);
        let attempt = self.attempt_erase_all(io, progress);
        proof {
            self.lemma_erased_stable(tried, io.log(), at);
            assert(progress.reports() =~= old(progress).reports() + self.mass_erased(
                io.log(),
                at,
            )->0.reports);
        }
        match attempt {
            Err(e) => Err(e),
            Ok(true) => Ok(()),
            Ok(false) => Err(Error::EraseFailed),
        }
    }

    /// A look at whether the device is unlocked. A device that reports itself
    /// locked gets a reconnection and a second look; one whose state cannot be
    /// read at first is let through with a warning.
    pub open spec fn unlock_confirmed(self, ctrl: CtrlAp, log: Seq<Event>, at: int) -> Option<
        Run<()>,
    > {
        bind(
            attempted(ap_read_at(log, at, ctrl.num, CTRL_AP_IDR), at),
            |_idr: Option<u32>, at: int|
                bind(
                    attempted(ap_read_at(log, at, ctrl.num, CTRL_AP_ERASEPROTECTSTATUS), at),
                    |protect: Option<u32>, at: int|
                        match protect {
                            None => warned(Some(Warning::LockUnread), at),
                            Some(v) => if v >= 1 {
                                done((), at)
                            } else {
                                bind(
                                    warned(Some(Warning::MaybeLocked), at),
                                    |_n: (), at: int| self.unlock_retried(ctrl, log, at),
                                )
                            },
                        },
                ),
        )
    }

    /// The second look at whether the device is unlocked.
    pub open spec fn unlock_retried(self, ctrl: CtrlAp, log: Seq<Event>, at: int) -> Option<
        Run<()>,
    > {
        bind(
            slept(log, at, self.times().settle_reset),
            |_s: (), at: int|
                bind(
                    answered(reinitialize_at(log, at), at),
                    |reply: Result<(), DapError>, at: int|
                        bind(
                            warned(
                                match reply {
                                    Ok(_) => None,
                                    Err(source) => Some(Warning::UnlockReconnectFailed { source }),
                                },
                                at,
                            ),
                            |_n: (), at: int| self.lock_seen(ctrl, log, at),
                        ),
                ),
        )
    }

    /// The last look at whether the device is unlocked, which decides.
    pub open spec fn lock_seen(self, ctrl: CtrlAp, log: Seq<Event>, at: int) -> Option<Run<()>> {
        bind(
            slept(log, at, self.times().reconnect),
            |_s: (), at: int|
                bind(
                    attempted(ap_read_at(log, at, ctrl.num, CTRL_AP_ERASEPROTECTSTATUS), at),
                    |protect: Option<u32>, at: int|
                        if protect is None || protect == Some(0u32) {
                            failed(Error::StillLocked, at)
                        } else {
                            done((), at)
                        },
                ),
        )
    }

    /// Confirms that the device is accessible and unlocked after recovery.
    #[verifier::rlimit(40)]
    fn verify_recovery<I: DapIo, P: ProgressFn>(
        &self,
        io: &mut I,
        progress: &mut P,
        ctrl: CtrlAp,
    ) -> (r: Result<(), Error>)
        ensures
            extends(old(io).log(), final(io).log()),
            ran(
                self.unlock_confirmed(ctrl, final(io).log(), old(io).log().len() as int),
                r,
                old(progress).reports(),
                final(progress).reports(),
                final(io).log().len(),
            ),
    {
        let ghost at = io.log().len() as int;
        let ghost told = progress.reports();
        let _idr = try_read_ap(io, ctrl.num, CTRL_AP_IDR);
        let protect = try_read_ap(io, ctrl.num, CTRL_AP_ERASEPROTECTSTATUS);
        match protect {
            Some(v) => if v >= 1 {
                assert(told =~= told + self.unlock_confirmed(ctrl, io.log(), at)->0.reports);
                return Ok(());
            },
            None => {
                progress.warn(Warning::LockUnread);
                assert(progress.reports() =~= told + self.unlock_confirmed(
                    ctrl,
                    io.log(),
                    at,
                )->0.reports);
                return Ok(());
            },
        }
        progress.warn(Warning::MaybeLocked);
        io.sleep(self.timing.settle_reset);
        if let Err(source) = io.reinitialize() {
            progress.warn(Warning::UnlockReconnectFailed { source });
        }
        io.sleep(self.timing.reconnect);
        let protect = try_read_ap(io, ctrl.num, CTRL_AP_ERASEPROTECTSTATUS);
        assert(progress.reports() =~= told + self.unlock_confirmed(
            ctrl,
            io.log(),
            at,
        )->0.reports);
        match protect {
            Some(v) => if v >= 1 {
                Ok(())
            } else {
                Err(Error::StillLocked)
            },
            None => Err(Error::StillLocked),
        }
    }

    /// The reset that follows a mass erase, and the reconnection behind it.
    pub open spec fn settled(self, ctrl: CtrlAp, log: Seq<Event>, at: int) -> Option<Run<()>> {
        bind(
            reported(Progress::recovered(80), at),
            |_p: (), at: int|
                bind(
                    slept(log, at, self.times().settle_short),
                    |_s: (), at: int|
                        bind(
                            transferred(ap_write_at(log, at, ctrl.num, CTRL_AP_RESET, 2), at),
                            |_w: (), at: int|
                                bind(
                                    slept(log, at, self.times().settle_short),
                                    |_s: (), at: int| self.released(ctrl, log, at),
                                ),
                        ),
                ),
        )
    }

    /// The end of the reset that follows a mass erase, and the reconnection
    /// behind it.
    pub open spec fn released(self, ctrl: CtrlAp, log: Seq<Event>, at: int) -> Option<Run<()>> {
        bind(
            transferred(ap_write_at(log, at, ctrl.num, CTRL_AP_RESET, 0), at),
            |_w: (), at: int|
                bind(
                    transferred(ap_write_at(log, at, ctrl.num, CTRL_AP_ERASEALL, 0), at),
                    |_w: (), at: int|
                        bind(
                            slept(log, at, self.times().settle_reset),
                            |_s: (), at: int|
                                bind(
                                    reported(Progress::recovered(85), at),
                                    |_p: (), at: int|
                                        bind(
                                            answered(reinitialize_at(log, at), at),
                                            |reply: Result<(), DapError>, at: int|
                                                self.reconnected(reply, log, at),
                                        ),
                                ),
                        ),
                ),
        )
    }

    /// What follows the reconnection behind a mass erase, which may fail.
    pub open spec fn reconnected(
        self,
        reply: Result<(), DapError>,
        log: Seq<Event>,
        at: int,
    ) -> Option<Run<()>> {
        bind(
            warned(
                match reply {
                    Ok(_) => None,
                    Err(source) => Some(Warning::ReconnectFailed { source }),
                },
                at,
            ),
            |_n: (), at: int|
                bind(
                    slept(log, at, self.times().reconnect),
                    |_s: (), at: int| reported(Progress::recovered(90), at),
                ),
        )
    }

    /// Resets the device after a mass erase and reconnects.
    #[verifier::rlimit(40)]
    fn settle<I: DapIo, P: ProgressFn>(
        &self,
        io: &mut I,
        progress: &mut P,
        ctrl: CtrlAp,
    ) -> (r: Result<(), Error>)
        ensures
            extends(old(io).log(), final(io).log()),
            ran(
                self.settled(ctrl, final(io).log(), old(io).log().len() as int),
                r,
                old(progress).reports(),
                final(progress).reports(),
                final(io).log().len(),
            ),
    {
        let ghost at = io.log().len() as int;
        progress.report(percent_recovered(80));
        let ghost first = Report::Progress(Progress::recovered(80));
        assert(progress.reports() =~= old(progress).reports() + seq![first]);
        assert(seq![first] + Seq::<Report>::empty() =~= seq![first]);
        assert(Seq::<Report>::empty() + Seq::<Report>::empty() =~= Seq::<Report>::empty());
        io.sleep(self.timing.settle_short);
        if let Err(e) = io.write_ap(ctrl.num, CTRL_AP_RESET, 2) {
            return Err(Error::Transfer(e));
        }
        io.sleep(self.timing.settle_short);
        if let Err(e) = io.write_ap(ctrl.num, CTRL_AP_RESET, 0) {
            return Err(Error::Transfer(e));
        }
        if let Err(e) = io.write_ap(ctrl.num, CTRL_AP_ERASEALL, 0) {
            return Err(Error::Transfer(e));
        }
        io.sleep(self.timing.settle_reset);
        progress.report(percent_recovered(85));
        if let Err(source) = io.reinitialize() {
            progress.warn(Warning::ReconnectFailed { source });
        }
        io.sleep(self.timing.reconnect);
        progress.report(percent_recovered(90));
        assert(progress.reports() =~= old(progress).reports() + self.settled(
            ctrl,
            io.log(),
            at,
        )->0.reports);
        Ok(())
    }
}

/// The warning that a CTRL-AP's identification gives.
pub open spec fn idr_warning(ctrl: CtrlAp, idr: Option<u32>) -> Option<Warning> {
    match idr {
        None => Some(Warning::IdrUnread),
        Some(found) => if found != ctrl.idr {
            Some(Warning::UnexpectedIdr { found, expected: ctrl.idr })
        } else {
            None
        },
    }
}

impl NordicHandler {
    /// What a recovery does behind its look at the CTRL-AP's IDR.
    pub open spec fn unlocked(self, ctrl: CtrlAp, log: Seq<Event>, at: int) -> Option<Run<()>> {
        bind(
            self.mass_erased(log, at),
            |_e: (), at: int|
                bind(
                    self.settled(ctrl, log, at),
                    |_s: (), at: int|
                        bind(
                            self.unlock_confirmed(ctrl, log, at),
                            |_u: (), at: int| reported(Progress::recovered(100), at),
                        ),
                ),
        )
    }

    /// Erases and resets the device, and confirms that it is unlocked.
    #[verifier::rlimit(40)]
    fn unlock<I: DapIo, P: ProgressFn>(
        &self,
        io: &mut I,
        progress: &mut P,
        ctrl: CtrlAp,
    ) -> (r: Result<(), Error>)
        ensures
            extends(old(io).log(), final(io).log()),
            ran(
                self.unlocked(ctrl, final(io).log(), old(io).log().len() as int),
                r,
                old(progress).reports(),
                final(progress).reports(),
                final(io).log().len(),
            ),
    {
        let ghost at = io.log().len() as int;
        let ghost told = progress.reports();
        let outcome = self.mass_erase(io, progress);
        let ghost erased = io.log();
        if let Err(e) = outcome {
            assert(progress.reports() =~= told + self.unlocked(ctrl, io.log(), at)->0.reports);
            return Err(e);
        }
        let ghost mid = erased.len() as int;
        let outcome = self.settle(io, progress, ctrl);
        let ghost settled = io.log();
        proof {
            self.lemma_mass_erased_stable(erased, settled, at);
        }
        if let Err(e) = outcome {
            assert(progress.reports() =~= told + self.unlocked(ctrl, io.log(), at)->0.reports);
            return Err(e);
        }
        let outcome = self.verify_recovery(io, progress, ctrl);
        proof {
            self.lemma_mass_erased_stable(erased, io.log(), at);
            self.lemma_settled_stable(ctrl, settled, io.log(), mid);
        }
        if let Err(e) = outcome {
            assert(progress.reports() =~= told + self.unlocked(ctrl, io.log(), at)->0.reports);
            return Err(e);
        }
        progress.report(percent_recovered(100));
        assert(progress.reports() =~= told + self.unlocked(ctrl, io.log(), at)->0.reports);
        Ok(())
    }
}

impl PlatformHandler for NordicHandler {
    /// A recovery: a look at the CTRL-AP's IDR, which may give a warning, a mass
    /// erase, a reset, and a look at whether the device is unlocked.
    open spec fn recovered(&self, log: Seq<Event>, at: int) -> Option<Run<()>> {
        match self.config().ctrl_ap {
            None => failed(Error::MissingCtrlAp { target: self.config().id }, at),
            Some(ctrl) => bind(
                attempted(ap_read_at(log, at, ctrl.num, CTRL_AP_IDR), at),
                |idr: Option<u32>, at: int|
                    bind(
                        warned(idr_warning(ctrl, idr), at),
                        |_n: (), at: int| self.unlocked(ctrl, log, at),
                    ),
            ),
        }
    }

    open spec fn flashed(&self, firmware: FirmwareView, log: Seq<Event>, at: int) -> Option<
        Run<()>,
    > {
        self.image_flashed(firmware, log, at)
    }

    open spec fn verified(&self, firmware: FirmwareView, log: Seq<Event>, at: int) -> Option<
        Run<VerifyOutcome>,
    > {
        self.image_verified(firmware, log, at)
    }

    /// A pulse of the CTRL-AP's RESET register.
    open spec fn restarted(&self, log: Seq<Event>, at: int) -> Option<Run<()>> {
        match self.config().ctrl_ap {
            None => failed(Error::MissingCtrlAp { target: self.config().id }, at),
            Some(ctrl) => bind(
                transferred(ap_write_at(log, at, ctrl.num, CTRL_AP_RESET, 2), at),
                |_w: (), at: int|
                    bind(
                        slept(log, at, self.times().settle_short),
                        |_s: (), at: int|
                            bind(
                                transferred(ap_write_at(log, at, ctrl.num, CTRL_AP_RESET, 0), at),
                                |_w: (), at: int| slept(log, at, self.times().post_reset),
                            ),
                    ),
            ),
        }
    }

    open spec fn registers_fit(&self) -> bool {
        self.register_addresses_fit()
    }

    #[verifier::rlimit(40)]
    proof fn lemma_stable(
        &self,
        firmware: FirmwareView,
        log: Seq<Event>,
        later: Seq<Event>,
        at: int,
    ) {
        if self.recovered(log, at) is Some {
            self.lemma_recovered_stable(log, later, at);
        }
        if self.flashed(firmware, log, at) is Some {
            self.lemma_controller_enabled_stable(log, later, at);
            let ready = self.controller_enabled(log, at)->0;
            if words_written(firmware, log, ready.end, 0) is Some {
                lemma_words_written_stable(firmware, log, later, ready.end, 0);
            }
        }
        if self.verified(firmware, log, at) is Some {
            lemma_words_read_back_stable(firmware, log, later, at, Seq::empty());
        }
    }

    /// Unlocks the device with a CTRL-AP mass erase, then resets it and confirms
    /// that it is accessible.
    #[verifier::rlimit(40)]
    fn recover<I: DapIo, P: ProgressFn>(
        &self,
        io: &mut I,
        progress: &mut P,
    ) -> (r: Result<(), Error>) {
        let ghost at = io.log().len() as int;
        let ghost told = progress.reports();
        assert(told + Seq::<Report>::empty() =~= told);
        let ctrl = match self.ctrl_ap() {
            Ok(ctrl) => ctrl,
            Err(e) => return Err(e),
        };
        match try_read_ap(io, ctrl.num, CTRL_AP_IDR) {
            Some(found) => if found != ctrl.idr {
                progress.warn(Warning::UnexpectedIdr { found, expected: ctrl.idr });
            },
            None => {
                progress.warn(Warning::IdrUnread);
            },
        }
        let outcome = self.unlock(io, progress, ctrl);
        assert(progress.reports() =~= told + self.recovered(io.log(), at)->0.reports);
        outcome
    }

    fn flash<I: DapIo, P: ProgressFn>(
        &self,
        io: &mut I,
        firmware: &Firmware,
        progress: &mut P,
    ) -> (r: Result<(), Error>) {
        self.flash_impl(io, firmware, progress)
    }

    fn verify<I: DapIo, P: ProgressFn>(
        &self,
        io: &mut I,
        firmware: &Firmware,
        progress: &mut P,
    ) -> (r: Result<VerifyOutcome, Error>) {
        self.verify_impl(io, firmware, progress)
    }

    /// Pulses the CTRL-AP's RESET register to reset the device.
    fn reset<I: DapIo>(&self, io: &mut I) -> (r: Result<(), Error>) {
        assert(Seq::<Report>::empty() + Seq::<Report>::empty() =~= Seq::<Report>::empty());
        let ctrl = match self.ctrl_ap() {
            Ok(ctrl) => ctrl,
            Err(e) => return Err(e),
        };
        if let Err(e) = io.write_ap(ctrl.num, CTRL_AP_RESET, 2) {
            return Err(Error::Transfer(e));
        }
        io.sleep(self.timing.settle_short);
        if let Err(e) = io.write_ap(ctrl.num, CTRL_AP_RESET, 0) {
            return Err(Error::Transfer(e));
        }
        io.sleep(self.timing.post_reset);
        Ok(())
    }
}

impl NordicHandler {
    /// A longer log shows the same reset.
    proof fn lemma_settled_stable(
        self,
        ctrl: CtrlAp,
        log: Seq<Event>,
        later: Seq<Event>,
        at: int,
    )
        requires
            extends(log, later),
            self.settled(ctrl, log, at) is Some,
        ensures
            self.settled(ctrl, later, at) == self.settled(ctrl, log, at),
    {
        if self.released(ctrl, log, at + 3) is Some {
            assert(self.released(ctrl, later, at + 3) == self.released(ctrl, log, at + 3));
        }
    }

    /// A longer log shows the same look at the lock.
    proof fn lemma_unlock_stable(
        self,
        ctrl: CtrlAp,
        log: Seq<Event>,
        later: Seq<Event>,
        at: int,
    )
        requires
            extends(log, later),
            self.unlock_confirmed(ctrl, log, at) is Some,
        ensures
            self.unlock_confirmed(ctrl, later, at) == self.unlock_confirmed(ctrl, log, at),
    {
        if self.unlock_retried(ctrl, log, at + 2) is Some {
            assert(self.unlock_retried(ctrl, later, at + 2) == self.unlock_retried(
                ctrl,
                log,
                at + 2,
            ));
        }
    }

    /// A longer log shows the same recovery.
    #[verifier::rlimit(40)]
    proof fn lemma_recovered_stable(&self, log: Seq<Event>, later: Seq<Event>, at: int)
        requires
            extends(log, later),
            self.recovered(log, at) is Some,
        ensures
            self.recovered(later, at) == self.recovered(log, at),
    {
        if let Some(ctrl) = self.config().ctrl_ap {
            self.lemma_mass_erased_stable(log, later, at + 1);
            let erased = self.mass_erased(log, at + 1)->0;
            if erased.result is Ok {
                self.lemma_settled_stable(ctrl, log, later, erased.end);
                let settled = self.settled(ctrl, log, erased.end)->0;
                if settled.result is Ok {
                    self.lemma_unlock_stable(ctrl, log, later, settled.end);
                }
            }
        }
    }
}

} // verus!
