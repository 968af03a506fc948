//! What a recovery does to a device, how long it waits, and why it fails.

use vstd::prelude::*;

use crate::dap::io::{DapError, Event, ap_read_at, ap_write_at, clock_at, reinitialize_at};
use crate::dap::run::{Run, failed};
use crate::error::Error;
use crate::platform::{Phase, PlatformHandler, Progress, Report, Warning};
use crate::platform::nordic::{
    CTRL_AP_ERASEALL, CTRL_AP_ERASEALLSTATUS, CTRL_AP_ERASEPROTECTSTATUS, CTRL_AP_IDR, ErasePhase,
    EraseWait, NANOS_PER_MILLI, NordicHandler, Timing, elapsed, erase_state, idr_warning,
};
use crate::targets::definition::{CtrlAp, EraseAllStatus, TargetConfig};

verus! {

/// The milliseconds that the host waited in the events `from` up to `to`.
pub open spec fn slept_between(log: Seq<Event>, from: int, to: int) -> nat
    decreases to - from,
{
    if to <= from {
        0
    } else {
        slept_between(log, from, to - 1) + match log[to - 1] {
            Event::Sleep { millis } => millis as nat,
            _ => 0,
        }
    }
}

/// Whether `millis` milliseconds passed from the look at the clock in event `from`
/// to that in event `to`: by the clock, or by the waits in between.
pub open spec fn passed(log: Seq<Event>, from: int, to: int, millis: nat) -> bool {
    &&& 0 <= from < to < log.len()
    &&& log[from] matches Event::Clock { nanos: first } && log[to] matches Event::Clock {
        nanos: last,
    } && (last - first >= millis * 1_000_000 || slept_between(log, from, to) >= millis)
}

/// Whether the event is a reading of ERASEALLSTATUS that shows `code`.
pub open spec fn status_shown(event: Event, ap: u8, code: u32) -> bool {
    event == (Event::ReadAp { ap, reg: 0x008, result: Ok::<u32, DapError>(code) })
}

/// Whether the event triggers a mass erase.
pub open spec fn is_trigger(event: Event) -> bool {
    event matches Event::WriteAp { reg, value, .. } && reg == 0x004 && value == 1
}

/// Whether the event belongs to a poll of ERASEALLSTATUS: a reading, a look at the
/// clock, or a wait of `interval` milliseconds.
pub open spec fn polls(event: Event, ap: u8, interval: u64) -> bool {
    match event {
        Event::ReadAp { ap: a, reg, .. } => a == ap && reg == 0x008,
        Event::Clock { .. } => true,
        Event::Sleep { millis } => millis == interval,
        _ => false,
    }
}

/// Whether the codes of ERASEALLSTATUS can be told apart.
pub open spec fn codes_differ(status: EraseAllStatus) -> bool {
    &&& status.busy != status.error
    &&& status.busy != status.ready_to_reset
    &&& status.error != status.ready_to_reset
}

/// Whether event `e` is reason to give an erase up that was triggered in event
/// `trigger`: the device showed an error, or `millis` milliseconds passed in one
/// phase of waiting.
pub open spec fn given_up(
    log: Seq<Event>,
    ap: u8,
    status: EraseAllStatus,
    trigger: int,
    e: int,
    millis: nat,
) -> bool {
    &&& trigger < e
    &&& status_shown(log[e], ap, status.error) || exists|a: int|
        trigger < a < e && #[trigger] passed(log, a, e, millis)
}

pub proof fn lemma_slept_between(log: Seq<Event>, from: int, mid: int, millis: u64)
    requires
        from <= mid,
        0 <= mid,
        mid + 2 < log.len(),
        log[mid + 2] == (Event::Sleep { millis }),
        !(log[mid] is Sleep),
        !(log[mid + 1] is Sleep),
    ensures
        slept_between(log, from, mid + 3) == slept_between(log, from, mid) + millis,
{
    reveal_with_fuel(slept_between, 4);
}

/// What a poll of ERASEALLSTATUS ends with is what its last event shows, and no
/// earlier event shows it.
proof fn lemma_poll(
    phase: ErasePhase,
    log: Seq<Event>,
    first: int,
    at: int,
    start: u64,
    waited: nat,
)
    requires
        0 <= first < at,
        clock_at(log, first) == Some(start),
        waited == slept_between(log, first, at),
        phase.polled(log, at, start, waited) is Some,
    ensures
        ({
            let run = phase.polled(log, at, start, waited)->0;
            let s = phase.status;
            &&& at < run.end <= log.len()
            &&& run.result is Ok
            &&& match run.result->Ok_0 {
                None => first < run.end - 1 && passed(
                    log,
                    first,
                    run.end - 1,
                    phase.timeout as nat,
                ),
                Some(EraseWait::Busy) => !phase.busy_is_wait && status_shown(
                    log[run.end - 1],
                    phase.ap,
                    s.busy,
                ),
                Some(EraseWait::Error) => status_shown(log[run.end - 1], phase.ap, s.error),
                Some(EraseWait::Done) => status_shown(log[run.end - 1], phase.ap, s.ready_to_reset),
            }
            &&& codes_differ(s) ==> forall|k: int|
                at <= k < run.end - 1 ==> !status_shown(#[trigger] log[k], phase.ap, s.error)
                    && !status_shown(log[k], phase.ap, s.ready_to_reset)
            &&& forall|k: int|
                at <= k < run.end ==> polls(#[trigger] log[k], phase.ap, phase.interval)
        }),
    decreases log.len() - at,
{
    let reply = ap_read_at(log, at, phase.ap, CTRL_AP_ERASEALLSTATUS)->0;
    if erase_state(phase.status, phase.busy_is_wait, reply.ok()) is None {
        let now = clock_at(log, at + 1)->0;
        let lasted = elapsed(start, now, waited);
        if lasted < phase.timeout * NANOS_PER_MILLI {
            lemma_slept_between(log, first, at, phase.interval);
            lemma_poll(phase, log, first, at + 3, start, waited + phase.interval as nat);
        } else {
            reveal_with_fuel(slept_between, 2);
            assert(slept_between(log, first, at + 1) == waited);
        }
    }
}

/// A whole wait for ERASEALLSTATUS, from its first look at the clock.
proof fn lemma_wait(phase: ErasePhase, log: Seq<Event>, at: int)
    requires
        0 <= at,
        phase.waited(log, at) is Some,
    ensures
        ({
            let run = phase.waited(log, at)->0;
            let s = phase.status;
            &&& at + 1 < run.end <= log.len()
            &&& run.result is Ok
            &&& match run.result->Ok_0 {
                None => passed(log, at, run.end - 1, phase.timeout as nat),
                Some(EraseWait::Busy) => !phase.busy_is_wait && status_shown(
                    log[run.end - 1],
                    phase.ap,
                    s.busy,
                ),
                Some(EraseWait::Error) => status_shown(log[run.end - 1], phase.ap, s.error),
                Some(EraseWait::Done) => status_shown(log[run.end - 1], phase.ap, s.ready_to_reset),
            }
            &&& codes_differ(s) ==> forall|k: int|
                at <= k < run.end - 1 ==> !status_shown(#[trigger] log[k], phase.ap, s.error)
                    && !status_shown(log[k], phase.ap, s.ready_to_reset)
            &&& forall|k: int|
                at <= k < run.end ==> polls(#[trigger] log[k], phase.ap, phase.interval)
        }),
{
    reveal_with_fuel(slept_between, 2);
    let start = clock_at(log, at)->0;
    assert(slept_between(log, at, at + 1) == 0);
    lemma_poll(phase, log, at, at + 1, start, 0);
}

/// One attempt at a mass erase ends as soon as the device shows that it is done or
/// has failed, and gives up only after the whole timeout of a phase.
pub proof fn law_erase_attempt_waits(handler: NordicHandler, log: Seq<Event>, at: int)
    requires
        0 <= at,
        handler.erased(log, at) is Some,
        handler.config().ctrl_ap is Some,
        handler.config().erase_all_status is Some,
    ensures
        ({
            let run = handler.erased(log, at)->0;
            let ap = handler.config().ctrl_ap->0.num;
            let status = handler.config().erase_all_status->0;
            let timeout = handler.times().erase_timeout as nat;
            &&& run.result is Ok ==> {
                &&& at + 2 < run.end - 1
                &&& log[at] == (Event::WriteAp {
                    ap,
                    reg: 0x004,
                    value: 0,
                    result: Ok::<(), DapError>(()),
                })
                &&& log[at + 1] == (Event::Sleep { millis: handler.times().settle_short })
                &&& log[at + 2] == (Event::WriteAp {
                    ap,
                    reg: 0x004,
                    value: 1,
                    result: Ok::<(), DapError>(()),
                })
                &&& codes_differ(status) ==> forall|k: int|
                    at + 2 < k < run.end - 1 ==> !status_shown(#[trigger] log[k], ap, status.error)
                        && !status_shown(log[k], ap, status.ready_to_reset)
                &&& forall|k: int|
                    at + 2 < k < run.end ==> polls(
                        #[trigger] log[k],
                        ap,
                        handler.times().erase_interval,
                    )
            }
            &&& run.result == Ok::<bool, Error>(true) ==> status_shown(
                log[run.end - 1],
                ap,
                status.ready_to_reset,
            )
            &&& run.result == Ok::<bool, Error>(false) ==> given_up(
                log,
                ap,
                status,
                at + 2,
                run.end - 1,
                timeout,
            )
            &&& run.result matches Err(e) ==> e is Transfer && at < run.end && write_failed_with(
                log[run.end - 1],
                e->Transfer_0,
            ) && log[run.end - 1] is WriteAp
            &&& forall|k: int|
                at <= k < run.end && is_trigger(#[trigger] log[k]) ==> k == at + 2
            &&& at <= run.end <= log.len()
        }),
{
    let ctrl = handler.config().ctrl_ap->0;
    let status = handler.config().erase_all_status->0;
    if handler.erase_awaited(ctrl, status, log, at + 3) is Some {
        let one = handler.phase(ctrl, status, false);
        lemma_wait(one, log, at + 3);
        let first = one.waited(log, at + 3)->0;
        if first.result->Ok_0 == Some(EraseWait::Busy) {
            let two = handler.phase(ctrl, status, true);
            lemma_wait(two, log, first.end);
        }
    }
}

/// Whether the event is a register write or a reconnection that failed.
pub open spec fn write_failed_with(event: Event, source: DapError) -> bool {
    match event {
        Event::WriteAp { result, .. } => result == Err::<(), DapError>(source),
        Event::Reinitialize { result } => result == Err::<(), DapError>(source),
        _ => false,
    }
}

/// The attempts at a mass erase: where they are triggered, and how they fail.
proof fn lemma_attempts(handler: NordicHandler, log: Seq<Event>, at: int)
    requires
        0 <= at,
        handler.mass_erased(log, at) is Some,
        handler.config().ctrl_ap is Some,
        handler.config().erase_all_status is Some,
    ensures
        ({
            let run = handler.mass_erased(log, at)->0;
            let first = handler.erased(log, at)->0;
            let retried = first.result == Ok::<bool, Error>(false);
            let second = handler.erased(log, first.end + 2)->0;
            &&& handler.erased(log, at) is Some
            &&& at <= first.end <= run.end <= log.len()
            &&& run.result is Err ==> (run.result->Err_0 is Transfer && at < run.end
                && write_failed_with(log[run.end - 1], run.result->Err_0->Transfer_0) && (
            log[run.end - 1] is WriteAp || (retried && run.end == first.end + 1)))
                || run.result->Err_0 is EraseFailed
            &&& run.result == Err::<(), Error>(Error::EraseFailed) ==> retried && handler.erased(
                log,
                first.end + 2,
            ) is Some && second.result == Ok::<bool, Error>(false) && run.end == second.end
            &&& forall|k: int|
                at <= k < run.end && is_trigger(#[trigger] log[k]) ==> k == at + 2 || (retried && k
                    == first.end + 4)
        }),
{
    law_erase_attempt_waits(handler, log, at);
    let first = handler.erased(log, at)->0;
    if first.result == Ok::<bool, Error>(false) {
        assert(handler.erase_retried(log, first.end) is Some);
        if handler.erased(log, first.end + 2) is Some {
            law_erase_attempt_waits(handler, log, first.end + 2);
        }
    }
}

/// The parts of a recovery: where its attempts at a mass erase end.
#[verifier::rlimit(40)]
proof fn lemma_parts(handler: NordicHandler, log: Seq<Event>, at: int)
    requires
        0 <= at,
        handler.recovered(log, at) is Some,
        handler.config().ctrl_ap is Some,
        handler.config().erase_all_status is Some,
    ensures
        ({
            let run = handler.recovered(log, at)->0;
            let first = handler.erased(log, at + 1)->0;
            let retried = first.result == Ok::<bool, Error>(false);
            let second = handler.erased(log, first.end + 2)->0;
            &&& handler.erased(log, at + 1) is Some
            &&& first.end <= run.end <= log.len()
            &&& run.result is Err ==> (run.result->Err_0 is Transfer && at < run.end
                && write_failed_with(log[run.end - 1], run.result->Err_0->Transfer_0) && (
            log[run.end - 1] is WriteAp || (retried && run.end == first.end + 1)))
                || run.result->Err_0 is EraseFailed || (run.result->Err_0 is StillLocked && at
                <= run.end - 6 && still_locked(log, handler.config().ctrl_ap->0.num, run.end))
            &&& run.result == Err::<(), Error>(Error::EraseFailed) ==> retried && handler.erased(
                log,
                first.end + 2,
            ) is Some && second.result == Ok::<bool, Error>(false) && run.end == second.end
            &&& forall|k: int|
                at <= k < run.end && is_trigger(#[trigger] log[k]) ==> k == at + 3 || (retried && k
                    == first.end + 4)
        }),
{
    let ctrl = handler.config().ctrl_ap->0;
    assert(handler.unlocked(ctrl, log, at + 1) is Some);
    lemma_attempts(handler, log, at + 1);
    lemma_rest(handler, ctrl, log, at + 1);
    let run = handler.recovered(log, at)->0;
    let rest = handler.unlocked(ctrl, log, at + 1)->0;
    assert(run.result == rest.result && run.end == rest.end);
}

/// Whether both looks at the lock before `end` show a device that is not unlocked.
pub open spec fn still_locked(log: Seq<Event>, ap: u8, end: int) -> bool {
    &&& lock_shown(log[end - 5], ap, Some(0))
    &&& lock_shown(log[end - 1], ap, Some(0)) || lock_shown(log[end - 1], ap, None)
}

/// What follows the attempts triggers no further erase.
proof fn lemma_rest(handler: NordicHandler, ctrl: CtrlAp, log: Seq<Event>, at: int)
    requires
        0 <= at,
        handler.unlocked(ctrl, log, at) is Some,
        handler.mass_erased(log, at) is Some,
        at <= handler.mass_erased(log, at)->0.end <= log.len(),
    ensures
        ({
            let run = handler.unlocked(ctrl, log, at)->0;
            let erased = handler.mass_erased(log, at)->0;
            &&& erased.end <= run.end <= log.len()
            &&& erased.result matches Err(e) ==> run.result == Err::<(), Error>(e) && run.end
                == erased.end
            &&& erased.result is Ok && run.result is Err ==> (run.result->Err_0 is Transfer && at
                < run.end && write_failed_with(log[run.end - 1], run.result->Err_0->Transfer_0)
                && log[run.end - 1] is WriteAp) || (run.result->Err_0 is StillLocked && at
                <= run.end - 6 && still_locked(log, ctrl.num, run.end))
            &&& forall|k: int| erased.end <= k < run.end ==> !is_trigger(#[trigger] log[k])
        }),
{
    let erased = handler.mass_erased(log, at)->0;
    if erased.result is Ok {
        lemma_settled_events(handler, ctrl, log, erased.end);
        let settled = handler.settled(ctrl, log, erased.end)->0;
        if settled.result is Ok {
            lemma_unlock_events(handler, ctrl, log, settled.end);
        }
    }
}

proof fn lemma_settled_events(handler: NordicHandler, ctrl: CtrlAp, log: Seq<Event>, at: int)
    requires
        0 <= at <= log.len(),
        handler.settled(ctrl, log, at) is Some,
    ensures
        ({
            let run = handler.settled(ctrl, log, at)->0;
            &&& at <= run.end <= log.len()
            &&& run.result matches Err(e) ==> e is Transfer && at < run.end && write_failed_with(
                log[run.end - 1],
                e->Transfer_0,
            ) && log[run.end - 1] is WriteAp
            &&& forall|k: int| at <= k < run.end ==> !is_trigger(#[trigger] log[k])
        }),
{
    let run = handler.settled(ctrl, log, at)->0;
    assert(handler.released(ctrl, log, at + 3) is Some || run.end <= at + 3);
    assert forall|k: int| at <= k < run.end implies !is_trigger(#[trigger] log[k]) by {
        let d = k - at;
        assert(d == 0 || d == 1 || d == 2 || d == 3 || d == 4 || d == 5 || d == 6 || d == 7);
    }
}

proof fn lemma_unlock_events(handler: NordicHandler, ctrl: CtrlAp, log: Seq<Event>, at: int)
    requires
        0 <= at <= log.len(),
        handler.unlock_confirmed(ctrl, log, at) is Some,
    ensures
        ({
            let run = handler.unlock_confirmed(ctrl, log, at)->0;
            &&& at <= run.end <= log.len()
            &&& run.result matches Err(e) ==> e is StillLocked && run.end == at + 6
                && lock_shown(log[at + 1], ctrl.num, Some(0)) && (lock_shown(
                log[at + 5],
                ctrl.num,
                Some(0),
            ) || lock_shown(log[at + 5], ctrl.num, None))
            &&& forall|k: int| at <= k < run.end ==> !is_trigger(#[trigger] log[k])
        }),
{
}

/// Whether the event is a look at ERASEPROTECTSTATUS that shows a value, or fails.
pub open spec fn lock_shown(event: Event, ap: u8, value: Option<u32>) -> bool {
    event matches Event::ReadAp { ap: a, reg, result } && a == ap && reg == 0x00C && (
    match value {
        Some(v) => result == Ok::<u32, DapError>(v),
        None => result is Err,
    })
}

/// Whether the device is connected anew behind event `e`, and the trigger of an
/// erase taken back, with the delays of real devices.
pub open spec fn retry_led_in(log: Seq<Event>, ap: u8, e: int) -> bool {
    &&& log[e + 1] matches Event::Reinitialize { result } && result is Ok
    &&& log[e + 2] == (Event::Sleep { millis: 200 })
    &&& register_written(log[e + 3], ap, 0x004, 0)
    &&& log[e + 4] == (Event::Sleep { millis: 10 })
}

/// What leads in a second attempt.
#[verifier::rlimit(40)]
proof fn lemma_retry(handler: NordicHandler, log: Seq<Event>, at: int)
    requires
        0 <= at,
        handler.times() == Timing::device(),
        handler.config().ctrl_ap is Some,
        handler.config().erase_all_status is Some,
        handler.recovered(log, at) is Some,
        handler.erased(log, at + 1) matches Some(one) && one.result == Ok::<bool, Error>(false),
        handler.erased(log, at + 1)->0.end + 4 < handler.recovered(log, at)->0.end,
        is_trigger(log[handler.erased(log, at + 1)->0.end + 4]),
    ensures
        retry_led_in(
            log,
            handler.config().ctrl_ap->0.num,
            handler.erased(log, at + 1)->0.end - 1,
        ),
        handler.recovered(log, at)->0.reports.contains(Report::Warning(Warning::EraseRetried)),
{
    let ctrl = handler.config().ctrl_ap->0;
    let one = handler.erased(log, at + 1)->0;
    let rest = handler.unlocked(ctrl, log, at + 1)->0;
    let erased = handler.mass_erased(log, at + 1)->0;
    let again = handler.erase_retried(log, one.end)->0;
    assert(handler.unlocked(ctrl, log, at + 1) is Some);
    assert(handler.mass_erased(log, at + 1) is Some);
    assert(handler.erase_retried(log, one.end) is Some);
    let run = handler.recovered(log, at)->0;
    if !(reinitialize_at(log, one.end) matches Some(Ok(_))) {
        assert(run.end == one.end + 1);
    }
    assert(handler.erased(log, one.end + 2) is Some);
    let two = handler.erased(log, one.end + 2)->0;
    if !(ap_write_at(log, one.end + 2, ctrl.num, CTRL_AP_ERASEALL, 0) matches Some(Ok(_))) {
        assert(run.end == one.end + 3);
    }
    let told = Report::Warning(Warning::EraseRetried);
    assert(erased.reports == one.reports + (seq![told] + again.reports));
    assert(erased.reports[one.reports.len() as int] == told);
    let front = match idr_warning(ctrl, ap_read_at(log, at, ctrl.num, CTRL_AP_IDR)->0.ok()) {
        Some(warning) => seq![Report::Warning(warning)],
        None => Seq::<Report>::empty(),
    };
    assert(rest.reports.len() >= erased.reports.len());
    assert(rest.reports[one.reports.len() as int] == told);
    assert(run.reports =~= front + rest.reports);
    assert(run.reports[front.len() + one.reports.len() as int] == told);
}

/// A mass erase is triggered a second time only when the first has shown an error,
/// or has been waited for 30 seconds in one phase: while it starts, or while it
/// runs. An erase that comes to its end before, however long it is busy, is
/// triggered once. The second attempt is told, and led in by a reconnection.
pub proof fn law_erase_is_awaited_before_retry(
    handler: NordicHandler,
    log: Seq<Event>,
    at: int,
    first: int,
    second: int,
)
    requires
        0 <= at,
        handler.times() == Timing::device(),
        handler.recovered(log, at) matches Some(run) && at <= first < second < run.end,
        is_trigger(log[first]),
        is_trigger(log[second]),
    ensures
        handler.config().ctrl_ap is Some,
        handler.config().erase_all_status is Some,
        exists|e: int|
            first < e && second == e + 5 && #[trigger] given_up(
                log,
                handler.config().ctrl_ap->0.num,
                handler.config().erase_all_status->0,
                first,
                e,
                30_000,
            ) && retry_led_in(log, handler.config().ctrl_ap->0.num, e),
        handler.recovered(log, at)->0.reports.contains(Report::Warning(Warning::EraseRetried)),
{
    if handler.config().ctrl_ap is Some && handler.config().erase_all_status is None {
        assert(handler.recovered(log, at)->0.end <= at + 1);
    }
    lemma_parts(handler, log, at);
    law_erase_attempt_waits(handler, log, at + 1);
    let one = handler.erased(log, at + 1)->0;
    let e = one.end - 1;
    lemma_retry(handler, log, at);
    assert(given_up(
        log,
        handler.config().ctrl_ap->0.num,
        handler.config().erase_all_status->0,
        first,
        e,
        30_000,
    ));
}

/// A recovery says that both attempts failed only when each of them has shown an
/// error or has been waited for 30 seconds in one phase.
pub proof fn law_erase_fails_after_two_attempts(handler: NordicHandler, log: Seq<Event>, at: int)
    requires
        0 <= at,
        handler.times() == Timing::device(),
        handler.recovered(log, at) matches Some(run) && run.result == Err::<(), Error>(
            Error::EraseFailed,
        ),
    ensures
        handler.config().ctrl_ap is Some,
        handler.config().erase_all_status is Some,
        ({
            let ap = handler.config().ctrl_ap->0.num;
            let status = handler.config().erase_all_status->0;
            let end = handler.recovered(log, at)->0.end;
            exists|first: int, e: int, second: int|
                at < first < e < second < end - 1 && is_trigger(log[first]) && is_trigger(
                    log[second],
                ) && #[trigger] given_up(log, ap, status, first, e, 30_000) && #[trigger] given_up(
                    log,
                    ap,
                    status,
                    second,
                    end - 1,
                    30_000,
                )
        }),
{
    if handler.config().ctrl_ap is Some && handler.config().erase_all_status is None {
        assert(handler.mass_erased(log, at + 1) == failed::<()>(
            Error::MissingEraseAllStatus { target: handler.config().id },
            at + 1,
        ));
    }
    lemma_parts(handler, log, at);
    law_erase_attempt_waits(handler, log, at + 1);
    let one = handler.erased(log, at + 1)->0;
    law_erase_attempt_waits(handler, log, one.end + 2);
    let ap = handler.config().ctrl_ap->0.num;
    let status = handler.config().erase_all_status->0;
    let end = handler.recovered(log, at)->0.end;
    assert(given_up(log, ap, status, at + 3, one.end - 1, 30_000));
    assert(given_up(log, ap, status, one.end + 4, end - 1, 30_000));
    assert(is_trigger(log[at + 3]) && is_trigger(log[one.end + 4]));
}

/// An erase that shows no error, and is not waited for 30 seconds in one phase, is
/// triggered once, and the recovery does not give it up.
pub proof fn law_good_erase_is_triggered_once(
    handler: NordicHandler,
    log: Seq<Event>,
    at: int,
    first: int,
)
    requires
        0 <= at,
        handler.times() == Timing::device(),
        handler.config().ctrl_ap is Some,
        handler.config().erase_all_status is Some,
        handler.recovered(log, at) matches Some(run) && at <= first < run.end,
        is_trigger(log[first]),
        forall|k: int| at <= k < first ==> !is_trigger(#[trigger] log[k]),
        forall|e: int|
            first < e < handler.recovered(log, at)->0.end ==> !#[trigger] given_up(
                log,
                handler.config().ctrl_ap->0.num,
                handler.config().erase_all_status->0,
                first,
                e,
                30_000,
            ),
    ensures
        forall|k: int|
            at <= k < handler.recovered(log, at)->0.end && is_trigger(#[trigger] log[k]) ==> k
                == first,
        handler.recovered(log, at)->0.result != Err::<(), Error>(Error::EraseFailed),
{
    let end = handler.recovered(log, at)->0.end;
    assert forall|k: int| at <= k < end && is_trigger(#[trigger] log[k]) implies k == first by {
        if first < k {
            law_erase_is_awaited_before_retry(handler, log, at, first, k);
        }
    }
    if handler.recovered(log, at)->0.result == Err::<(), Error>(Error::EraseFailed) {
        law_erase_fails_after_two_attempts(handler, log, at);
        let ap = handler.config().ctrl_ap->0.num;
        let status = handler.config().erase_all_status->0;
        let (a, e, b) = choose|a: int, e: int, b: int|
            at < a < e < b < end - 1 && is_trigger(log[a]) && is_trigger(log[b])
                && #[trigger] given_up(log, ap, status, a, e, 30_000) && #[trigger] given_up(
                log,
                ap,
                status,
                b,
                end - 1,
                30_000,
            );
        assert(a == first && b == first);
    }
}

/// A recovery fails only for a cause: the target lacks what it needs, a write to a
/// register failed, or the reconnection between the two attempts, both attempts
/// failed, or the device shows itself locked to the end.
pub proof fn law_recover_fails_for_a_cause(handler: NordicHandler, log: Seq<Event>, at: int)
    requires
        0 <= at,
        handler.times() == Timing::device(),
        handler.recovered(log, at) matches Some(run) && run.result is Err,
    ensures
        ({
            let run = handler.recovered(log, at)->0;
            let e = run.result->Err_0;
            let config = handler.config();
            &&& config.ctrl_ap is None ==> e == (Error::MissingCtrlAp { target: config.id })
                && run.end == at
            &&& config.ctrl_ap is Some && config.erase_all_status is None ==> e == (
            Error::MissingEraseAllStatus { target: config.id }) && run.end == at + 1
            &&& config.ctrl_ap is Some && config.erase_all_status is Some ==> e is Transfer || e
                is EraseFailed || e is StillLocked
            &&& e matches Error::Transfer(source) ==> at < run.end && write_failed_with(
                log[run.end - 1],
                source,
            ) && (log[run.end - 1] is WriteAp || given_up(
                log,
                config.ctrl_ap->0.num,
                config.erase_all_status->0,
                at + 3,
                run.end - 2,
                30_000,
            ))
            &&& e is StillLocked ==> at <= run.end - 6 && still_locked(
                log,
                config.ctrl_ap->0.num,
                run.end,
            )
        }),
{
    if handler.config().ctrl_ap is Some {
        if handler.config().erase_all_status is Some {
            lemma_parts(handler, log, at);
            law_erase_attempt_waits(handler, log, at + 1);
        } else {
            assert(handler.unlocked(handler.config().ctrl_ap->0, log, at + 1) is Some);
            assert(handler.erased(log, at + 1) == failed::<bool>(
                Error::MissingEraseAllStatus { target: handler.config().id },
                at + 1,
            ));
        }
    }
}

/// Whether the event is a successful write to a register of the CTRL-AP.
pub open spec fn register_written(event: Event, ap: u8, reg: u64, value: u32) -> bool {
    event matches Event::WriteAp { ap: a, reg: r, value: v, result: Ok(_) } && a == ap && r == reg
        && v == value
}

/// Whether the events behind event `seen` reset a device, connect it anew and see
/// it unlocked, with the delays of real devices, and end at `end`.
pub open spec fn freed(log: Seq<Event>, ap: u8, seen: int, end: int) -> bool {
    &&& log[seen + 1] == (Event::Sleep { millis: 10 })
    &&& register_written(log[seen + 2], ap, 0x000, 2)
    &&& log[seen + 3] == (Event::Sleep { millis: 10 })
    &&& register_written(log[seen + 4], ap, 0x000, 0)
    &&& register_written(log[seen + 5], ap, 0x004, 0)
    &&& log[seen + 6] == (Event::Sleep { millis: 500 })
    &&& log[seen + 7] is Reinitialize
    &&& log[seen + 8] == (Event::Sleep { millis: 200 })
    &&& log[seen + 9] matches Event::ReadAp { ap: a, reg, .. } && a == ap && reg == 0x0FC
    &&& log[seen + 10] matches Event::ReadAp { ap: a, reg, result } && a == ap && reg == 0x00C && (
    match result {
        Ok(v) => v >= 1 || {
            &&& log[seen + 11] == (Event::Sleep { millis: 500 })
            &&& log[seen + 12] is Reinitialize
            &&& log[seen + 13] == (Event::Sleep { millis: 200 })
            &&& log[seen + 14] matches Event::ReadAp { ap: a, reg, result: Ok(w) } && a == ap && reg
                == 0x00C && w >= 1
        },
        Err(_) => true,
    })
    &&& end == if lock_shown(log[seen + 10], ap, Some(0)) {
        seen + 15
    } else {
        seen + 11
    }
}

/// The report of a percentage of a recovery.
pub open spec fn percent(n: u64) -> Report {
    Report::Progress(Progress { phase: Phase::Recover, from: n, to: n, done: 0, total: 1 })
}

/// What a reconnection gives to report.
pub open spec fn reconnection_told(event: Event, second: bool) -> Seq<Report> {
    match event {
        Event::Reinitialize { result: Err(source) } => if second {
            seq![Report::Warning(Warning::UnlockReconnectFailed { source })]
        } else {
            seq![Report::Warning(Warning::ReconnectFailed { source })]
        },
        _ => seq![],
    }
}

/// What the events behind event `seen` give to report.
pub open spec fn freed_told(log: Seq<Event>, seen: int) -> Seq<Report> {
    seq![percent(80), percent(85)] + reconnection_told(log[seen + 7], false) + seq![percent(90)] + (
    match log[seen + 10] {
        Event::ReadAp { result: Err(_), .. } => seq![Report::Warning(Warning::LockUnread)],
        Event::ReadAp { result: Ok(v), .. } => if v == 0 {
            seq![Report::Warning(Warning::MaybeLocked)] + reconnection_told(log[seen + 12], true)
        } else {
            seq![]
        },
        _ => seq![],
    }) + seq![percent(100)]
}

/// Whether a recovery that ended at `end` erased, reset and unlocked a device, and
/// told so.
pub open spec fn recovered_by(
    log: Seq<Event>,
    ap: u8,
    status: EraseAllStatus,
    seen: int,
    run: Run<()>,
) -> bool {
    &&& status_shown(log[seen], ap, status.ready_to_reset)
    &&& freed(log, ap, seen, run.end)
    &&& freed_told(log, seen).is_suffix_of(run.reports)
}

/// A successful recovery of a real device has seen the erase complete; then it
/// resets the device, connects it anew and sees it unlocked, and tells so. What it
/// tells last is that it is done.
#[verifier::rlimit(40)]
pub proof fn law_recover_frees_device(handler: NordicHandler, log: Seq<Event>, at: int)
    requires
        0 <= at,
        handler.times() == Timing::device(),
        handler.recovered(log, at) matches Some(run) && run.result is Ok,
    ensures
        handler.config().ctrl_ap is Some,
        handler.config().erase_all_status is Some,
        exists|seen: int|
            at + 3 < seen && #[trigger] recovered_by(
                log,
                handler.config().ctrl_ap->0.num,
                handler.config().erase_all_status->0,
                seen,
                handler.recovered(log, at)->0,
            ),
{
    let ctrl = handler.config().ctrl_ap->0;
    let run = handler.recovered(log, at)->0;
    assert(handler.unlocked(ctrl, log, at + 1) is Some);
    let erased = handler.mass_erased(log, at + 1)->0;
    assert(handler.erased(log, at + 1) is Some);
    let status = handler.config().erase_all_status->0;
    lemma_attempts(handler, log, at + 1);
    law_erase_attempt_waits(handler, log, at + 1);
    let first = handler.erased(log, at + 1)->0;
    if first.result == Ok::<bool, Error>(false) {
        assert(handler.erase_retried(log, first.end) is Some);
        law_erase_attempt_waits(handler, log, first.end + 2);
    }
    let seen = erased.end - 1;
    assert(status_shown(log[seen], ctrl.num, status.ready_to_reset));
    lemma_freed(handler, ctrl, log, erased.end);
    let settled = handler.settled(ctrl, log, erased.end)->0;
    let confirmed = handler.unlock_confirmed(ctrl, log, settled.end)->0;
    let told = freed_told(log, seen);
    assert(told =~= settled.reports + confirmed.reports + seq![percent(100)]);
    let front = match idr_warning(ctrl, ap_read_at(log, at, ctrl.num, CTRL_AP_IDR)->0.ok()) {
        Some(warning) => seq![Report::Warning(warning)],
        None => seq![],
    } + erased.reports;
    assert(run.reports =~= front + told);
    assert(run.reports.skip(front.len() as int) =~= told);
    assert(told.is_suffix_of(run.reports));
    assert(recovered_by(log, ctrl.num, status, seen, run));
}

proof fn lemma_freed(handler: NordicHandler, ctrl: CtrlAp, log: Seq<Event>, at: int)
    requires
        0 < at,
        handler.times() == Timing::device(),
        handler.settled(ctrl, log, at) matches Some(settled) && settled.result is Ok && (
        handler.unlock_confirmed(ctrl, log, settled.end) matches Some(run) && run.result is Ok),
    ensures
        ({
            let settled = handler.settled(ctrl, log, at)->0;
            let confirmed = handler.unlock_confirmed(ctrl, log, settled.end)->0;
            &&& freed(log, ctrl.num, at - 1, confirmed.end)
            &&& settled.reports + confirmed.reports + seq![percent(100)] == freed_told(log, at - 1)
        }),
{
    let settled = handler.settled(ctrl, log, at)->0;
    assert(handler.released(ctrl, log, at + 3) is Some);
    assert(settled.reports =~= seq![percent(80), percent(85)] + reconnection_told(
        log[at + 6],
        false,
    ) + seq![percent(90)]);
    assert(settled.end == at + 8);
    let confirmed = handler.unlock_confirmed(ctrl, log, settled.end)->0;
    lemma_confirmed_told(handler, ctrl, log, at + 8);
    assert(settled.reports + confirmed.reports + seq![percent(100)] =~= freed_told(log, at - 1));
}

proof fn lemma_confirmed_told(handler: NordicHandler, ctrl: CtrlAp, log: Seq<Event>, at: int)
    requires
        0 < at,
        handler.unlock_confirmed(ctrl, log, at) matches Some(run) && run.result is Ok,
    ensures
        handler.unlock_confirmed(ctrl, log, at)->0.reports == (match log[at + 1] {
            Event::ReadAp { result: Err(_), .. } => seq![Report::Warning(Warning::LockUnread)],
            Event::ReadAp { result: Ok(v), .. } => if v == 0 {
                seq![Report::Warning(Warning::MaybeLocked)] + reconnection_told(log[at + 3], true)
            } else {
                seq![]
            },
            _ => seq![],
        }),
{
    let run = handler.unlock_confirmed(ctrl, log, at)->0;
    if let Event::ReadAp { result: Ok(v), .. } = log[at + 1] {
        if v == 0 {
            assert(handler.unlock_retried(ctrl, log, at + 2) is Some);
            assert(run.reports =~= seq![Report::Warning(Warning::MaybeLocked)] + reconnection_told(
                log[at + 3],
                true,
            ));
        } else {
            assert(run.reports =~= seq![]);
        }
    } else {
        assert(run.reports =~= seq![Report::Warning(Warning::LockUnread)]);
    }
}

/// A recovery first looks at the CTRL-AP's identification, and warns where it is
/// not the expected one or cannot be read.
pub proof fn law_recover_warns_of_identification(handler: NordicHandler, log: Seq<Event>, at: int)
    requires
        0 <= at,
        handler.config().ctrl_ap is Some,
        handler.recovered(log, at) is Some,
    ensures
        ({
            let ctrl = handler.config().ctrl_ap->0;
            let reports = handler.recovered(log, at)->0.reports;
            &&& log[at] matches Event::ReadAp { ap, reg, result } && ap == ctrl.num && reg == 0x0FC
                && (match result {
                Err(_) => reports.len() > 0 && reports[0] == Report::Warning(Warning::IdrUnread),
                Ok(found) => found != ctrl.idr ==> reports.len() > 0 && reports[0]
                    == Report::Warning(Warning::UnexpectedIdr { found, expected: ctrl.idr }),
            })
        }),
{
    assert(handler.unlocked(handler.config().ctrl_ap->0, log, at + 1) is Some);
}

/// A reset pulses RESET for 10 milliseconds, then waits for 100, and fails only
/// where there is no CTRL-AP or a write failed.
pub proof fn law_reset_pulses_and_settles(handler: NordicHandler, log: Seq<Event>, at: int)
    requires
        0 <= at,
        handler.times() == Timing::device(),
        handler.restarted(log, at) is Some,
    ensures
        ({
            let run = handler.restarted(log, at)->0;
            let ap = handler.config().ctrl_ap->0.num;
            &&& run.result is Ok ==> {
                &&& handler.config().ctrl_ap is Some
                &&& run.end == at + 4
                &&& register_written(log[at], ap, 0x000, 2)
                &&& log[at + 1] == (Event::Sleep { millis: 10 })
                &&& register_written(log[at + 2], ap, 0x000, 0)
                &&& log[at + 3] == (Event::Sleep { millis: 100 })
            }
            &&& run.result matches Err(e) ==> if handler.config().ctrl_ap is None {
                e == (Error::MissingCtrlAp { target: handler.config().id }) && run.end == at
            } else {
                e is Transfer && at < run.end && write_failed_with(
                    log[run.end - 1],
                    e->Transfer_0,
                )
            }
            &&& run.reports.len() == 0
        }),
{
}

/// The timing of real devices, in milliseconds, and the one that waits for nothing.
pub proof fn law_timings(other: Timing)
    ensures
        other == Timing::device() <==> other.erase_timeout == 30_000 && other.erase_interval == 100
            && other.ready_timeout == 1_000 && other.ready_interval == 10 && other.settle_short
            == 10 && other.settle_reset == 500 && other.reconnect == 200 && other.post_reset == 100,
        other == Timing::zero() <==> other.erase_timeout == 0 && other.erase_interval == 0
            && other.ready_timeout == 0 && other.ready_interval == 0 && other.settle_short == 0
            && other.settle_reset == 0 && other.reconnect == 0 && other.post_reset == 0,
{
}

/// The nanoseconds that have passed at a look at the clock: what the clock shows,
/// and no less than `waited` milliseconds.
pub open spec fn passed_by(start: u64, now: u64, waited: nat) -> int {
    if now - start >= waited * 1_000_000 {
        now - start
    } else {
        waited as int * 1_000_000
    }
}

/// Whether `r` reports a part of a wait of 30 seconds, on the way from `from` to
/// `to` percent, for the look at the clock in event `k`: it tells how long the wait
/// that began with event `first` has lasted.
pub open spec fn tick_at(
    log: Seq<Event>,
    first: int,
    k: int,
    from: u64,
    to: u64,
    r: Report,
) -> bool {
    &&& first < k
    &&& log[first] matches Event::Clock { nanos: start } && log[k] matches Event::Clock {
        nanos: now,
    } && (r matches Report::Progress(p) && p.phase == Phase::Recover && p.from == from && p.to == to
        && p.total == 30_000_000_000 && p.done == passed_by(
        start,
        now,
        slept_between(log, first, k),
    ) && p.done < p.total)
}

proof fn lemma_ticks(
    phase: ErasePhase,
    log: Seq<Event>,
    first: int,
    at: int,
    start: u64,
    waited: nat,
)
    requires
        phase.timeout == 30_000,
        0 <= first < at,
        clock_at(log, first) == Some(start),
        waited == slept_between(log, first, at),
        phase.polled(log, at, start, waited) is Some,
    ensures
        ({
            let run = phase.polled(log, at, start, waited)->0;
            forall|i: int|
                0 <= i < run.reports.len() ==> tick_at(
                    log,
                    first,
                    at + 3 * i + 1,
                    phase.from,
                    phase.to,
                    #[trigger] run.reports[i],
                )
        }),
    decreases log.len() - at,
{
    let reply = ap_read_at(log, at, phase.ap, CTRL_AP_ERASEALLSTATUS)->0;
    if erase_state(phase.status, phase.busy_is_wait, reply.ok()) is None {
        let now = clock_at(log, at + 1)->0;
        let lasted = elapsed(start, now, waited);
        if lasted < phase.timeout * NANOS_PER_MILLI {
            lemma_slept_between(log, first, at, phase.interval);
            lemma_ticks(phase, log, first, at + 3, start, waited + phase.interval as nat);
            reveal_with_fuel(slept_between, 2);
            assert(slept_between(log, first, at + 1) == waited);
            let run = phase.polled(log, at, start, waited)->0;
            let rest = phase.polled(log, at + 3, start, waited + phase.interval as nat)->0;
            let tick = Report::Progress(phase.tick(lasted));
            assert(tick_at(log, first, at + 1, phase.from, phase.to, tick));
            assert forall|i: int| 0 <= i < run.reports.len() implies tick_at(
                log,
                first,
                at + 3 * i + 1,
                phase.from,
                phase.to,
                #[trigger] run.reports[i],
            ) by {
                if i > 0 {
                    assert(run.reports[i] == rest.reports[i - 1]);
                    assert(at + 3 * i + 1 == (at + 3) + 3 * (i - 1) + 1);
                }
            }
        }
    }
}

/// While an erase starts, and while it runs, every look at the clock that finds
/// time left is reported: on the way from 0 to 30 percent, and from there to 80.
pub proof fn law_erase_reports_time(
    handler: NordicHandler,
    ctrl: CtrlAp,
    status: EraseAllStatus,
    completing: bool,
    log: Seq<Event>,
    at: int,
    i: int,
)
    requires
        0 <= at,
        handler.times() == Timing::device(),
        handler.phase(ctrl, status, completing).waited(log, at) matches Some(run) && 0 <= i
            < run.reports.len(),
    ensures
        tick_at(
            log,
            at,
            at + 3 * i + 2,
            if completing {
                30
            } else {
                0
            },
            if completing {
                80
            } else {
                30
            },
            handler.phase(ctrl, status, completing).waited(log, at)->0.reports[i],
        ),
{
    let phase = handler.phase(ctrl, status, completing);
    let start = clock_at(log, at)->0;
    reveal_with_fuel(slept_between, 2);
    assert(slept_between(log, at, at + 1) == 0);
    lemma_ticks(phase, log, at, at + 1, start, 0);
    let run = phase.waited(log, at)->0;
    let poll = phase.polled(log, at + 1, start, 0)->0;
    assert(run.reports =~= poll.reports);
    assert((at + 1) + 3 * i + 1 == at + 3 * i + 2);
}

/// Whether the events `at` up to `end` give cause for a warning.
pub open spec fn cause_shown(
    config: TargetConfig,
    log: Seq<Event>,
    at: int,
    end: int,
    warning: Warning,
) -> bool {
    let ctrl = config.ctrl_ap->0;
    match warning {
        Warning::UnexpectedIdr { found, expected } => {
            &&& expected == ctrl.idr
            &&& found != expected
            &&& log[at] matches Event::ReadAp { ap, reg, result } && ap == ctrl.num && reg == 0x0FC
                && result == Ok::<u32, DapError>(found)
        },
        Warning::IdrUnread => log[at] matches Event::ReadAp { ap, reg, result } && ap == ctrl.num
            && reg == 0x0FC && result is Err,
        Warning::EraseRetried => exists|e: int|
            at + 3 < e < end && #[trigger] given_up(
                log,
                ctrl.num,
                config.erase_all_status->0,
                at + 3,
                e,
                30_000,
            ),
        Warning::ReconnectFailed { source } => exists|k: int|
            at < k < end && reconnection_failed(#[trigger] log[k], source),
        Warning::UnlockReconnectFailed { source } => exists|k: int|
            at < k < end && reconnection_failed(#[trigger] log[k], source),
        Warning::LockUnread => exists|k: int|
            at < k < end && lock_shown(#[trigger] log[k], ctrl.num, None),
        Warning::MaybeLocked => exists|k: int|
            at < k < end && lock_shown(#[trigger] log[k], ctrl.num, Some(0)),
        _ => false,
    }
}

/// Whether the event is a reconnection that failed.
pub open spec fn reconnection_failed(event: Event, source: DapError) -> bool {
    event matches Event::Reinitialize { result } && result == Err::<(), DapError>(source)
}

/// Whether every warning among the reports has a cause in the events `at` up to
/// `end`.
pub open spec fn warned_for_causes(
    config: TargetConfig,
    log: Seq<Event>,
    at: int,
    end: int,
    reports: Seq<Report>,
) -> bool {
    forall|i: int|
        0 <= i < reports.len() ==> (#[trigger] reports[i] matches Report::Warning(w)
            ==> cause_shown(config, log, at, end, w))
}

proof fn lemma_causes_add(
    config: TargetConfig,
    log: Seq<Event>,
    at: int,
    end: int,
    first: Seq<Report>,
    second: Seq<Report>,
)
    requires
        warned_for_causes(config, log, at, end, first),
        warned_for_causes(config, log, at, end, second),
    ensures
        warned_for_causes(config, log, at, end, first + second),
{
    let all = first + second;
    assert forall|i: int| 0 <= i < all.len() implies (#[trigger] all[i] matches Report::Warning(w)
        ==> cause_shown(config, log, at, end, w)) by {
        if i < first.len() {
            assert(all[i] == first[i]);
        } else {
            assert(all[i] == second[i - first.len()]);
        }
    }
}

proof fn lemma_poll_tells_progress(
    phase: ErasePhase,
    log: Seq<Event>,
    at: int,
    start: u64,
    waited: nat,
)
    requires
        phase.polled(log, at, start, waited) is Some,
    ensures
        forall|i: int|
            0 <= i < phase.polled(log, at, start, waited)->0.reports.len()
                ==> #[trigger] phase.polled(log, at, start, waited)->0.reports[i] is Progress,
    decreases log.len() - at,
{
    let reply = ap_read_at(log, at, phase.ap, CTRL_AP_ERASEALLSTATUS)->0;
    if erase_state(phase.status, phase.busy_is_wait, reply.ok()) is None {
        let now = clock_at(log, at + 1)->0;
        if elapsed(start, now, waited) < phase.timeout * NANOS_PER_MILLI {
            lemma_poll_tells_progress(phase, log, at + 3, start, waited + phase.interval as nat);
            let run = phase.polled(log, at, start, waited)->0;
            let rest = phase.polled(log, at + 3, start, waited + phase.interval as nat)->0;
            assert forall|i: int| 0 <= i < run.reports.len() implies #[trigger] run.reports[i]
                is Progress by {
                if i > 0 {
                    assert(run.reports[i] == rest.reports[i - 1]);
                }
            }
        }
    }
}

proof fn lemma_attempt_tells_progress(handler: NordicHandler, log: Seq<Event>, at: int)
    requires
        handler.erased(log, at) is Some,
    ensures
        forall|i: int|
            0 <= i < handler.erased(log, at)->0.reports.len()
                ==> #[trigger] handler.erased(log, at)->0.reports[i] is Progress,
{
    if handler.config().ctrl_ap is Some && handler.config().erase_all_status is Some {
        let ctrl = handler.config().ctrl_ap->0;
        let status = handler.config().erase_all_status->0;
        if handler.erase_awaited(ctrl, status, log, at + 3) is Some {
            let one = handler.phase(ctrl, status, false);
            lemma_poll_tells_progress(one, log, at + 4, clock_at(log, at + 3)->0, 0);
            let first = one.waited(log, at + 3)->0;
            if first.result == Ok::<Option<EraseWait>, Error>(Some(EraseWait::Busy)) {
                let two = handler.phase(ctrl, status, true);
                lemma_poll_tells_progress(
                    two,
                    log,
                    first.end + 1,
                    clock_at(log, first.end)->0,
                    0,
                );
            }
        }
    }
}

/// The warnings of a recovery have a cause: each tells what an event of it shows.
#[verifier::rlimit(60)]
pub proof fn law_recover_warns_for_a_cause(handler: NordicHandler, log: Seq<Event>, at: int)
    requires
        0 <= at,
        handler.times() == Timing::device(),
        handler.recovered(log, at) is Some,
    ensures
        warned_for_causes(
            handler.config(),
            log,
            at,
            handler.recovered(log, at)->0.end,
            handler.recovered(log, at)->0.reports,
        ),
{
    let config = handler.config();
    let run = handler.recovered(log, at)->0;
    if config.ctrl_ap is Some {
        let ctrl = config.ctrl_ap->0;
        let end = run.end;
        assert(handler.unlocked(ctrl, log, at + 1) is Some);
        let rest = handler.unlocked(ctrl, log, at + 1)->0;
        let front = match idr_warning(ctrl, ap_read_at(log, at, ctrl.num, CTRL_AP_IDR)->0.ok()) {
            Some(warning) => seq![Report::Warning(warning)],
            None => Seq::<Report>::empty(),
        };
        assert(run.reports =~= front + rest.reports);
        assert(warned_for_causes(config, log, at, end, front));
        if config.erase_all_status is None {
            assert(handler.erased(log, at + 1)->0.reports.len() == 0);
            assert(rest.reports =~= seq![]);
        } else {
            let erased = handler.mass_erased(log, at + 1)->0;
            lemma_attempts(handler, log, at + 1);
            lemma_rest(handler, ctrl, log, at + 1);
            lemma_erase_warnings(handler, log, at, end);
            if erased.result is Ok {
                let settled = handler.settled(ctrl, log, erased.end)->0;
                lemma_settled_events(handler, ctrl, log, erased.end);
                if settled.result is Ok {
                    lemma_unlock_events(handler, ctrl, log, settled.end);
                }
                lemma_settled_warnings(handler, log, at, erased.end, end);
                if settled.result is Ok {
                    lemma_unlock_warnings(handler, log, at, settled.end, end);
                    let unlock = handler.unlock_confirmed(ctrl, log, settled.end)->0;
                    let last = if unlock.result is Ok {
                        seq![percent(100)]
                    } else {
                        seq![]
                    };
                    assert(rest.reports =~= erased.reports + (settled.reports + (unlock.reports
                        + last)));
                    assert(warned_for_causes(config, log, at, end, last));
                    lemma_causes_add(config, log, at, end, unlock.reports, last);
                    lemma_causes_add(
                        config,
                        log,
                        at,
                        end,
                        settled.reports,
                        unlock.reports + last,
                    );
                    lemma_causes_add(
                        config,
                        log,
                        at,
                        end,
                        erased.reports,
                        settled.reports + (unlock.reports + last),
                    );
                } else {
                    assert(rest.reports =~= erased.reports + settled.reports);
                    lemma_causes_add(config, log, at, end, erased.reports, settled.reports);
                }
            } else {
                assert(rest.reports =~= erased.reports);
            }
        }
        lemma_causes_add(config, log, at, end, front, rest.reports);
    }
}

proof fn lemma_erase_warnings(handler: NordicHandler, log: Seq<Event>, at: int, end: int)
    requires
        0 <= at,
        handler.times() == Timing::device(),
        handler.config().ctrl_ap is Some,
        handler.config().erase_all_status is Some,
        handler.mass_erased(log, at + 1) is Some,
        handler.mass_erased(log, at + 1)->0.end <= end,
    ensures
        warned_for_causes(
            handler.config(),
            log,
            at,
            end,
            handler.mass_erased(log, at + 1)->0.reports,
        ),
{
    let config = handler.config();
    let erased = handler.mass_erased(log, at + 1)->0;
    let one = handler.erased(log, at + 1)->0;
    lemma_attempts(handler, log, at + 1);
    law_erase_attempt_waits(handler, log, at + 1);
    lemma_attempt_tells_progress(handler, log, at + 1);
    assert(warned_for_causes(config, log, at, end, one.reports));
    if one.result == Ok::<bool, Error>(false) {
        let told = seq![Report::Warning(Warning::EraseRetried)];
        assert(handler.erase_retried(log, one.end) is Some);
        let again = handler.erase_retried(log, one.end)->0;
        assert(given_up(
            log,
            config.ctrl_ap->0.num,
            config.erase_all_status->0,
            at + 3,
            one.end - 1,
            30_000,
        ));
        assert(cause_shown(config, log, at, end, Warning::EraseRetried));
        assert(warned_for_causes(config, log, at, end, told));
        if reinitialize_at(log, one.end) matches Some(Ok(_)) {
            lemma_attempt_tells_progress(handler, log, one.end + 2);
            let two = handler.erased(log, one.end + 2)->0;
            assert(again.reports =~= two.reports);
        }
        assert(warned_for_causes(config, log, at, end, again.reports));
        lemma_causes_add(config, log, at, end, told, again.reports);
        lemma_causes_add(config, log, at, end, one.reports, told + again.reports);
        assert(erased.reports =~= one.reports + (told + again.reports));
    } else {
        assert(erased.reports =~= one.reports);
    }
}

proof fn lemma_settled_warnings(
    handler: NordicHandler,
    log: Seq<Event>,
    at: int,
    from: int,
    end: int,
)
    requires
        0 <= at < from <= log.len(),
        handler.config().ctrl_ap is Some,
        handler.settled(handler.config().ctrl_ap->0, log, from) is Some,
        handler.settled(handler.config().ctrl_ap->0, log, from)->0.end <= end,
    ensures
        warned_for_causes(
            handler.config(),
            log,
            at,
            end,
            handler.settled(handler.config().ctrl_ap->0, log, from)->0.reports,
        ),
{
    let ctrl = handler.config().ctrl_ap->0;
    let run = handler.settled(ctrl, log, from)->0;
    assert(handler.released(ctrl, log, from + 3) is Some || run.end <= from + 3);
    if run.result is Ok {
        assert(run.reports =~= seq![percent(80), percent(85)] + reconnection_told(
            log[from + 6],
            false,
        ) + seq![percent(90)]);
        if let Event::Reinitialize { result: Err(source) } = log[from + 6] {
            assert(reconnection_failed(log[from + 6], source));
            assert(cause_shown(
                handler.config(),
                log,
                at,
                end,
                Warning::ReconnectFailed { source },
            ));
        }
    } else {
        assert(run.reports =~= seq![percent(80)]);
    }
}

proof fn lemma_unlock_warnings(
    handler: NordicHandler,
    log: Seq<Event>,
    at: int,
    from: int,
    end: int,
)
    requires
        0 <= at < from <= log.len(),
        handler.config().ctrl_ap is Some,
        handler.unlock_confirmed(handler.config().ctrl_ap->0, log, from) is Some,
        handler.unlock_confirmed(handler.config().ctrl_ap->0, log, from)->0.end <= end,
    ensures
        warned_for_causes(
            handler.config(),
            log,
            at,
            end,
            handler.unlock_confirmed(handler.config().ctrl_ap->0, log, from)->0.reports,
        ),
{
    let ctrl = handler.config().ctrl_ap->0;
    let run = handler.unlock_confirmed(ctrl, log, from)->0;
    let reply = ap_read_at(log, from + 1, ctrl.num, CTRL_AP_ERASEPROTECTSTATUS)->0;
    if reply is Err {
        assert(lock_shown(log[from + 1], ctrl.num, None));
        assert(run.reports =~= seq![Report::Warning(Warning::LockUnread)]);
    } else if reply->Ok_0 == 0 {
        assert(lock_shown(log[from + 1], ctrl.num, Some(0)));
        assert(handler.unlock_retried(ctrl, log, from + 2) is Some);
        assert(run.reports =~= seq![Report::Warning(Warning::MaybeLocked)] + reconnection_told(
            log[from + 3],
            true,
        ));
        if let Event::Reinitialize { result: Err(source) } = log[from + 3] {
            assert(reconnection_failed(log[from + 3], source));
            assert(cause_shown(
                handler.config(),
                log,
                at,
                end,
                Warning::UnlockReconnectFailed { source },
            ));
        }
    } else {
        assert(run.reports =~= seq![]);
    }
}

} // verus!
