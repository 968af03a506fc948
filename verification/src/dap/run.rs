//! Runs of an operation, read off a log.
//!
//! What an operation does is stated as a function of the log that it leaves
//! behind: from the index of its first event, the function walks over the
//! events that the operation consists of, and says what the operation returned,
//! what it reported, and where its events end. A log that does not show the
//! operation gives nothing.

use vstd::prelude::*;

use crate::dap::io::{DapError, Event, clock_at, slept_at};
use crate::error::Error;
use crate::platform::{Progress, Report, Warning};

verus! {

/// A completed operation.
pub struct Run<T> {
    /// What it returned.
    pub result: Result<T, Error>,
    /// What it reported, oldest first.
    pub reports: Seq<Report>,
    /// The index behind its last event.
    pub end: int,
}

/// An operation without events that returns `value`.
pub open spec fn done<T>(value: T, at: int) -> Option<Run<T>> {
    Some(Run { result: Ok(value), reports: Seq::empty(), end: at })
}

/// An operation without events that fails.
pub open spec fn failed<T>(error: Error, at: int) -> Option<Run<T>> {
    Some(Run { result: Err(error), reports: Seq::empty(), end: at })
}

/// A report of progress.
pub open spec fn reported(progress: Progress, at: int) -> Option<Run<()>> {
    Some(Run { result: Ok(()), reports: seq![Report::Progress(progress)], end: at })
}

/// A warning, where there is one to give.
pub open spec fn warned(warning: Option<Warning>, at: int) -> Option<Run<()>> {
    match warning {
        Some(warning) => Some(
            Run { result: Ok(()), reports: seq![Report::Warning(warning)], end: at },
        ),
        None => done((), at),
    }
}

/// An operation, and another behind it that its value decides. Where the first
/// fails, so does the whole.
pub open spec fn bind<T, U>(
    first: Option<Run<T>>,
    next: spec_fn(T, int) -> Option<Run<U>>,
) -> Option<Run<U>> {
    match first {
        None => None,
        Some(run) => match run.result {
            Err(e) => Some(Run { result: Err(e), reports: run.reports, end: run.end }),
            Ok(value) => match next(value, run.end) {
                None => None,
                Some(rest) => Some(
                    Run {
                        result: rest.result,
                        reports: run.reports + rest.reports,
                        end: rest.end,
                    },
                ),
            },
        },
    }
}

/// An operation behind some reports.
pub open spec fn prefixed<T>(reports: Seq<Report>, run: Option<Run<T>>) -> Option<Run<T>> {
    match run {
        None => None,
        Some(run) => Some(
            Run { result: run.result, reports: reports + run.reports, end: run.end },
        ),
    }
}

/// A transfer whose failure ends the operation.
pub open spec fn transferred<T>(reply: Option<Result<T, DapError>>, at: int) -> Option<Run<T>> {
    match reply {
        None => None,
        Some(Ok(value)) => done(value, at + 1),
        Some(Err(e)) => failed(Error::Transfer(e), at + 1),
    }
}

/// A transfer whose failure counts as no value.
pub open spec fn attempted<T>(reply: Option<Result<T, DapError>>, at: int) -> Option<
    Run<Option<T>>,
> {
    match reply {
        None => None,
        Some(reply) => done(reply.ok(), at + 1),
    }
}

/// A transfer whose answer is looked at, whatever it is.
pub open spec fn answered<T>(reply: Option<Result<T, DapError>>, at: int) -> Option<
    Run<Result<T, DapError>>,
> {
    match reply {
        None => None,
        Some(reply) => done(reply, at + 1),
    }
}

/// A wait of `millis` milliseconds.
pub open spec fn slept(log: Seq<Event>, at: int, millis: u64) -> Option<Run<()>> {
    if slept_at(log, at, millis) {
        done((), at + 1)
    } else {
        None
    }
}

/// A look at the clock.
pub open spec fn clocked(log: Seq<Event>, at: int) -> Option<Run<u64>> {
    match clock_at(log, at) {
        None => None,
        Some(nanos) => done(nanos, at + 1),
    }
}

/// Whether `run` returned `result` and ended at `end`, and its reports follow
/// `before` and make up `after`.
pub open spec fn ran<T>(
    run: Option<Run<T>>,
    result: Result<T, Error>,
    before: Seq<Report>,
    after: Seq<Report>,
    end: nat,
) -> bool {
    &&& run matches Some(run)
    &&& run.result == result
    &&& run.end == end
    &&& after == before + run.reports
}

} // verus!
