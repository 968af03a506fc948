//! What the log of a device says, and what memory holds in consequence.

use vstd::prelude::*;

use crate::dap::io::{
    DapError, Event, ap_read_at, ap_write_at, bytes_read_at, bytes_write_at, clock_at, extends,
    filled, reinitialize_at, slept_at, word_read_at, word_write_at, words_read_at, words_write_at,
};
use crate::dap::memory::{Memory, after, faithful, le_word, memory_at, shows, word_byte};
use crate::dap::run::{Run, bind, ran};
use crate::error::Error;
use crate::platform::Reports;

verus! {

/// The answer to an Access Port access is that of the event which is this access,
/// and of no other.
pub proof fn law_register_accesses_are_events(
    log: Seq<Event>,
    i: int,
    ap: u8,
    reg: u64,
    value: u32,
    read: Result<u32, DapError>,
    wrote: Result<(), DapError>,
)
    ensures
        ap_read_at(log, i, ap, reg) == Some(read) <==> 0 <= i < log.len() && log[i] == (
            Event::ReadAp { ap, reg, result: read }),
        ap_write_at(log, i, ap, reg, value) == Some(wrote) <==> 0 <= i < log.len() && log[i] == (
            Event::WriteAp { ap, reg, value, result: wrote }),
        reinitialize_at(log, i) == Some(wrote) <==> 0 <= i < log.len() && log[i] == (
            Event::Reinitialize { result: wrote }),
{
}

/// The answer to a memory access is that of the event which is this access, and of
/// no other. A block that was read has as many items as were asked for.
pub proof fn law_memory_accesses_are_events(
    log: Seq<Event>,
    i: int,
    addr: u64,
    value: u32,
    len: nat,
    words: Seq<u32>,
    bytes: Seq<u8>,
    read: Result<u32, DapError>,
    read_words: Result<Seq<u32>, DapError>,
    read_bytes: Result<Seq<u8>, DapError>,
    wrote: Result<(), DapError>,
)
    ensures
        word_read_at(log, i, addr) == Some(read) <==> 0 <= i < log.len() && log[i] == (
            Event::ReadWord { addr, result: read }),
        word_write_at(log, i, addr, value) == Some(wrote) <==> 0 <= i < log.len() && log[i] == (
            Event::WriteWord { addr, value, result: wrote }),
        words_read_at(log, i, addr as int, len) == Some(read_words) <==> 0 <= i < log.len()
            && log[i] == (Event::ReadWords { addr, len, result: read_words }) && (read_words is Ok
            ==> read_words->Ok_0.len() == len),
        words_write_at(log, i, addr as int, words) == Some(wrote) <==> 0 <= i < log.len() && log[i]
            == (Event::WriteWords { addr, words, result: wrote }),
        bytes_read_at(log, i, addr as int, len) == Some(read_bytes) <==> 0 <= i < log.len()
            && log[i] == (Event::ReadBytes { addr, len, result: read_bytes }) && (read_bytes is Ok
            ==> read_bytes->Ok_0.len() == len),
        bytes_write_at(log, i, addr as int, bytes) == Some(wrote) <==> 0 <= i < log.len() && log[i]
                == (Event::WriteBytes { addr, bytes, result: wrote }),
{
}

/// No access starts at what is no address.
pub proof fn law_accesses_start_at_addresses(
    log: Seq<Event>,
    i: int,
    addr: int,
    len: nat,
    words: Seq<u32>,
    bytes: Seq<u8>,
)
    requires
        addr < 0 || addr > u64::MAX,
    ensures
        words_read_at(log, i, addr, len) is None,
        words_write_at(log, i, addr, words) is None,
        bytes_read_at(log, i, addr, len) is None,
        bytes_write_at(log, i, addr, bytes) is None,
{
}

/// A wait and a look at the clock are the events that they are.
pub proof fn law_waits_are_events(log: Seq<Event>, i: int, millis: u64, nanos: u64)
    ensures
        slept_at(log, i, millis) <==> 0 <= i < log.len() && log[i] == (Event::Sleep { millis }),
        clock_at(log, i) == Some(nanos) <==> 0 <= i < log.len() && log[i] == (Event::Clock {
            nanos,
        }),
{
}

/// A log extends another exactly if it starts with all of it.
pub proof fn law_logs_only_grow(earlier: Seq<Event>, later: Seq<Event>)
    ensures
        extends(earlier, later) <==> earlier.len() <= later.len() && later.take(
            earlier.len() as int,
        ) == earlier,
{
    if extends(earlier, later) {
        assert(later.take(earlier.len() as int) =~= earlier);
    }
    if earlier.len() <= later.len() && later.take(earlier.len() as int) == earlier {
        assert forall|k: int| 0 <= k < earlier.len() implies #[trigger] later[k] == earlier[k] by {
            assert(later.take(earlier.len() as int)[k] == later[k]);
        }
    }
}

/// What a buffer holds after a read is its answer, or the failure is.
pub proof fn law_buffers_are_answers(outcome: Result<(), DapError>, items: Seq<u8>)
    ensures
        outcome is Ok ==> filled(outcome, items) == Ok::<Seq<u8>, DapError>(items),
        outcome is Err ==> filled(outcome, items) == Err::<Seq<u8>, DapError>(outcome->Err_0),
{
}

/// An operation has run where its result, its reports and its end are those that
/// its events show.
pub proof fn law_runs_are_shown<T>(
    run: Option<Run<T>>,
    result: Result<T, Error>,
    before: Reports,
    after: Reports,
    end: nat,
)
    ensures
        ran(run, result, before, after, end) <==> run is Some && run->0.result == result
            && run->0.end == end && after == before + run->0.reports,
{
}

/// One operation behind another: the second starts where the first ends, their
/// reports follow each other, and a failure of the first is that of both.
pub proof fn law_operations_follow_each_other<T, U>(
    first: Run<T>,
    next: spec_fn(T, int) -> Option<Run<U>>,
)
    ensures
        match first.result {
            Err(e) => bind(Some(first), next) == Some(
                Run::<U> { result: Err(e), reports: first.reports, end: first.end },
            ),
            Ok(value) => match next(value, first.end) {
                None => bind(Some(first), next) is None,
                Some(second) => bind(Some(first), next) == Some(
                    Run::<U> {
                        result: second.result,
                        reports: first.reports + second.reports,
                        end: second.end,
                    },
                ),
            },
        },
        bind(None::<Run<T>>, next) is None,
{
}

/// A word is the sum of its bytes, each of which counts 256 times the one before.
pub proof fn law_words_are_little_endian(word: u32, b0: u8, b1: u8, b2: u8, b3: u8)
    ensures
        word == word_byte(word, 0) + 0x100 * word_byte(word, 1) + 0x1_0000 * word_byte(word, 2)
            + 0x100_0000 * word_byte(word, 3),
        le_word(b0, b1, b2, b3) == b0 + 0x100 * b1 + 0x1_0000 * b2 + 0x100_0000 * b3,
{
    assert(word / 0x1_0000 == word / 0x100 / 0x100);
    assert(word / 0x100_0000 == word / 0x1_0000 / 0x100);
}

/// After a write that succeeds, memory holds what was written where it was
/// written, and elsewhere what it held before.
pub proof fn law_writes_are_kept(
    memory: Memory,
    addr: u64,
    value: u32,
    words: Seq<u32>,
    bytes: Seq<u8>,
    a: int,
)
    ensures
        ({
            let kept = after(
                memory,
                Event::WriteBytes { addr, bytes, result: Ok::<(), DapError>(()) },
            );
            kept(a) == if addr <= a < addr + bytes.len() {
                bytes[a - addr]
            } else {
                memory(a)
            }
        }),
        ({
            let kept = after(
                memory,
                Event::WriteWord { addr, value, result: Ok::<(), DapError>(()) },
            );
            kept(a) == if addr <= a < addr + 4 {
                word_byte(value, a - addr)
            } else {
                memory(a)
            }
        }),
        ({
            let kept = after(
                memory,
                Event::WriteWords { addr, words, result: Ok::<(), DapError>(()) },
            );
            kept(a) == if addr <= a < addr + 4 * words.len() {
                word_byte(words[(a - addr) / 4], (a - addr) % 4)
            } else {
                memory(a)
            }
        }),
{
}

/// Memory changes by writes that succeed, and by nothing else.
pub proof fn law_memory_changes_by_writes(memory: Memory, event: Event, a: int)
    requires
        !(event matches Event::WriteBytes { addr, bytes, result: Ok(_) } && addr <= a < addr
            + bytes.len()),
        !(event matches Event::WriteWord { addr, result: Ok(_), .. } && addr <= a < addr + 4),
        !(event matches Event::WriteWords { addr, words, result: Ok(_) } && addr <= a < addr + 4
            * words.len()),
    ensures
        after(memory, event)(a) == memory(a),
{
}

/// Memory along a log is that after the last event.
pub proof fn law_memory_follows_log(memory: Memory, log: Seq<Event>, from: int, to: int)
    requires
        from <= to,
    ensures
        memory_at(memory, log, from, from) == memory,
        memory_at(memory, log, from, to + 1) == after(memory_at(memory, log, from, to), log[to]),
{
}

/// What a device that keeps what is written to it shows is what its memory holds.
pub proof fn law_faithful_reads(memory: Memory, log: Seq<Event>, from: int, to: int, k: int)
    requires
        faithful(memory, log, from, to),
        from <= k < to,
    ensures
        ({
            let held = memory_at(memory, log, from, k);
            match log[k] {
                Event::ReadWord { addr, result: Ok(value) } => forall|b: int|
                    0 <= b < 4 ==> #[trigger] word_byte(value, b) == held(addr + b),
                Event::ReadWords { addr, len, result: Ok(words) } => words.len() == len && forall|
                    j: int,
                |
                    0 <= j < 4 * len ==> #[trigger] word_byte(words[j / 4], j % 4) == held(
                        addr + j,
                    ),
                Event::ReadBytes { addr, len, result: Ok(bytes) } => bytes.len() == len && forall|
                    j: int,
                |
                    0 <= j < len ==> #[trigger] bytes[j] == held(addr + j),
                _ => true,
            }
        }),
{
    assert(shows(memory_at(memory, log, from, k), log[k]));
}

/// A device whose every answer is what its memory holds is one that keeps what is
/// written to it: none other is asked for.
pub proof fn law_faithful_devices(memory: Memory, log: Seq<Event>, from: int, to: int)
    requires
        forall|k: int|
            from <= k < to ==> {
                let held = memory_at(memory, log, from, k);
                match #[trigger] log[k] {
                    Event::ReadWord { addr, result: Ok(value) } => forall|b: int|
                        0 <= b < 4 ==> #[trigger] word_byte(value, b) == held(addr + b),
                    Event::ReadWords { addr, len, result: Ok(words) } => words.len() == len
                        && forall|j: int|
                        0 <= j < 4 * len ==> #[trigger] word_byte(words[j / 4], j % 4) == held(
                            addr + j,
                        ),
                    Event::ReadBytes { addr, len, result: Ok(bytes) } => bytes.len() == len
                        && forall|j: int| 0 <= j < len ==> #[trigger] bytes[j] == held(addr + j),
                    _ => true,
                }
            },
    ensures
        faithful(memory, log, from, to),
{
}

} // verus!
