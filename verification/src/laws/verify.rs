//! What a `verify` command tells of a device.

use vstd::prelude::*;

use crate::dap::io::{DapError, Event, words_read_at};
use crate::dap::memory::{Memory, faithful, memory_at, word_byte};
use crate::error::Error;
use crate::hex::FirmwareView;
use crate::laws::flash::{part_len, part_told, parts};
use crate::ops::confirmed;
use crate::platform::{Phase, PlatformHandler, Progress, Report, Warning};
use crate::platform::nordic::NordicHandler;
use crate::platform::nordic::flash::{
    byte_addr, bytes_in, differing, mismatches_told, transfer_len, word_count, words_done,
    words_read_back,
};
use crate::platform::nordic::laws::lemma_read_back;

verus! {

/// Whether every read of a block of words among the events `from` up to `to`
/// succeeded.
pub open spec fn all_words_read(log: Seq<Event>, from: int, to: int) -> bool {
    forall|k: int|
        from <= k < to ==> (#[trigger] log[k] matches Event::ReadWords { result, .. } ==> result
            is Ok)
}

/// Whether memory holds every byte of an image.
pub open spec fn in_memory(memory: Memory, firmware: FirmwareView) -> bool {
    forall|j: int|
        0 <= j < firmware.data.len() ==> #[trigger] firmware.data[j] == memory(firmware.start + j)
}

/// The places of an image at which memory holds another byte.
pub open spec fn differences(memory: Memory, firmware: FirmwareView, n: nat) -> Set<int> {
    Set::new(|j: int| 0 <= j < n && firmware.data[j] != memory(firmware.start + j))
}

/// Whether the event is a read of a block of words at `addr` that failed.
pub open spec fn read_failed(event: Event, addr: u64, source: DapError) -> bool {
    event matches Event::ReadWords { addr: a, result, .. } && a == addr && result == Err::<
        Seq<u32>,
        DapError,
    >(source)
}

/// A read-back ends at the first read that fails, with that failure.
pub proof fn lemma_read_back_events(
    firmware: FirmwareView,
    log: Seq<Event>,
    at: int,
    seen: Seq<u32>,
)
    requires
        words_read_back(firmware, log, at, seen) is Some,
    ensures
        ({
            let run = words_read_back(firmware, log, at, seen)->0;
            &&& at <= run.end
            &&& run.result is Ok <==> all_words_read(log, at, run.end)
            &&& run.result matches Err(e) ==> at < run.end && e is VerifyRead && all_words_read(
                log,
                at,
                run.end - 1,
            )
            &&& run.result matches Err(Error::VerifyRead { addr, source }) ==> read_failed(
                log[run.end - 1],
                addr,
                source,
            )
            &&& forall|k: int| at <= k < run.end ==> #[trigger] log[k] is ReadWords
        }),
    decreases word_count(firmware.data.len()) - seen.len(),
{
    let total = word_count(firmware.data.len());
    let w = seen.len();
    if w < total {
        let addr = (firmware.start + 4 * w) as int;
        match words_read_at(log, at, addr, transfer_len(w, total)) {
            Some(Ok(words)) => {
                lemma_read_back_events(firmware, log, at + 1, seen + words);
                let run = words_read_back(firmware, log, at, seen)->0;
                assert(log[at] matches Event::ReadWords { result, .. } && result is Ok);
                if !all_words_read(log, at, run.end) {
                    let k = choose|k: int|
                        at <= k < run.end && !(#[trigger] log[k] matches Event::ReadWords {
                            result,
                            ..
                        } ==> result is Ok);
                    assert(k != at);
                    assert(!all_words_read(log, at + 1, run.end));
                }
            },
            _ => {
                let run = words_read_back(firmware, log, at, seen)->0;
                assert(log[at] matches Event::ReadWords { result, .. } && result is Err);
                assert(!all_words_read(log, at, run.end));
            },
        }
    }
}

/// The number of bytes that differ is the number of places at which memory holds
/// another byte.
proof fn lemma_differences(memory: Memory, firmware: FirmwareView, words: Seq<u32>, n: nat)
    requires
        n <= firmware.data.len(),
        forall|j: int|
            0 <= j < n ==> #[trigger] word_byte(words[j / 4], j % 4) == memory(firmware.start + j),
    ensures
        differences(memory, firmware, n).finite(),
        differences(memory, firmware, n).len() == differing(firmware.data, words, n),
    decreases n,
{
    let all = differences(memory, firmware, n);
    if n == 0 {
        assert(all =~= Set::<int>::empty());
    } else {
        let before = differences(memory, firmware, (n - 1) as nat);
        lemma_differences(memory, firmware, words, (n - 1) as nat);
        let j = n - 1;
        assert(word_byte(words[j / 4], j % 4) == memory(firmware.start + j));
        if firmware.data[j] != memory(firmware.start + j) {
            assert(all =~= before.insert(j));
        } else {
            assert(all =~= before);
        }
    }
}

/// What comparing an image with a device gives: where a read fails, that failure;
/// else the number of places at which memory holds another byte, and success
/// exactly if there is none.
pub proof fn law_verify_counts_differences(
    handler: NordicHandler,
    firmware: FirmwareView,
    memory: Memory,
    log: Seq<Event>,
    from: int,
    at: int,
)
    requires
        from <= at,
        firmware.data.len() <= usize::MAX,
        handler.verified(firmware, log, at) matches Some(run) && faithful(
            memory,
            log,
            from,
            run.end,
        ),
    ensures
        ({
            let run = handler.verified(firmware, log, at)->0;
            let held = memory_at(memory, log, from, at);
            &&& run.result is Ok <==> all_words_read(log, at, run.end)
            &&& run.result matches Ok(outcome) ==> {
                &&& outcome.mismatches == differences(held, firmware, firmware.data.len()).len()
                &&& outcome.success <==> in_memory(held, firmware)
            }
            &&& run.result matches Err(e) ==> e is VerifyRead
            &&& run.result matches Err(Error::VerifyRead { addr, source }) ==> at < run.end
                && read_failed(log[run.end - 1], addr, source)
        }),
{
    let none = Seq::<u32>::empty();
    let back = words_read_back(firmware, log, at, none)->0;
    lemma_read_back_events(firmware, log, at, none);
    if back.result is Ok {
        let held = memory_at(memory, log, from, at);
        let words = back.result->Ok_0;
        lemma_read_back(firmware, memory, log, from, at, none);
        assert forall|j: int| 0 <= j < firmware.data.len() implies #[trigger] word_byte(
            words[j / 4],
            j % 4,
        ) == held(firmware.start + j) by {
            assert(4 * none.len() <= j < 4 * words.len());
        }
        lemma_differences(held, firmware, words, firmware.data.len());
        let all = differences(held, firmware, firmware.data.len());
        lemma_differing_bound(firmware.data, words, firmware.data.len());
        if all.len() == 0 {
            assert forall|j: int| 0 <= j < firmware.data.len() implies #[trigger] firmware.data[j]
                == held(firmware.start + j) by {
                if firmware.data[j] != held(firmware.start + j) {
                    assert(all.contains(j));
                }
            }
        } else if in_memory(held, firmware) {
            let j = all.choose();
            assert(all.contains(j));
        }
    }
}

proof fn lemma_differing_bound(data: Seq<u8>, words: Seq<u32>, n: nat)
    ensures
        differing(data, words, n) <= n,
    decreases n,
{
    if n > 0 {
        lemma_differing_bound(data, words, (n - 1) as nat);
    }
}

/// A `verify` command succeeds exactly if every read succeeds and memory holds
/// every byte of the image. Where memory does not, it fails with the number of
/// bytes that differ, however many they are; and where a read fails, with that.
pub proof fn law_verify_command_tells_differences(
    handler: NordicHandler,
    firmware: FirmwareView,
    memory: Memory,
    log: Seq<Event>,
    from: int,
    at: int,
)
    requires
        from <= at,
        firmware.data.len() <= usize::MAX,
        confirmed(handler, firmware, log, at) matches Some(run) && faithful(
            memory,
            log,
            from,
            run.end,
        ),
    ensures
        ({
            let run = confirmed(handler, firmware, log, at)->0;
            let held = memory_at(memory, log, from, at);
            let read = all_words_read(log, at, run.end);
            &&& run.result is Ok <==> read && in_memory(held, firmware)
            &&& read && !in_memory(held, firmware) ==> (run.result matches Err(
                Error::VerificationFailed { mismatches },
            ) && mismatches == differences(held, firmware, firmware.data.len()).len() && mismatches
                > 0)
            &&& !read ==> (run.result matches Err(Error::VerifyRead { addr, source }) && at
                < run.end && read_failed(log[run.end - 1], addr, source))
        }),
{
    let run = handler.verified(firmware, log, at)->0;
    assert(confirmed(handler, firmware, log, at)->0.end == run.end);
    law_verify_counts_differences(handler, firmware, memory, log, from, at);
    let held = memory_at(memory, log, from, at);
    if run.result is Ok && !in_memory(held, firmware) {
        let all = differences(held, firmware, firmware.data.len());
        let j = choose|j: int|
            0 <= j < firmware.data.len() && #[trigger] firmware.data[j] != held(
                firmware.start + j,
            );
        let none = Seq::<u32>::empty();
        lemma_finite_differences(held, firmware, firmware.data.len());
        assert(all.contains(j));
        assert(all.len() > 0) by {
            if all.len() == 0 {
                assert(all =~= Set::empty());
            }
        }
    }
}

proof fn lemma_finite_differences(memory: Memory, firmware: FirmwareView, n: nat)
    ensures
        differences(memory, firmware, n).finite(),
    decreases n,
{
    let all = differences(memory, firmware, n);
    if n == 0 {
        assert(all =~= Set::<int>::empty());
    } else {
        lemma_finite_differences(memory, firmware, (n - 1) as nat);
        let before = differences(memory, firmware, (n - 1) as nat);
        assert(all =~= before || all =~= before.insert(n - 1));
    }
}

/// Whatever handler compares, a `verify` command passes on what it finds: success
/// where it finds no difference, the number of differences where it finds some,
/// and its failure where it fails. It reports what the handler reports.
pub proof fn law_verify_command_passes_on<H: PlatformHandler>(
    handler: H,
    firmware: FirmwareView,
    log: Seq<Event>,
    at: int,
)
    requires
        confirmed(handler, firmware, log, at) is Some,
    ensures
        ({
            let run = confirmed(handler, firmware, log, at)->0;
            let found = handler.verified(firmware, log, at)->0;
            &&& handler.verified(firmware, log, at) is Some
            &&& run.end == found.end
            &&& run.reports == found.reports
            &&& match found.result {
                Ok(outcome) => if outcome.success {
                    run.result is Ok
                } else {
                    run.result == Err::<(), Error>(
                        Error::VerificationFailed { mismatches: outcome.mismatches },
                    )
                },
                Err(e) => run.result == Err::<(), Error>(e),
            }
        }),
{
    let found = handler.verified(firmware, log, at)->0;
    assert(found.reports + Seq::<Report>::empty() =~= found.reports);
}

proof fn lemma_push_contains(reports: Seq<Report>, last: Report, r: Report)
    ensures
        reports.push(last).contains(r) <==> reports.contains(r) || r == last,
{
    let all = reports.push(last);
    if reports.contains(r) {
        let i = reports.index_of(r);
        assert(all[i] == r);
    }
    assert(all[reports.len() as int] == last);
    if all.contains(r) && r != last {
        let i = all.index_of(r);
        assert(reports[i] == r);
    }
}

proof fn lemma_sum_contains(first: Seq<Report>, second: Seq<Report>, r: Report)
    ensures
        (first + second).contains(r) <==> first.contains(r) || second.contains(r),
{
    let all = first + second;
    if first.contains(r) {
        let i = first.index_of(r);
        assert(all[i] == r);
    }
    if second.contains(r) {
        let i = second.index_of(r);
        assert(all[first.len() + i] == r);
    }
    if all.contains(r) {
        let i = all.index_of(r);
        if i < first.len() {
            assert(first[i] == r);
        } else {
            assert(second[i - first.len()] == r);
        }
    }
}

/// Whether `r` tells of byte `j` against the words that were read.
spec fn told_for(firmware: FirmwareView, words: Seq<u32>, j: int, r: Report) -> bool {
    let actual = word_byte(words[j / 4], j % 4);
    &&& actual != firmware.data[j]
    &&& differing(firmware.data, words, j as nat) < 5
    &&& r == Report::Warning(
        Warning::Mismatch { addr: byte_addr(firmware, j), wanted: firmware.data[j], actual },
    )
}

proof fn lemma_told(firmware: FirmwareView, words: Seq<u32>, from: nat, to: nat, r: Report)
    ensures
        mismatches_told(firmware, words, from, to).contains(r) <==> exists|j: int|
            from <= j < to && #[trigger] told_for(firmware, words, j, r),
    decreases to,
{
    if to > from {
        let j = to - 1;
        let before = mismatches_told(firmware, words, from, (to - 1) as nat);
        lemma_told(firmware, words, from, (to - 1) as nat, r);
        let actual = word_byte(words[j / 4], j % 4);
        let last = Report::Warning(
            Warning::Mismatch { addr: byte_addr(firmware, j), wanted: firmware.data[j], actual },
        );
        lemma_push_contains(before, last, r);
        if mismatches_told(firmware, words, from, to).contains(r) && !before.contains(r) {
            assert(told_for(firmware, words, j, r));
        }
    }
}

/// The words that were seen stay what they are, and a comparison of the first of
/// them stays the same.
proof fn lemma_seen_first(firmware: FirmwareView, log: Seq<Event>, at: int, seen: Seq<u32>)
    requires
        words_read_back(firmware, log, at, seen) matches Some(run) && run.result is Ok,
        seen.len() <= word_count(firmware.data.len()),
    ensures
        ({
            let words = words_read_back(firmware, log, at, seen)->0.result->Ok_0;
            &&& words.len() == word_count(firmware.data.len())
            &&& forall|k: int| 0 <= k < seen.len() ==> #[trigger] words[k] == seen[k]
        }),
    decreases word_count(firmware.data.len()) - seen.len(),
{
    let total = word_count(firmware.data.len());
    let w = seen.len();
    if w < total {
        let addr = (firmware.start + 4 * w) as int;
        let got = words_read_at(log, at, addr, transfer_len(w, total))->0->Ok_0;
        lemma_seen_first(firmware, log, at + 1, seen + got);
        let words = words_read_back(firmware, log, at, seen)->0.result->Ok_0;
        assert forall|k: int| 0 <= k < seen.len() implies #[trigger] words[k] == seen[k] by {
            assert(words[k] == (seen + got)[k]);
        }
    }
}

proof fn lemma_same_differing(data: Seq<u8>, first: Seq<u32>, second: Seq<u32>, n: nat)
    requires
        forall|k: int| 0 <= k < (n + 3) / 4 ==> #[trigger] first[k] == second[k],
    ensures
        differing(data, first, n) == differing(data, second, n),
    decreases n,
{
    if n > 0 {
        lemma_same_differing(data, first, second, (n - 1) as nat);
        assert(first[(n - 1) / 4] == second[(n - 1) / 4]);
    }
}

/// Whether `r` tells that part `m` was read back.
spec fn part_of(firmware: FirmwareView, m: int, r: Report) -> bool {
    r == part_told(Phase::Verify, firmware, m)
}

#[verifier::rlimit(40)]
proof fn lemma_read_back_told(
    firmware: FirmwareView,
    log: Seq<Event>,
    from: int,
    at: int,
    seen: Seq<u32>,
    r: Report,
)
    requires
        0 <= from <= at,
        at - from <= parts(firmware),
        1024 * (at - from) < word_count(firmware.data.len()) ==> seen.len() == 1024 * (at - from),
        1024 * (at - from) >= word_count(firmware.data.len()) ==> seen.len() == word_count(
            firmware.data.len(),
        ),
        words_read_back(firmware, log, at, seen) matches Some(run) && run.result is Ok,
    ensures
        ({
            let run = words_read_back(firmware, log, at, seen)->0;
            let words = run.result->Ok_0;
            &&& run.end == from + parts(firmware)
            &&& run.reports.contains(r) <==> {
                ||| exists|j: int|
                    4 * seen.len() <= j < firmware.data.len() && #[trigger] told_for(
                        firmware,
                        words,
                        j,
                        r,
                    )
                ||| exists|m: int|
                    at - from <= m < parts(firmware) && #[trigger] part_of(firmware, m, r)
            }
            &&& seen.len() < word_count(firmware.data.len()) ==> run.reports.len() > 0
                && run.reports.last() == part_told(Phase::Verify, firmware, parts(firmware) - 1)
            &&& seen.len() == word_count(firmware.data.len()) ==> run.reports.len() == 0
            &&& forall|k: int|
                at <= k < run.end ==> part_read(#[trigger] log[k], firmware, k - from)
        }),
    decreases word_count(firmware.data.len()) - seen.len(),
{
    let total = word_count(firmware.data.len());
    let w = seen.len();
    let run = words_read_back(firmware, log, at, seen)->0;
    let words = run.result->Ok_0;
    lemma_seen_first(firmware, log, at, seen);
    if w < total {
        let m = at - from;
        let addr = (firmware.start + 4 * w) as int;
        let got = words_read_at(log, at, addr, transfer_len(w, total))->0->Ok_0;
        let all = seen + got;
        assert(part_read(log[at], firmware, m));
        lemma_read_back_told(firmware, log, from, at + 1, all, r);
        lemma_seen_first(firmware, log, at + 1, all);
        let rest = words_read_back(firmware, log, at + 1, all)->0;
        let to = bytes_in(firmware, all.len());
        let told = mismatches_told(firmware, all, 4 * w, to);
        let now = part_told(Phase::Verify, firmware, m);
        assert(Report::Progress(words_done(Phase::Verify, all.len(), total)) == now);
        lemma_told(firmware, all, 4 * w, to, r);
        lemma_push_contains(told, now, r);
        lemma_sum_contains(told.push(now), rest.reports, r);
        assert(run.reports == told.push(now) + rest.reports);
        assert forall|j: int| 4 * w <= j < to implies told_for(firmware, all, j, r)
            == #[trigger] told_for(firmware, words, j, r) by {
            assert(all[j / 4] == words[j / 4]);
            lemma_same_differing(firmware.data, all, words, j as nat);
        }
        if exists|j: int| 4 * w <= j < to && #[trigger] told_for(firmware, all, j, r) {
            let j = choose|j: int| 4 * w <= j < to && #[trigger] told_for(firmware, all, j, r);
            assert(told_for(firmware, words, j, r));
        }
        if exists|j: int|
            4 * w <= j < firmware.data.len() && #[trigger] told_for(firmware, words, j, r) {
            let j = choose|j: int|
                4 * w <= j < firmware.data.len() && #[trigger] told_for(firmware, words, j, r);
            if j < to {
                assert(told_for(firmware, all, j, r));
            } else {
                assert(4 * all.len() <= j);
            }
        }
        assert(part_of(firmware, m, r) <==> r == now);
    }
}

/// Whether the event reads part `m` of an image back from where it belongs.
pub open spec fn part_read(event: Event, firmware: FirmwareView, m: int) -> bool {
    event matches Event::ReadWords { addr, len, .. } && addr == firmware.start + 4096 * m && len
        == part_len(firmware, m)
}

/// Whether `r` tells of the byte at place `j`, which memory does not hold and
/// before which fewer than five differ.
pub open spec fn difference_told(
    memory: Memory,
    firmware: FirmwareView,
    j: int,
    r: Report,
) -> bool {
    &&& 0 <= j < firmware.data.len()
    &&& firmware.data[j] != memory(firmware.start + j)
    &&& differences(memory, firmware, j as nat).len() < 5
    &&& r == Report::Warning(
        Warning::Mismatch {
            addr: (firmware.start + j) as u64,
            wanted: firmware.data[j],
            actual: memory(firmware.start + j),
        },
    )
}

/// A comparison that reads everything tells of the first five bytes that differ,
/// each with its address, the byte wanted and the byte found, and of the words read
/// after every part. It tells nothing else.
#[verifier::rlimit(40)]
pub proof fn law_verify_tells_first_differences(
    handler: NordicHandler,
    firmware: FirmwareView,
    memory: Memory,
    log: Seq<Event>,
    from: int,
    at: int,
    r: Report,
)
    requires
        0 <= from <= at,
        firmware.start + firmware.data.len() <= u64::MAX + 1,
        handler.verified(firmware, log, at) matches Some(run) && run.result is Ok && faithful(
            memory,
            log,
            from,
            run.end,
        ),
    ensures
        ({
            let run = handler.verified(firmware, log, at)->0;
            let held = memory_at(memory, log, from, at);
            &&& run.reports.contains(r) <==> {
                ||| exists|j: int| #[trigger] difference_told(held, firmware, j, r)
                ||| exists|m: int|
                    0 <= m < parts(firmware) && r == #[trigger] part_told(
                        Phase::Verify,
                        firmware,
                        m,
                    )
            }
            &&& firmware.data.len() > 0 ==> run.reports.len() > 0 && run.reports.last()
                == part_told(Phase::Verify, firmware, parts(firmware) - 1)
        }),
{
    let none = Seq::<u32>::empty();
    let run = handler.verified(firmware, log, at)->0;
    let back = words_read_back(firmware, log, at, none)->0;
    let words = back.result->Ok_0;
    let held = memory_at(memory, log, from, at);
    assert(run.reports =~= back.reports);
    lemma_read_back_told(firmware, log, at, at, none, r);
    lemma_read_back(firmware, memory, log, from, at, none);
    assert forall|j: int| 0 <= j < firmware.data.len() implies #[trigger] told_for(
        firmware,
        words,
        j,
        r,
    ) == difference_told(held, firmware, j, r) by {
        assert forall|i: int| 0 <= i <= j implies #[trigger] word_byte(words[i / 4], i % 4)
            == held(firmware.start + i) by {
            assert(4 * none.len() <= i < 4 * words.len());
        }
        assert(word_byte(words[j / 4], j % 4) == held(firmware.start + j));
        lemma_differences(held, firmware, words, j as nat);
    }
    if exists|j: int| #[trigger] difference_told(held, firmware, j, r) {
        let j = choose|j: int| #[trigger] difference_told(held, firmware, j, r);
        assert(told_for(firmware, words, j, r));
    }
    if exists|j: int|
        0 <= j < firmware.data.len() && #[trigger] told_for(firmware, words, j, r) {
        let j = choose|j: int|
            0 <= j < firmware.data.len() && #[trigger] told_for(firmware, words, j, r);
        assert(difference_told(held, firmware, j, r));
    }
    if exists|m: int|
        0 <= m < parts(firmware) && r == #[trigger] part_told(Phase::Verify, firmware, m) {
        let m = choose|m: int|
            0 <= m < parts(firmware) && r == #[trigger] part_told(Phase::Verify, firmware, m);
        assert(part_of(firmware, m, r));
    }
}

/// A comparison reads part after part of where the image belongs.
pub proof fn law_verify_reads_parts(
    handler: NordicHandler,
    firmware: FirmwareView,
    log: Seq<Event>,
    at: int,
)
    requires
        0 <= at,
        handler.verified(firmware, log, at) matches Some(run) && run.result is Ok,
    ensures
        ({
            let run = handler.verified(firmware, log, at)->0;
            &&& run.end == at + parts(firmware)
            &&& forall|k: int|
                at <= k < run.end ==> part_read(#[trigger] log[k], firmware, k - at)
        }),
{
    let r = part_told(Phase::Verify, firmware, 0);
    lemma_read_back_told(firmware, log, at, at, Seq::<u32>::empty(), r);
}

} // verus!
