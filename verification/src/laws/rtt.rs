//! What an RTT session is, in terms of the memory that it was read from, and what
//! its transfers are.

use vstd::prelude::*;

use crate::dap::io::{DapError, Event, bytes_read_at, bytes_write_at, word_read_at};
use crate::dap::memory::{Memory, faithful, memory_at, shows};
use crate::error::Error;
use crate::rtt::{
    RttBuffer, RttConfig, RttView, attached, bytes_pushed, control_block_found, descriptor,
    down_written, first_at, found_at, free_space, next_off, occurs_at, session_read, signature,
    up_read, word_in,
};
use crate::rtt::laws::{
    all_read, law_scan_finds_lowest, law_scan_finds_signature, law_scan_stays_in_range,
    lemma_found_some, lemma_scan_reads, lemma_unwritten, signed,
};

verus! {

/// The number that the four bytes at an address make up, the lowest first.
pub open spec fn number_at(memory: Memory, addr: int) -> int {
    memory(addr) + 0x100 * memory(addr + 1) + 0x1_0000 * memory(addr + 2) + 0x100_0000 * memory(
        addr + 3,
    )
}

/// Whether memory holds the ten letters of `SEGGER RTT` at an address.
pub open spec fn block_at(memory: Memory, addr: int) -> bool {
    &&& memory(addr) == 0x53
    &&& memory(addr + 1) == 0x45
    &&& memory(addr + 2) == 0x47
    &&& memory(addr + 3) == 0x47
    &&& memory(addr + 4) == 0x45
    &&& memory(addr + 5) == 0x52
    &&& memory(addr + 6) == 0x20
    &&& memory(addr + 7) == 0x52
    &&& memory(addr + 8) == 0x54
    &&& memory(addr + 9) == 0x54
}

/// Whether a channel is the one that memory describes at an address.
pub open spec fn described_at(memory: Memory, addr: int, channel: RttBuffer) -> bool {
    &&& channel.descriptor_addr == addr
    &&& channel.buffer_ptr == number_at(memory, addr + 4)
    &&& channel.size == number_at(memory, addr + 8)
}

/// Whether a session is the one of the control block at an address: first the
/// descriptors of the up-channels, and right behind them those of the
/// down-channels, of 24 bytes each.
pub open spec fn session_at(memory: Memory, block: int, session: RttView) -> bool {
    let ups = number_at(memory, block + 16);
    let downs = number_at(memory, block + 20);
    &&& ups <= 64
    &&& downs <= 64
    &&& session.up.len() == ups
    &&& session.down.len() == downs
    &&& forall|i: int|
        0 <= i < ups ==> described_at(memory, block + 24 + 24 * i, #[trigger] session.up[i])
    &&& forall|i: int|
        0 <= i < downs ==> described_at(
            memory,
            block + 24 + 24 * (ups + i),
            #[trigger] session.down[i],
        )
}

/// Whether the event is a read of bytes that failed.
pub open spec fn read_failed_with(event: Event, source: DapError) -> bool {
    event matches Event::ReadBytes { result, .. } && result == Err::<Seq<u8>, DapError>(source)
}

proof fn lemma_number(memory: Memory, addr: int, bytes: Seq<u8>, i: int)
    requires
        0 <= i <= bytes.len() - 4,
        forall|j: int| 0 <= j < bytes.len() ==> #[trigger] bytes[j] == memory(addr + j),
    ensures
        word_in(bytes, i) == number_at(memory, addr + i),
{
    assert(bytes[i] == memory(addr + i));
    assert(bytes[i + 1] == memory(addr + i + 1));
    assert(bytes[i + 2] == memory(addr + i + 2));
    assert(bytes[i + 3] == memory(addr + i + 3));
}

proof fn lemma_signed(memory: Memory, addr: int)
    ensures
        signed(memory, addr) <==> block_at(memory, addr),
{
    if signed(memory, addr) {
        assert(memory(addr + 0) == signature()[0]);
        assert(memory(addr + 1) == signature()[1]);
        assert(memory(addr + 2) == signature()[2]);
        assert(memory(addr + 3) == signature()[3]);
        assert(memory(addr + 4) == signature()[4]);
        assert(memory(addr + 5) == signature()[5]);
        assert(memory(addr + 6) == signature()[6]);
        assert(memory(addr + 7) == signature()[7]);
        assert(memory(addr + 8) == signature()[8]);
        assert(memory(addr + 9) == signature()[9]);
    }
    if block_at(memory, addr) {
        assert forall|i: int| 0 <= i < signature().len() implies #[trigger] memory(addr + i)
            == signature()[i] by {
            assert(i == 0 || i == 1 || i == 2 || i == 3 || i == 4 || i == 5 || i == 6 || i == 7 || i
                == 8 || i == 9);
        }
    }
}

/// What is read of a control block is what memory holds there.
proof fn lemma_session(memory: Memory, log: Seq<Event>, from: int, at: int, block: u64)
    requires
        from <= at,
        forall|a: int| #[trigger] memory_at(memory, log, from, at)(a) == memory(a),
        session_read(block, log, at) matches Some(run) && run.result is Ok && faithful(
            memory,
            log,
            from,
            run.end,
        ),
    ensures
        session_at(memory, block as int, session_read(block, log, at)->0.result->Ok_0),
{
    let run = session_read(block, log, at)->0;
    let header = bytes_read_at(log, at, block as int, 24)->0->Ok_0;
    let held = memory_at(memory, log, from, at);
    assert(shows(held, log[at]));
    assert forall|j: int| 0 <= j < header.len() implies #[trigger] header[j] == memory(
        block + j,
    ) by {
        assert(held(block + j) == memory(block + j));
    }
    lemma_number(memory, block as int, header, 16);
    lemma_number(memory, block as int, header, 20);
    let up = word_in(header, 16);
    let down = word_in(header, 20);
    let total = up + down;
    if total > 0 {
        let bytes = bytes_read_at(log, at + 1, block + 24, (24 * total) as nat)->0->Ok_0;
        lemma_unwritten(memory, log, from, at);
        let next = memory_at(memory, log, from, at + 1);
        assert(shows(next, log[at + 1]));
        assert forall|j: int| 0 <= j < bytes.len() implies #[trigger] bytes[j] == memory(
            block + 24 + j,
        ) by {
            assert(next(block + 24 + j) == held(block + 24 + j));
        }
        assert forall|i: int| 0 <= i < total implies described_at(
            memory,
            block + 24 + 24 * i,
            #[trigger] descriptor(block, bytes, i),
        ) by {
            lemma_number(memory, block + 24, bytes, 24 * i + 4);
            lemma_number(memory, block + 24, bytes, 24 * i + 8);
        }
        let session = run.result->Ok_0;
        assert forall|i: int| 0 <= i < up implies described_at(
            memory,
            block + 24 + 24 * i,
            #[trigger] session.up[i],
        ) by {
            assert(session.up[i] == descriptor(block, bytes, i));
        }
        assert forall|i: int| 0 <= i < down implies described_at(
            memory,
            block + 24 + 24 * (up + i),
            #[trigger] session.down[i],
        ) by {
            assert(session.down[i] == descriptor(block, bytes, up + i));
        }
    }
}

/// A successful attach gives the session of a control block that lies in the
/// range which was to be scanned: its channels are those that memory counts at 16
/// and 20 and describes from 24 on.
pub proof fn law_attach_gives_session(
    config: RttConfig,
    memory: Memory,
    log: Seq<Event>,
    at: int,
)
    requires
        attached(config, log, at) matches Some(run) && run.result is Ok && faithful(
            memory,
            log,
            at,
            run.end,
        ),
    ensures
        exists|block: int|
            block_at(memory, block) && config.scan_start <= block && block + 10 <= config.scan_start
                + config.scan_range && #[trigger] session_at(
                memory,
                block,
                attached(config, log, at)->0.result->Ok_0,
            ),
{
    let scan = control_block_found(config, log, at, 0)->0;
    let block = scan.result->Ok_0;
    let read = session_read(block, log, scan.end)->0;
    assert(scan.end <= read.end);
    assert(faithful(memory, log, at, scan.end));
    lemma_scan_reads(config, memory, log, at, at, 0);
    law_scan_finds_signature(config, memory, log, at);
    law_scan_stays_in_range(config, log, at);
    lemma_signed(memory, block as int);
    assert forall|a: int| #[trigger] memory_at(memory, log, at, scan.end)(a) == memory(a) by {}
    lemma_session(memory, log, at, scan.end, block);
    assert(session_at(memory, block as int, attached(config, log, at)->0.result->Ok_0));
}

/// Of two control blocks in the range, an attach whose reads all succeed takes
/// the lower one, where the windows overlap by nine bytes.
pub proof fn law_attach_takes_lowest(
    config: RttConfig,
    memory: Memory,
    log: Seq<Event>,
    at: int,
    place: int,
)
    requires
        config.scan_stride + 9 <= config.scan_block,
        attached(config, log, at) matches Some(run) && run.result is Ok && faithful(
            memory,
            log,
            at,
            run.end,
        ) && all_read(log, at, run.end),
        block_at(memory, place),
        config.scan_start <= place,
    ensures
        exists|block: int|
            block_at(memory, block) && config.scan_start <= block <= place
                && #[trigger] session_at(
                memory,
                block,
                attached(config, log, at)->0.result->Ok_0,
            ),
{
    let scan = control_block_found(config, log, at, 0)->0;
    let block = scan.result->Ok_0;
    let read = session_read(block, log, scan.end)->0;
    assert(scan.end <= read.end);
    assert(faithful(memory, log, at, scan.end));
    assert(all_read(log, at, scan.end));
    lemma_scan_reads(config, memory, log, at, at, 0);
    law_scan_finds_signature(config, memory, log, at);
    law_scan_stays_in_range(config, log, at);
    lemma_signed(memory, block as int);
    lemma_signed(memory, place);
    if place < block {
        law_scan_finds_lowest(config, memory, log, at, place);
    }
    lemma_session(memory, log, at, scan.end, block);
    assert(session_at(memory, block as int, attached(config, log, at)->0.result->Ok_0));
}

/// Whether bytes hold the ten letters of `SEGGER RTT` from byte `i` on.
pub open spec fn letters_at(bytes: Seq<u8>, i: int) -> bool {
    &&& 0 <= i <= bytes.len() - 10
    &&& block_at(|k: int| bytes[k], i)
}

/// Whether the event is a read of bytes that shows a control block.
pub open spec fn block_shown(event: Event) -> bool {
    event matches Event::ReadBytes { result: Ok(bytes), .. } && exists|i: int|
        #[trigger] letters_at(bytes, i)
}

proof fn lemma_letters(bytes: Seq<u8>, i: int)
    ensures
        letters_at(bytes, i) <==> occurs_at(bytes, signature(), i),
{
    let memory = |k: int| bytes[k];
    let n = signature().len() as int;
    assert(n == 10);
    if 0 <= i <= bytes.len() - 10 {
        lemma_signed(memory, i);
        let part = bytes.subrange(i, i + n);
        if letters_at(bytes, i) {
            assert forall|k: int| 0 <= k < n implies #[trigger] part[k] == signature()[k] by {
                assert(memory(i + k) == signature()[k]);
            }
            assert(part =~= signature());
        }
        if occurs_at(bytes, signature(), i) {
            assert forall|k: int| 0 <= k < n implies #[trigger] memory(i + k)
                == signature()[k] by {
                assert(part[k] == bytes[i + k]);
            }
        }
    }
}

/// A window shows a control block exactly if the signature is found in it.
proof fn lemma_shown(event: Event)
    ensures
        block_shown(event) <==> (event matches Event::ReadBytes { result: Ok(bytes), .. }
            && found_at(bytes, signature()) is Some),
{
    if let Event::ReadBytes { result: Ok(bytes), .. } = event {
        if let Some(i) = found_at(bytes, signature()) {
            assert(first_at(bytes, signature(), i));
            lemma_letters(bytes, i);
            assert(letters_at(bytes, i));
        }
        if block_shown(event) {
            let i = choose|i: int| #[trigger] letters_at(bytes, i);
            lemma_letters(bytes, i);
            lemma_found_some(bytes, signature(), i);
        }
    }
}

/// A scan reads window after window: the one in its event `m` starts `m` strides
/// into the range, and is as long as a block or as what is left of the range.
proof fn lemma_scan_windows(config: RttConfig, log: Seq<Event>, from: int, at: int, offset: int)
    requires
        from <= at,
        offset == (at - from) * config.scan_stride,
        control_block_found(config, log, at, offset) is Some,
    ensures
        at <= control_block_found(config, log, at, offset)->0.end,
        forall|k: int|
            at <= k < control_block_found(config, log, at, offset)->0.end ==> window_read(
                config,
                #[trigger] log[k],
                k - from,
            ),
        forall|k: int|
            at <= k < control_block_found(config, log, at, offset)->0.end - 1 ==> !block_shown(
                #[trigger] log[k],
            ),
        control_block_found(config, log, at, offset)->0.result is Ok ==> at < control_block_found(
            config,
            log,
            at,
            offset,
        )->0.end && block_shown(log[control_block_found(config, log, at, offset)->0.end - 1]),
        control_block_found(config, log, at, offset)->0.result == Err::<u64, Error>(
            Error::ControlBlockNotFound,
        ) ==> forall|k: int|
            at <= k < control_block_found(config, log, at, offset)->0.end ==> !block_shown(
                #[trigger] log[k],
            ),
        control_block_found(config, log, at, offset)->0.result matches Err(e) ==> e
            is ControlBlockNotFound || e is RttOutOfRange,
        control_block_found(config, log, at, offset)->0.result == Err::<u64, Error>(
            Error::ControlBlockNotFound,
        ) ==> (control_block_found(config, log, at, offset)->0.end - from) * config.scan_stride
            >= config.scan_range,
        control_block_found(config, log, at, offset)->0.result == Err::<u64, Error>(
            Error::RttOutOfRange,
        ) ==> config.scan_stride == 0 || config.scan_start + config.scan_range > u64::MAX
            || config.scan_range + config.scan_stride > u64::MAX || config.scan_block > usize::MAX,
    decreases log.len() - at,
{
    if offset < config.scan_range {
        let addr = config.scan_start + offset;
        let next = offset + config.scan_stride;
        if addr <= u64::MAX && config.window(offset) <= usize::MAX {
            let found = match bytes_read_at(log, at, addr, config.window(offset) as nat)->0 {
                Ok(block) => found_at(block, signature()),
                Err(_) => None,
            };
            assert(window_read(config, log[at], at - from));
            lemma_shown(log[at]);
            if let Some(i) = found {
                let block = bytes_read_at(log, at, addr, config.window(offset) as nat)->0->Ok_0;
                assert(first_at(block, signature(), i));
            } else if config.scan_stride > 0 && next <= u64::MAX {
                assert((at + 1 - from) * config.scan_stride == next) by (nonlinear_arith)
                    requires
                        offset == (at - from) * config.scan_stride,
                        next == offset + config.scan_stride,
                ;
                lemma_scan_windows(config, log, from, at + 1, next);
            }
        }
    }
}

/// Whether the event reads the window that starts `m` strides into the range.
pub open spec fn window_read(config: RttConfig, event: Event, m: int) -> bool {
    let left = config.scan_range - m * config.scan_stride;
    &&& left > 0
    &&& event matches Event::ReadBytes { addr, len, .. } && addr == config.scan_start + m
        * config.scan_stride && len == if left < config.scan_block {
        left
    } else {
        config.scan_block as int
    }
}

/// An attach first reads window after window of the range, then 24 bytes of the
/// control block, then its descriptors.
pub proof fn law_attach_reads_windows(config: RttConfig, log: Seq<Event>, at: int)
    requires
        attached(config, log, at) is Some,
    ensures
        exists|n: int|
            #![trigger scanned(config, log, at, n)]
            scanned(config, log, at, n) && at <= n <= attached(config, log, at)->0.end <= n + 2,
{
    assert(0 * config.scan_stride == 0);
    lemma_scan_windows(config, log, at, at, 0);
    let scan = control_block_found(config, log, at, 0)->0;
    if scan.result is Ok {
        assert(session_read(scan.result->Ok_0, log, scan.end) is Some);
    }
    assert(scanned(config, log, at, scan.end));
}

/// Whether the events `at` up to `n` read the first windows of the range.
pub open spec fn scanned(config: RttConfig, log: Seq<Event>, at: int, n: int) -> bool {
    forall|k: int| at <= k < n ==> window_read(config, #[trigger] log[k], k - at)
}

/// Whether one of the events `at` up to `end` shows a control block.
pub open spec fn block_shown_before(log: Seq<Event>, at: int, end: int) -> bool {
    exists|k: int| at <= k < end && block_shown(#[trigger] log[k])
}

/// An attach fails only for a cause: the range was read to its end and no window
/// showed a control block, a read behind the window that did show one failed, the
/// counts are above 64, or an address does not fit. A window that cannot be read is
/// none.
pub proof fn law_attach_fails_for_a_cause(config: RttConfig, log: Seq<Event>, at: int)
    requires
        attached(config, log, at) matches Some(run) && run.result is Err,
    ensures
        ({
            let run = attached(config, log, at)->0;
            let e = run.result->Err_0;
            &&& e is ControlBlockNotFound || e is Transfer || e is ImplausibleBufferCounts || e
                is RttOutOfRange
            &&& e is ControlBlockNotFound ==> (run.end - at) * config.scan_stride
                >= config.scan_range && forall|k: int|
                at <= k < run.end ==> !block_shown(#[trigger] log[k])
            &&& e matches Error::Transfer(source) ==> at < run.end && read_failed_with(
                log[run.end - 1],
                source,
            ) && block_shown_before(log, at, run.end - 1)
            &&& e matches Error::ImplausibleBufferCounts { up, down } ==> (up > 64 || down > 64)
                && at < run.end && counts_shown(log[run.end - 1], up, down)
                && block_shown_before(log, at, run.end - 1)
            &&& e is RttOutOfRange ==> config.scan_stride == 0 || config.scan_start
                + config.scan_range + 24 + 24 * 128 > u64::MAX || config.scan_range
                + config.scan_stride > u64::MAX || config.scan_block > usize::MAX
        }),
{
    assert(0 * config.scan_stride == 0);
    lemma_scan_windows(config, log, at, at, 0);
    let scan = control_block_found(config, log, at, 0)->0;
    let run = attached(config, log, at)->0;
    if scan.result is Ok {
        let block = scan.result->Ok_0;
        assert(block_shown(log[scan.end - 1]));
        law_scan_stays_in_range(config, log, at);
        let read = session_read(block, log, scan.end)->0;
        let reply = bytes_read_at(log, scan.end, block as int, 24)->0;
        if let Err(e) = reply {
            assert(read_failed_with(log[run.end - 1], e));
        } else {
            let header = reply->Ok_0;
            let up = word_in(header, 16);
            let down = word_in(header, 20);
            let total = up + down;
            if up > 64 || down > 64 {
                assert(run.result->Err_0 == Error::ImplausibleBufferCounts { up, down });
                assert(counts_shown(log[scan.end], up, down));
            } else if block + 24 + 24 * total <= u64::MAX + 1 {
                let second = bytes_read_at(log, scan.end + 1, block + 24, (24 * total) as nat)->0;
                let e = second->Err_0;
                assert(run.end - 1 == scan.end + 1);
                assert(read_failed_with(log[run.end - 1], e));
            } else {
                assert(run.result->Err_0 == Error::RttOutOfRange);
            }
        }
    } else {
        let e = scan.result->Err_0;
        assert(scan.result == Err::<u64, Error>(e));
        assert(run.result == Err::<RttView, Error>(e));
    }
}

/// Whether the event is a read of 24 bytes that shows two numbers at 16 and 20.
pub open spec fn counts_shown(event: Event, up: u32, down: u32) -> bool {
    event matches Event::ReadBytes { len, result: Ok(bytes), .. } && len == 24 && bytes.len() == 24
        && up == bytes[16] + 0x100 * bytes[17] + 0x1_0000 * bytes[18] + 0x100_0000 * bytes[19]
        && down == bytes[20] + 0x100 * bytes[21] + 0x1_0000 * bytes[22] + 0x100_0000 * bytes[23]
}

/// Whether the event is a read of a word that shows `value`.
pub open spec fn word_shown(event: Event, addr: int, value: u32) -> bool {
    event matches Event::ReadWord { addr: a, result } && a == addr && result == Ok::<u32, DapError>(
        value,
    )
}

/// Whether the event is a read of `len` bytes that shows `bytes`.
pub open spec fn bytes_shown(event: Event, addr: int, len: int, bytes: Seq<u8>) -> bool {
    event matches Event::ReadBytes { addr: a, len: n, result } && a == addr && n == len && result
        == Ok::<Seq<u8>, DapError>(bytes)
}

/// Whether the event is a successful write of a word.
pub open spec fn word_stored(event: Event, addr: int, value: u32) -> bool {
    event matches Event::WriteWord { addr: a, value: v, result: Ok(_) } && a == addr && v == value
}

/// Whether the event is a successful write of one byte.
pub open spec fn byte_stored(event: Event, addr: int, byte: u8) -> bool {
    event matches Event::WriteBytes { addr: a, bytes, result: Ok(_) } && a == addr && bytes
        == seq![byte]
}

/// Whether the event is a transfer with memory that failed.
pub open spec fn transfer_failed(event: Event, source: DapError) -> bool {
    match event {
        Event::ReadWord { result, .. } => result == Err::<u32, DapError>(source),
        Event::ReadBytes { result, .. } => result == Err::<Seq<u8>, DapError>(source),
        Event::WriteWord { result, .. } => result == Err::<(), DapError>(source),
        Event::WriteBytes { result, .. } => result == Err::<(), DapError>(source),
        _ => false,
    }
}

/// A read of an up-channel reads the write offset at 12 and the read offset at 16
/// of the descriptor, then the bytes from the read offset to the write offset,
/// around the end of the ring where it must, and moves the read offset up to the
/// write offset.
pub proof fn law_read_up_transfers(rtt: RttView, channel: usize, log: Seq<Event>, at: int)
    requires
        0 <= at,
        channel < rtt.up.len(),
        rtt.up[channel as int].descriptor_addr + 23 <= u64::MAX,
        up_read(rtt, channel, log, at) matches Some(run) && run.result is Ok,
    ensures
        ({
            let buf = rtt.up[channel as int];
            let run = up_read(rtt, channel, log, at)->0;
            let data = run.result->Ok_0;
            exists|wr: u32, rd: u32|
                {
                    &&& #[trigger] word_shown(log[at], buf.descriptor_addr + 12, wr)
                    &&& #[trigger] word_shown(log[at + 1], buf.descriptor_addr + 16, rd)
                    &&& wr == rd ==> data.len() == 0 && run.end == at + 2
                    &&& wr > rd ==> {
                        &&& bytes_shown(log[at + 2], buf.buffer_ptr + rd, wr - rd, data)
                        &&& word_stored(log[at + 3], buf.descriptor_addr + 16, wr)
                        &&& run.end == at + 4
                    }
                    &&& wr < rd ==> {
                        let tail = data.take(buf.size - rd);
                        let head = data.skip(buf.size - rd);
                        &&& rd <= buf.size
                        &&& data.len() == buf.size - rd + wr
                        &&& bytes_shown(log[at + 2], buf.buffer_ptr + rd, buf.size - rd, tail)
                        &&& bytes_shown(log[at + 3], buf.buffer_ptr as int, wr as int, head)
                        &&& word_stored(log[at + 4], buf.descriptor_addr + 16, wr)
                        &&& run.end == at + 5
                    }
                }
        }),
{
    let buf = rtt.up[channel as int];
    let run = up_read(rtt, channel, log, at)->0;
    let data = run.result->Ok_0;
    let wr = word_read_at(log, at, (buf.descriptor_addr + 12) as u64)->0->Ok_0;
    let rd = word_read_at(log, at + 1, (buf.descriptor_addr + 16) as u64)->0->Ok_0;
    assert(word_shown(log[at], buf.descriptor_addr + 12, wr));
    assert(word_shown(log[at + 1], buf.descriptor_addr + 16, rd));
    if wr < rd {
        let tail = bytes_read_at(log, at + 2, buf.buffer_ptr + rd, (buf.size - rd) as nat)->0->Ok_0;
        let head = bytes_read_at(log, at + 3, buf.buffer_ptr as int, wr as nat)->0->Ok_0;
        assert(data == tail + head);
        assert(data.take(buf.size - rd) =~= tail);
        assert(data.skip(buf.size - rd) =~= head);
    }
}

/// A read of an up-channel fails only for a cause: there is no such channel, a
/// transfer failed, or the read offset lies behind the ring.
pub proof fn law_read_up_fails_for_a_cause(rtt: RttView, channel: usize, log: Seq<Event>, at: int)
    requires
        0 <= at,
        up_read(rtt, channel, log, at) is Some,
    ensures
        ({
            let run = up_read(rtt, channel, log, at)->0;
            &&& channel >= rtt.up.len() ==> run.result == Err::<Seq<u8>, Error>(
                Error::NoUpBuffer { channel },
            ) && run.end == at
            &&& channel < rtt.up.len() ==> (run.result matches Err(e) ==> e is Transfer || e
                is RttOutOfRange)
            &&& run.result matches Err(Error::Transfer(source)) ==> at < run.end
                && transfer_failed(log[run.end - 1], source)
            &&& run.result == Err::<Seq<u8>, Error>(Error::RttOutOfRange) ==> (log[at + 1]
                matches Event::ReadWord { result: Ok(rd), .. } && rd > rtt.up[channel as int].size)
        }),
{
}

proof fn lemma_pushes(
    buf: RttBuffer,
    data: Seq<u8>,
    log: Seq<Event>,
    at: int,
    start: u32,
    off: u32,
    k: nat,
)
    requires
        0 <= at,
        k <= data.len(),
        data.len() < buf.size,
        start < buf.size,
        off == (start + k) % (buf.size as int),
        bytes_pushed(buf, data, log, at, off, k) is Some,
    ensures
        ({
            let run = bytes_pushed(buf, data, log, at, off, k)->0;
            &&& at <= run.end
            &&& run.result matches Ok(moved) ==> run.end == at + data.len() - k && moved == (start
                + data.len()) % (buf.size as int)
            &&& run.result is Ok ==> forall|j: int|
                k <= j < data.len() ==> byte_stored(
                    log[at - k + j],
                    buf.buffer_ptr + (start + j) % (buf.size as int),
                    #[trigger] data[j],
                )
            &&& run.result matches Err(e) ==> e is Transfer && at < run.end && transfer_failed(
                log[run.end - 1],
                e->Transfer_0,
            )
        }),
    decreases data.len() - k,
{
    let size = buf.size as int;
    if k < data.len() {
        let reply = bytes_write_at(log, at, buf.buffer_ptr + off, seq![data[k as int]])->0;
        if reply is Ok {
            assert(next_off(buf.size, off) == (start + k + 1) % size) by {
                let sum = start + k;
                if sum < size {
                    assert(sum % size == sum) by (nonlinear_arith)
                        requires
                            0 <= sum < size,
                    ;
                } else {
                    assert(sum % size == sum - size) by (nonlinear_arith)
                        requires
                            size <= sum < 2 * size,
                    ;
                }
                if sum + 1 < size {
                    assert((sum + 1) % size == sum + 1) by (nonlinear_arith)
                        requires
                            0 <= sum + 1 < size,
                    ;
                } else if sum + 1 < 2 * size {
                    assert((sum + 1) % size == sum + 1 - size) by (nonlinear_arith)
                        requires
                            size <= sum + 1 < 2 * size,
                    ;
                }
            }
            lemma_pushes(buf, data, log, at + 1, start, next_off(buf.size, off), k + 1);
            let run = bytes_pushed(buf, data, log, at, off, k)->0;
            if run.result is Ok {
                assert forall|j: int| k <= j < data.len() implies byte_stored(
                    log[at - k + j],
                    buf.buffer_ptr + (start + j) % size,
                    #[trigger] data[j],
                ) by {
                    if j > k {
                        assert(at - k + j == (at + 1) - (k + 1) + j);
                        assert(byte_stored(
                            log[(at + 1) - (k + 1) + j],
                            buf.buffer_ptr + (start + j) % (buf.size as int),
                            data[j],
                        ));
                    } else {
                        assert(j == k);
                        assert(byte_stored(log[at], buf.buffer_ptr + off, data[k as int]));
                    }
                }
            }
        }
    }
}

/// A write to a down-channel reads the read offset at 16 and the write offset at
/// 12 of the descriptor. A payload that leaves at least one slot free is stored
/// byte by byte from the write offset on, around the end of the ring where it
/// must, and the write offset is moved behind it. Any other is not stored at all.
#[verifier::rlimit(40)]
pub proof fn law_write_down_transfers(
    rtt: RttView,
    channel: usize,
    data: Seq<u8>,
    log: Seq<Event>,
    at: int,
    wr: u32,
    rd: u32,
)
    requires
        0 <= at,
        channel < rtt.down.len(),
        data.len() <= usize::MAX,
        rtt.down[channel as int].descriptor_addr + 23 <= u64::MAX,
        word_shown(log[at], rtt.down[channel as int].descriptor_addr + 16, rd),
        word_shown(log[at + 1], rtt.down[channel as int].descriptor_addr + 12, wr),
        wr < rtt.down[channel as int].size,
        rd < rtt.down[channel as int].size,
        down_written(rtt, channel, data, log, at) is Some,
    ensures
        ({
            let buf = rtt.down[channel as int];
            let size = buf.size as int;
            let run = down_written(rtt, channel, data, log, at)->0;
            let taken = (wr + size - rd) % size;
            &&& taken + data.len() >= size ==> run.result == Ok::<usize, Error>(0) && run.end == at
                + 2
            &&& taken + data.len() < size ==> {
                &&& run.result matches Ok(n) ==> {
                    &&& n == data.len()
                    &&& run.end == at + 2 + data.len() + 1
                    &&& forall|j: int|
                        0 <= j < data.len() ==> byte_stored(
                            log[at + 2 + j],
                            buf.buffer_ptr + (wr + j) % size,
                            #[trigger] data[j],
                        )
                    &&& word_stored(
                        log[run.end - 1],
                        buf.descriptor_addr + 12,
                        ((wr + data.len()) % size) as u32,
                    )
                }
                &&& run.result matches Err(e) ==> e is Transfer && at + 2 < run.end
                    && transfer_failed(log[run.end - 1], e->Transfer_0)
            }
        }),
{
    let buf = rtt.down[channel as int];
    let size = buf.size as int;
    let taken = (wr + size - rd) % size;
    if wr >= rd {
        let sum = wr + size - rd;
        assert(sum % size == sum - size) by (nonlinear_arith)
            requires
                size <= sum < 2 * size,
        ;
    } else {
        let sum = wr + size - rd;
        assert(sum % size == sum) by (nonlinear_arith)
            requires
                0 <= sum < size,
        ;
    }
    assert(wr as int % size == wr) by (nonlinear_arith)
        requires
            0 <= wr < size,
    ;
    let run = down_written(rtt, channel, data, log, at)->0;
    if taken + data.len() < size {
        assert(bytes_pushed(buf, data, log, at + 2, wr, 0) is Some);
        lemma_pushes(buf, data, log, at + 2, wr, wr, 0);
        let pushed = bytes_pushed(buf, data, log, at + 2, wr, 0)->0;
        if run.result is Ok {
            assert forall|j: int| 0 <= j < data.len() implies byte_stored(
                log[at + 2 + j],
                buf.buffer_ptr + (wr + j) % size,
                #[trigger] data[j],
            ) by {
                assert(at + 2 + j == (at + 2) - 0 + j);
            }
        }
    }
}

/// A write to a channel that the session does not have fails before any transfer.
pub proof fn law_write_down_needs_channel(
    rtt: RttView,
    channel: usize,
    data: Seq<u8>,
    log: Seq<Event>,
    at: int,
)
    requires
        channel >= rtt.down.len(),
    ensures
        down_written(rtt, channel, data, log, at) matches Some(run) && run.result == Err::<
            usize,
            Error,
        >(Error::NoDownBuffer { channel }) && run.end == at,
{
}

/// A write to a down-channel that succeeds has read both of its offsets.
pub proof fn law_write_down_reads_offsets(
    rtt: RttView,
    channel: usize,
    data: Seq<u8>,
    log: Seq<Event>,
    at: int,
)
    requires
        0 <= at,
        channel < rtt.down.len(),
        rtt.down[channel as int].descriptor_addr + 23 <= u64::MAX,
        down_written(rtt, channel, data, log, at) matches Some(run) && run.result is Ok,
    ensures
        exists|rd: u32, wr: u32|
            #[trigger] word_shown(log[at], rtt.down[channel as int].descriptor_addr + 16, rd)
                && #[trigger] word_shown(
                log[at + 1],
                rtt.down[channel as int].descriptor_addr + 12,
                wr,
            ),
{
    let desc = rtt.down[channel as int].descriptor_addr;
    let rd = word_read_at(log, at, (desc + 16) as u64)->0->Ok_0;
    let wr = word_read_at(log, at + 1, (desc + 12) as u64)->0->Ok_0;
    assert(word_shown(log[at], desc + 16, rd) && word_shown(log[at + 1], desc + 12, wr));
}

/// The default windows cover the first 64 KiB of SRAM, and overlap by more than
/// the length of the signature.
pub proof fn law_default_windows_overlap()
    ensures
        RttConfig::sram_window().scan_start == 0x2000_0000,
        RttConfig::sram_window().scan_range == 0x1_0000,
        RttConfig::sram_window().scan_block == 0x1000,
        RttConfig::sram_window().scan_stride == 0x800,
        RttConfig::sram_window().scan_stride + 9 <= RttConfig::sram_window().scan_block,
{
}

/// Whether `needle` stands in `haystack` at `i`, byte for byte.
pub open spec fn stands_at(haystack: Seq<u8>, needle: Seq<u8>, i: int) -> bool {
    &&& 0 <= i
    &&& i + needle.len() <= haystack.len()
    &&& forall|k: int| 0 <= k < needle.len() ==> haystack[i + k] == #[trigger] needle[k]
}

/// What is found is the first place at which the bytes looked for stand, and where
/// nothing is found they stand nowhere. No bytes are not found.
pub proof fn law_first_place_is_found(haystack: Seq<u8>, needle: Seq<u8>, j: int)
    ensures
        found_at(haystack, needle) matches Some(i) ==> needle.len() > 0 && stands_at(
            haystack,
            needle,
            i,
        ) && (j < i ==> !stands_at(haystack, needle, j)),
        found_at(haystack, needle) is None && needle.len() > 0 ==> !stands_at(haystack, needle, j),
{
    lemma_stands(haystack, needle, j);
    if let Some(i) = found_at(haystack, needle) {
        assert(first_at(haystack, needle, i));
        lemma_stands(haystack, needle, i);
        if j < i && stands_at(haystack, needle, j) {
            assert(occurs_at(haystack, needle, j));
        }
    } else if needle.len() > 0 && stands_at(haystack, needle, j) {
        lemma_found_some(haystack, needle, j);
    }
}

proof fn lemma_stands(haystack: Seq<u8>, needle: Seq<u8>, i: int)
    ensures
        stands_at(haystack, needle, i) <==> occurs_at(haystack, needle, i),
{
    if 0 <= i && i + needle.len() <= haystack.len() {
        let part = haystack.subrange(i, i + needle.len());
        if occurs_at(haystack, needle, i) {
            assert forall|k: int| 0 <= k < needle.len() implies haystack[i + k]
                == #[trigger] needle[k] by {
                assert(part[k] == haystack[i + k]);
            }
        }
        if stands_at(haystack, needle, i) {
            assert(part =~= needle);
        }
    }
}

/// What is free in a ring is every slot from the write offset on up to the read
/// offset, less one.
pub proof fn law_free_slots(size: u32, write_off: u32, read_off: u32)
    requires
        write_off < size,
        read_off < size,
    ensures
        free_space(size, write_off, read_off) == (read_off + size - write_off - 1) % (size as int),
{
    let n = size as int;
    let sum = read_off + n - write_off - 1;
    if write_off >= read_off {
        assert(sum % n == sum) by (nonlinear_arith)
            requires
                0 <= sum < n,
        ;
    } else {
        assert(sum % n == sum - n) by (nonlinear_arith)
            requires
                n <= sum < 2 * n,
        ;
    }
}

} // verus!
