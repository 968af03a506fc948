//! What reads and writes mean for the ring buffers of a device.

use vstd::prelude::*;

use crate::dap::io::{DapError, Event, bytes_read_at, filled, word_read_at, word_write_at};
use crate::dap::memory::{
    Memory, faithful, le_word, lemma_untouched, memory_at, shows, touches, word_byte,
};
use crate::error::Error;
use crate::rtt::{
    RttBuffer, RttConfig, RttView, attached, bytes_pushed, control_block_found, down_written,
    first_at, found_at, free_space, lemma_found_in_range, next_off, occurs_at, pending_read,
    session_read, signature, up_read,
};

verus! {

/// The number of bytes between the read offset and the write offset.
pub open spec fn fill(size: u32, write_off: u32, read_off: u32) -> int {
    if write_off >= read_off {
        write_off - read_off
    } else {
        size - read_off + write_off
    }
}

/// The place in the ring that is `i` places behind `off`.
pub open spec fn slot(size: u32, off: u32, i: int) -> int {
    if off + i >= size {
        off + i - size
    } else {
        off + i
    }
}

/// The word that memory holds at an address.
pub open spec fn word_held(memory: Memory, addr: int) -> u32 {
    le_word(memory(addr), memory(addr + 1), memory(addr + 2), memory(addr + 3))
}

/// The write offset that a ring buffer's descriptor holds.
pub open spec fn write_off(memory: Memory, buf: RttBuffer) -> u32 {
    word_held(memory, buf.descriptor_addr + 12)
}

/// The read offset that a ring buffer's descriptor holds.
pub open spec fn read_off(memory: Memory, buf: RttBuffer) -> u32 {
    word_held(memory, buf.descriptor_addr + 16)
}

/// The bytes of a ring buffer that were written and not read yet, oldest first.
pub open spec fn pending(memory: Memory, buf: RttBuffer) -> Seq<u8> {
    Seq::new(
        fill(buf.size, write_off(memory, buf), read_off(memory, buf)) as nat,
        |i: int| memory(buf.buffer_ptr + slot(buf.size, read_off(memory, buf), i)),
    )
}

/// Whether the offsets of a ring buffer lie in it.
pub open spec fn offsets_sound(memory: Memory, buf: RttBuffer) -> bool {
    &&& write_off(memory, buf) < buf.size
    &&& read_off(memory, buf) < buf.size
    &&& buf.descriptor_addr + 23 <= u64::MAX
}

/// Whether the offsets of a ring buffer lie in it, and it does not lie on its
/// own descriptor.
pub open spec fn ring_sound(memory: Memory, buf: RttBuffer) -> bool {
    &&& offsets_sound(memory, buf)
    &&& buf.buffer_ptr + buf.size <= buf.descriptor_addr || buf.descriptor_addr + 24
        <= buf.buffer_ptr
}

/// A ring buffer keeps one slot free: what it holds and what is free make up all
/// slots but one, and it is empty exactly if its offsets are equal.
pub proof fn law_ring_reserves_one_slot(size: u32, write_off: u32, read_off: u32)
    requires
        write_off < size,
        read_off < size,
    ensures
        fill(size, write_off, read_off) + free_space(size, write_off, read_off) == size - 1,
        0 <= free_space(size, write_off, read_off) <= size - 1,
        fill(size, write_off, read_off) == 0 <==> write_off == read_off,
{
}

/// A word is made of its bytes.
proof fn lemma_word(word: u32)
    ensures
        le_word(word_byte(word, 0), word_byte(word, 1), word_byte(word, 2), word_byte(word, 3))
            == word,
{
    assert(word / 0x1_0000 == word / 0x100 / 0x100);
    assert(word / 0x100_0000 == word / 0x1_0000 / 0x100);
}

/// A word that was read from a device that keeps what is written to it is the
/// one that memory holds.
proof fn lemma_word_read(memory: Memory, log: Seq<Event>, from: int, at: int, to: int, addr: u64)
    requires
        from <= at < to,
        faithful(memory, log, from, to),
        word_read_at(log, at, addr) matches Some(reply) && reply is Ok,
    ensures
        word_read_at(log, at, addr)->0->Ok_0 == word_held(
            memory_at(memory, log, from, at),
            addr as int,
        ),
{
    let value = word_read_at(log, at, addr)->0->Ok_0;
    let held = memory_at(memory, log, from, at);
    assert(shows(held, log[at]));
    assert(word_byte(value, 0) == held(addr + 0));
    assert(word_byte(value, 1) == held(addr + 1));
    assert(word_byte(value, 2) == held(addr + 2));
    assert(word_byte(value, 3) == held(addr + 3));
    lemma_word(value);
}

/// A word that was written is the one that memory holds afterwards, and the rest
/// of memory stays as it is.
proof fn lemma_word_written(
    memory: Memory,
    log: Seq<Event>,
    from: int,
    at: int,
    addr: u64,
    value: u32,
)
    requires
        from <= at,
        word_write_at(log, at, addr, value) == Some(Ok::<(), DapError>(())),
    ensures
        word_held(memory_at(memory, log, from, at + 1), addr as int) == value,
        forall|a: int|
            a < addr || addr + 4 <= a ==> #[trigger] memory_at(memory, log, from, at + 1)(a)
                == memory_at(memory, log, from, at)(a),
{
    let held = memory_at(memory, log, from, at + 1);
    assert(touches(log[at], addr as int) && held(addr as int) == word_byte(value, 0));
    assert(touches(log[at], addr + 1) && held(addr + 1) == word_byte(value, 1));
    assert(touches(log[at], addr + 2) && held(addr + 2) == word_byte(value, 2));
    assert(touches(log[at], addr + 3) && held(addr + 3) == word_byte(value, 3));
    lemma_word(value);
}

/// An event that is no write leaves memory as it is.
pub proof fn lemma_unwritten(memory: Memory, log: Seq<Event>, from: int, at: int)
    requires
        from <= at,
        forall|a: int| !#[trigger] touches(log[at], a),
    ensures
        forall|a: int| #[trigger]
            memory_at(memory, log, from, at + 1)(a) == memory_at(memory, log, from, at)(a),
{
    assert forall|a: int| #[trigger]
        memory_at(memory, log, from, at + 1)(a) == memory_at(memory, log, from, at)(a) by {
        assert(!touches(log[at], a));
    }
}

/// The bytes of a payload from byte `k` on end up in the slots behind the write
/// offset, and no other byte of memory changes.
#[verifier::rlimit(40)]
proof fn lemma_pushed(
    buf: RttBuffer,
    data: Seq<u8>,
    memory: Memory,
    log: Seq<Event>,
    from: int,
    at: int,
    off: u32,
    k: nat,
)
    requires
        from <= at,
        off < buf.size,
        k <= data.len(),
        data.len() - k < buf.size,
        bytes_pushed(buf, data, log, at, off, k) matches Some(run) && run.result is Ok,
    ensures
        ({
            let run = bytes_pushed(buf, data, log, at, off, k)->0;
            let left = data.len() - k;
            let before = memory_at(memory, log, from, at);
            let held = memory_at(memory, log, from, run.end);
            &&& run.end == at + left
            &&& run.result->Ok_0 == slot(buf.size, off, left)
            &&& forall|i: int|
                0 <= i < left ==> held(buf.buffer_ptr + #[trigger] slot(buf.size, off, i))
                    == data[k + i]
            &&& forall|a: int|
                (forall|i: int|
                    0 <= i < left ==> a != buf.buffer_ptr + #[trigger] slot(buf.size, off, i))
                    ==> #[trigger] held(a) == before(a)
        }),
    decreases data.len() - k,
{
    if k < data.len() {
        let next = next_off(buf.size, off);
        let left = data.len() - k;
        let end = bytes_pushed(buf, data, log, at, off, k)->0.end;
        lemma_pushed(buf, data, memory, log, from, at + 1, next, k + 1);
        let before = memory_at(memory, log, from, at);
        let mid = memory_at(memory, log, from, at + 1);
        let held = memory_at(memory, log, from, end);
        let here = buf.buffer_ptr + off;
        assert(touches(log[at], here));
        assert(mid(here) == data[k as int]);
        assert forall|i: int| 0 <= i < left implies held(
            buf.buffer_ptr + #[trigger] slot(buf.size, off, i),
        ) == data[k + i] by {
            if i == 0 {
                assert forall|m: int| 0 <= m < left - 1 implies here != buf.buffer_ptr
                    + #[trigger] slot(buf.size, next, m) by {}
                assert(held(here) == mid(here));
            } else {
                assert(slot(buf.size, off, i) == slot(buf.size, next, i - 1));
            }
        }
        assert forall|a: int|
            (forall|i: int|
                0 <= i < left ==> a != buf.buffer_ptr + #[trigger] slot(
                    buf.size,
                    off,
                    i,
                )) implies #[trigger] held(a) == before(a) by {
            assert(a != buf.buffer_ptr + slot(buf.size, off, 0));
            assert forall|m: int| 0 <= m < left - 1 implies a != buf.buffer_ptr + #[trigger] slot(
                buf.size,
                next,
                m,
            ) by {
                assert(slot(buf.size, next, m) == slot(buf.size, off, m + 1));
            }
            assert(held(a) == mid(a));
            assert(!touches(log[at], a));
            assert(mid(a) == before(a));
        }
    }
}

proof fn lemma_pushed_events(
    buf: RttBuffer,
    data: Seq<u8>,
    log: Seq<Event>,
    at: int,
    off: u32,
    k: nat,
)
    ensures
        bytes_pushed(buf, data, log, at, off, k) matches Some(run) ==> at <= run.end,
    decreases data.len() - k,
{
    if k < data.len() {
        lemma_pushed_events(buf, data, log, at + 1, next_off(buf.size, off), k + 1);
    }
}

/// A successful write to a down-buffer appends exactly the payload to what is
/// pending, or leaves everything as it is where the payload does not fit as a
/// whole. The read offset stays as it is.
#[verifier::rlimit(40)]
pub proof fn law_write_down_appends(
    rtt: RttView,
    channel: usize,
    data: Seq<u8>,
    memory: Memory,
    log: Seq<Event>,
    at: int,
)
    requires
        channel < rtt.down.len(),
        ring_sound(memory, rtt.down[channel as int]),
        down_written(rtt, channel, data, log, at) matches Some(run) && run.result is Ok
            && faithful(memory, log, at, run.end),
    ensures
        ({
            let buf = rtt.down[channel as int];
            let run = down_written(rtt, channel, data, log, at)->0;
            let held = memory_at(memory, log, at, run.end);
            let fits = data.len() <= free_space(
                buf.size,
                write_off(memory, buf),
                read_off(memory, buf),
            );
            &&& ring_sound(held, buf)
            &&& read_off(held, buf) == read_off(memory, buf)
            &&& run.result->Ok_0 == (if fits {
                data.len()
            } else {
                0
            })
            &&& pending(held, buf) == (if fits {
                pending(memory, buf) + data
            } else {
                pending(memory, buf)
            })
        }),
{
    let buf = rtt.down[channel as int];
    let desc = buf.descriptor_addr;
    let run = down_written(rtt, channel, data, log, at)->0;
    let held = memory_at(memory, log, at, run.end);
    let m2 = memory_at(memory, log, at, at + 2);
    let rd = read_off(memory, buf);
    let wr = write_off(memory, buf);
    let moved_from = word_read_at(log, at + 1, (desc + 12) as u64)->0->Ok_0;
    lemma_pushed_events(buf, data, log, at + 2, moved_from, 0);
    assert(run.end >= at + 2);
    lemma_word_read(memory, log, at, at, run.end, (desc + 16) as u64);
    lemma_unwritten(memory, log, at, at);
    lemma_word_read(memory, log, at, at + 1, run.end, (desc + 12) as u64);
    lemma_unwritten(memory, log, at, at + 1);
    assert(forall|a: int| #[trigger] m2(a) == memory(a));
    assert(word_read_at(log, at, (desc + 16) as u64)->0->Ok_0 == rd);
    assert(word_read_at(log, at + 1, (desc + 12) as u64)->0->Ok_0 == wr);
    if data.len() <= free_space(buf.size, wr, rd) {
        lemma_pushed(buf, data, memory, log, at, at + 2, wr, 0);
        let pushed = bytes_pushed(buf, data, log, at + 2, wr, 0)->0;
        let filled = memory_at(memory, log, at, pushed.end);
        let moved = pushed.result->Ok_0;
        lemma_word_written(memory, log, at, pushed.end, (desc + 12) as u64, moved);
        assert forall|a: int| desc <= a < desc + 24 implies #[trigger] filled(a) == memory(a) by {
            assert(filled(a) == m2(a));
        }
        assert forall|i: int| #![trigger slot(buf.size, rd, i)]
            0 <= i < fill(buf.size, moved, rd) implies held(
            buf.buffer_ptr + slot(buf.size, rd, i),
        ) == filled(buf.buffer_ptr + slot(buf.size, rd, i)) by {}
        assert(pending(held, buf) =~= pending(memory, buf) + data) by {
            let old_fill = fill(buf.size, wr, rd);
            assert(fill(buf.size, moved, rd) == old_fill + data.len());
            assert forall|i: int| 0 <= i < old_fill + data.len() implies pending(held, buf)[i] == (
            pending(memory, buf) + data)[i] by {
                let a = buf.buffer_ptr + slot(buf.size, rd, i);
                assert(pending(held, buf)[i] == filled(a));
                if i < old_fill {
                    assert forall|m: int| 0 <= m < data.len() implies a != buf.buffer_ptr
                        + #[trigger] slot(buf.size, wr, m) by {}
                    assert(filled(a) == m2(a));
                } else {
                    assert(slot(buf.size, rd, i) == slot(buf.size, wr, i - old_fill));
                }
            }
        }
    } else {
        assert(pending(held, buf) =~= pending(memory, buf));
    }
}

/// The reads of an up-buffer show what memory held before: its offsets, and what
/// is pending between them.
#[verifier::rlimit(40)]
proof fn lemma_up_read(rtt: RttView, channel: usize, memory: Memory, log: Seq<Event>, at: int)
    requires
        channel < rtt.up.len(),
        offsets_sound(memory, rtt.up[channel as int]),
        up_read(rtt, channel, log, at) matches Some(run) && run.result is Ok && faithful(
            memory,
            log,
            at,
            run.end,
        ),
    ensures
        ({
            let buf = rtt.up[channel as int];
            let desc = buf.descriptor_addr;
            let run = up_read(rtt, channel, log, at)->0;
            let wr = write_off(memory, buf);
            let rd = read_off(memory, buf);
            &&& run.result->Ok_0 == pending(memory, buf)
            &&& wr == rd ==> run.end == at + 2
            &&& wr != rd ==> run.end > at + 2 && word_write_at(
                log,
                run.end - 1,
                (desc + 16) as u64,
                wr,
            ) == Some(Ok::<(), DapError>(()))
            &&& forall|k: int, a: int|
                at <= k < (if wr == rd {
                    run.end
                } else {
                    run.end - 1
                }) ==> !#[trigger] touches(log[k], a)
        }),
{
    let buf = rtt.up[channel as int];
    let desc = buf.descriptor_addr;
    let run = up_read(rtt, channel, log, at)->0;
    let m2 = memory_at(memory, log, at, at + 2);
    let rd = read_off(memory, buf);
    let wr = write_off(memory, buf);
    assert(run.end >= at + 2);
    lemma_word_read(memory, log, at, at, run.end, (desc + 12) as u64);
    lemma_unwritten(memory, log, at, at);
    lemma_word_read(memory, log, at, at + 1, run.end, (desc + 16) as u64);
    lemma_unwritten(memory, log, at, at + 1);
    assert(forall|a: int| #[trigger] m2(a) == memory(a));
    assert(word_read_at(log, at, (desc + 12) as u64)->0->Ok_0 == wr);
    assert(word_read_at(log, at + 1, (desc + 16) as u64)->0->Ok_0 == rd);
    if wr == rd {
        assert(pending(memory, buf) =~= Seq::<u8>::empty());
    } else {
        let read = pending_read(buf, wr, rd, log, at + 2)->0;
        let data = read.result->Ok_0;
        lemma_unwritten(memory, log, at, at + 2);
        assert(shows(m2, log[at + 2]));
        if wr > rd {
            assert(data =~= pending(memory, buf));
        } else {
            let m3 = memory_at(memory, log, at, at + 3);
            lemma_unwritten(memory, log, at, at + 3);
            assert(shows(m3, log[at + 3]));
            let tail = bytes_read_at(
                log,
                at + 2,
                buf.buffer_ptr + rd,
                (buf.size - rd) as nat,
            )->0->Ok_0;
            assert forall|i: int| 0 <= i < data.len() implies data[i] == pending(
                memory,
                buf,
            )[i] by {
                if i < tail.len() {
                    assert(data[i] == tail[i]);
                    assert(tail[i] == m2(buf.buffer_ptr + rd + i));
                } else {
                    assert(data[i] == m3(buf.buffer_ptr + (i - tail.len())));
                }
            }
            assert(data =~= pending(memory, buf));
        }
        assert(run.end == read.end + 1);
    }
}

/// A successful read of an up-buffer gives back exactly what is pending, wherever
/// the ring lies.
pub proof fn law_read_up_returns_pending(
    rtt: RttView,
    channel: usize,
    memory: Memory,
    log: Seq<Event>,
    at: int,
)
    requires
        channel < rtt.up.len(),
        offsets_sound(memory, rtt.up[channel as int]),
        up_read(rtt, channel, log, at) matches Some(run) && run.result is Ok && faithful(
            memory,
            log,
            at,
            run.end,
        ),
    ensures
        up_read(rtt, channel, log, at)->0.result->Ok_0 == pending(
            memory,
            rtt.up[channel as int],
        ),
{
    lemma_up_read(rtt, channel, memory, log, at);
}

/// A successful read of an up-buffer leaves nothing pending. The write offset
/// stays as it is.
pub proof fn law_read_up_drains(
    rtt: RttView,
    channel: usize,
    memory: Memory,
    log: Seq<Event>,
    at: int,
)
    requires
        channel < rtt.up.len(),
        ring_sound(memory, rtt.up[channel as int]),
        up_read(rtt, channel, log, at) matches Some(run) && run.result is Ok && faithful(
            memory,
            log,
            at,
            run.end,
        ),
    ensures
        ({
            let buf = rtt.up[channel as int];
            let run = up_read(rtt, channel, log, at)->0;
            let held = memory_at(memory, log, at, run.end);
            &&& run.result->Ok_0 == pending(memory, buf)
            &&& ring_sound(held, buf)
            &&& write_off(held, buf) == write_off(memory, buf)
            &&& pending(held, buf) == Seq::<u8>::empty()
        }),
{
    lemma_up_read(rtt, channel, memory, log, at);
    let buf = rtt.up[channel as int];
    let desc = buf.descriptor_addr;
    let end = up_read(rtt, channel, log, at)->0.end;
    let held = memory_at(memory, log, at, end);
    let rd = read_off(memory, buf);
    let wr = write_off(memory, buf);
    let last = if wr == rd {
        end
    } else {
        end - 1
    };
    let before = memory_at(memory, log, at, last);
    assert forall|a: int| #[trigger] before(a) == memory(a) by {
        lemma_untouched(memory, log, at, at, last, a);
    }
    if wr != rd {
        lemma_word_written(memory, log, at, last, (desc + 16) as u64, wr);
    }
    assert(write_off(held, buf) == wr && read_off(held, buf) == wr);
    assert(pending(held, buf) =~= Seq::<u8>::empty());
}

/// The number of bytes that a successful read of an up-buffer gives back is that
/// between the offsets which it was shown, whatever the device does otherwise.
pub proof fn law_read_up_length(rtt: RttView, channel: usize, log: Seq<Event>, at: int)
    requires
        channel < rtt.up.len(),
        up_read(rtt, channel, log, at) matches Some(run) && run.result is Ok,
    ensures
        ({
            let buf = rtt.up[channel as int];
            let wr = word_read_at(log, at, (buf.descriptor_addr + 12) as u64)->0->Ok_0;
            let rd = word_read_at(log, at + 1, (buf.descriptor_addr + 16) as u64)->0->Ok_0;
            up_read(rtt, channel, log, at)->0.result->Ok_0.len() == fill(buf.size, wr, rd)
        }),
{
}

/// Whether memory holds the signature of a control block at an address.
pub open spec fn signed(memory: Memory, addr: int) -> bool {
    forall|i: int|
        0 <= i < signature().len() ==> #[trigger] memory(addr + i) == signature()[i]
}

/// Whether every read among the events `from` up to `to` succeeded.
pub open spec fn all_read(log: Seq<Event>, from: int, to: int) -> bool {
    forall|k: int|
        from <= k < to ==> (#[trigger] log[k] matches Event::ReadBytes { result, .. } ==> result
            is Ok)
}

/// A scan only reads: memory stays as it is.
pub proof fn lemma_scan_reads(
    config: RttConfig,
    memory: Memory,
    log: Seq<Event>,
    from: int,
    at: int,
    offset: int,
)
    requires
        from <= at,
        control_block_found(config, log, at, offset) is Some,
    ensures
        at <= control_block_found(config, log, at, offset)->0.end,
        forall|a: int|
            #![trigger memory_at(
                memory,
                log,
                from,
                control_block_found(config, log, at, offset)->0.end,
            )(a)]
            memory_at(memory, log, from, control_block_found(config, log, at, offset)->0.end)(a)
                == memory_at(memory, log, from, at)(a),
    decreases log.len() - at,
{
    if offset < config.scan_range {
        let addr = config.scan_start + offset;
        if addr <= u64::MAX && config.window(offset) <= usize::MAX {
            lemma_unwritten(memory, log, from, at);
        }
        let found = match bytes_read_at(log, at, addr, config.window(offset) as nat)->0 {
            Ok(block) => found_at(block, signature()),
            Err(_) => None,
        };
        if addr <= u64::MAX && config.window(offset) <= usize::MAX && found is None
            && config.scan_stride > 0 && offset + config.scan_stride <= u64::MAX {
            lemma_scan_reads(config, memory, log, from, at + 1, offset + config.scan_stride);
        }
    }
}

proof fn lemma_scan_found(
    config: RttConfig,
    memory: Memory,
    log: Seq<Event>,
    from: int,
    at: int,
    offset: int,
)
    requires
        from <= at,
        control_block_found(config, log, at, offset) matches Some(run) && run.result is Ok
            && faithful(memory, log, from, run.end),
    ensures
        signed(
            memory_at(memory, log, from, at),
            control_block_found(config, log, at, offset)->0.result->Ok_0 as int,
        ),
    decreases log.len() - at,
{
    let run = control_block_found(config, log, at, offset)->0;
    let held = memory_at(memory, log, from, at);
    let addr = config.scan_start + offset;
    lemma_scan_reads(config, memory, log, from, at, offset);
    lemma_unwritten(memory, log, from, at);
    let reply = bytes_read_at(log, at, addr, config.window(offset) as nat)->0;
    let found = match reply {
        Ok(block) => found_at(block, signature()),
        Err(_) => None,
    };
    match found {
        Some(i) => {
            let block = reply->Ok_0;
            assert(shows(held, log[at]));
            assert(first_at(block, signature(), i));
            assert forall|k: int| 0 <= k < signature().len() implies #[trigger] held(
                (addr + i) + k,
            ) == signature()[k] by {
                assert(block.subrange(i, i + signature().len())[k] == block[i + k]);
                assert(block[i + k] == held(addr + (i + k)));
            }
        },
        None => {
            lemma_scan_found(config, memory, log, from, at + 1, offset + config.scan_stride);
            let next = memory_at(memory, log, from, at + 1);
            let place = run.result->Ok_0 as int;
            assert forall|k: int| 0 <= k < signature().len() implies #[trigger] held(place + k)
                == signature()[k] by {
                assert(next(place + k) == held(place + k));
            }
        },
    }
}

/// A scan never leaves its range: what it finds lies in it as a whole.
pub proof fn law_scan_stays_in_range(config: RttConfig, log: Seq<Event>, at: int)
    requires
        control_block_found(config, log, at, 0) matches Some(run) && run.result is Ok,
    ensures
        ({
            let found = control_block_found(config, log, at, 0)->0.result->Ok_0;
            &&& config.scan_start <= found
            &&& found + signature().len() <= config.scan_start + config.scan_range
        }),
{
    lemma_found_in_range(config, log, at, 0);
}

/// A scan that succeeds ends at an address at which memory holds the signature.
pub proof fn law_scan_finds_signature(
    config: RttConfig,
    memory: Memory,
    log: Seq<Event>,
    at: int,
)
    requires
        control_block_found(config, log, at, 0) matches Some(run) && run.result is Ok
            && faithful(memory, log, at, run.end),
    ensures
        signed(memory, control_block_found(config, log, at, 0)->0.result->Ok_0 as int),
{
    lemma_scan_found(config, memory, log, at, at, 0);
}

proof fn lemma_scan_misses(
    config: RttConfig,
    memory: Memory,
    log: Seq<Event>,
    from: int,
    at: int,
    offset: int,
    place: int,
)
    requires
        from <= at,
        config.scan_stride > 0,
        config.scan_stride + signature().len() <= config.scan_block + 1,
        control_block_found(config, log, at, offset) matches Some(run) && run.result == Err::<
            u64,
            Error,
        >(Error::ControlBlockNotFound) && faithful(memory, log, from, run.end) && all_read(
            log,
            at,
            run.end,
        ),
        0 <= offset,
        config.scan_start + offset <= place,
        place + signature().len() <= config.scan_start + config.scan_range,
    ensures
        !signed(memory_at(memory, log, from, at), place),
    decreases log.len() - at,
{
    let held = memory_at(memory, log, from, at);
    let addr = config.scan_start + offset;
    lemma_scan_reads(config, memory, log, from, at, offset);
    lemma_unwritten(memory, log, from, at);
    let reply = bytes_read_at(log, at, addr, config.window(offset) as nat)->0;
    lemma_scan_reads(config, memory, log, from, at + 1, offset + config.scan_stride);
    assert(log[at] matches Event::ReadBytes { result, .. } && result == reply);
    assert(shows(held, log[at]));
    let block = reply->Ok_0;
    assert(found_at(block, signature()) is None);
    if signed(held, place) {
        if place < addr + config.scan_stride {
            let i = place - addr;
            assert forall|k: int| 0 <= k < signature().len() implies block[i + k]
                == signature()[k] by {
                assert(block[i + k] == held(addr + (i + k)));
                assert(held(place + k) == signature()[k]);
            }
            assert(block.subrange(i, i + signature().len()) =~= signature());
            assert(occurs_at(block, signature(), i));
            lemma_found_some(block, signature(), i);
        } else {
            lemma_scan_misses(
                config,
                memory,
                log,
                from,
                at + 1,
                offset + config.scan_stride,
                place,
            );
            let next = memory_at(memory, log, from, at + 1);
            assert forall|k: int| 0 <= k < signature().len() implies #[trigger] next(place + k)
                == signature()[k] by {
                assert(next(place + k) == held(place + k));
            }
        }
    }
}

/// Where a needle stands somewhere, it is found.
pub proof fn lemma_found_some(haystack: Seq<u8>, needle: Seq<u8>, i: int)
    requires
        needle.len() > 0,
        occurs_at(haystack, needle, i),
    ensures
        found_at(haystack, needle) is Some,
    decreases i,
{
    if exists|j: int| 0 <= j < i && #[trigger] occurs_at(haystack, needle, j) {
        let j = choose|j: int| 0 <= j < i && #[trigger] occurs_at(haystack, needle, j);
        lemma_found_some(haystack, needle, j);
    } else {
        assert(first_at(haystack, needle, i));
    }
}

proof fn lemma_scan_lowest(
    config: RttConfig,
    memory: Memory,
    log: Seq<Event>,
    from: int,
    at: int,
    offset: int,
    place: int,
)
    requires
        from <= at,
        config.scan_stride + signature().len() <= config.scan_block + 1,
        control_block_found(config, log, at, offset) matches Some(run) && run.result is Ok
            && faithful(memory, log, from, run.end) && all_read(log, at, run.end),
        0 <= offset,
        config.scan_start + offset <= place,
        place < control_block_found(config, log, at, offset)->0.result->Ok_0,
    ensures
        !signed(memory_at(memory, log, from, at), place),
    decreases log.len() - at,
{
    let held = memory_at(memory, log, from, at);
    let addr = config.scan_start + offset;
    let next_offset = offset + config.scan_stride;
    lemma_scan_reads(config, memory, log, from, at, offset);
    lemma_found_in_range(config, log, at, offset);
    lemma_unwritten(memory, log, from, at);
    let reply = bytes_read_at(log, at, addr, config.window(offset) as nat)->0;
    if !(reply matches Ok(block) && found_at(block, signature()) is Some) {
        lemma_scan_reads(config, memory, log, from, at + 1, next_offset);
    }
    assert(log[at] matches Event::ReadBytes { result, .. } && result == reply);
    assert(shows(held, log[at]));
    let block = reply->Ok_0;
    let i = place - addr;
    if signed(held, place) {
        if place + signature().len() <= addr + block.len() {
            assert forall|k: int| 0 <= k < signature().len() implies block[i + k]
                == signature()[k] by {
                assert(block[i + k] == held(addr + (i + k)));
                assert(held(place + k) == signature()[k]);
            }
            assert(block.subrange(i, i + signature().len()) =~= signature());
            assert(occurs_at(block, signature(), i));
            lemma_found_some(block, signature(), i);
            let first = found_at(block, signature())->0;
            assert(first_at(block, signature(), first));
        } else {
            if let Some(first) = found_at(block, signature()) {
                assert(first_at(block, signature(), first));
            }
            assert(place >= addr + config.scan_stride);
            lemma_scan_lowest(config, memory, log, from, at + 1, next_offset, place);
            let next = memory_at(memory, log, from, at + 1);
            assert forall|k: int| 0 <= k < signature().len() implies #[trigger] next(place + k)
                == signature()[k] by {
                assert(next(place + k) == held(place + k));
            }
        }
    }
}

/// A scan whose reads all succeed finds the lowest signature in its range, where
/// its windows overlap by the length of the signature less one.
pub proof fn law_scan_finds_lowest(
    config: RttConfig,
    memory: Memory,
    log: Seq<Event>,
    at: int,
    place: int,
)
    requires
        config.scan_stride + signature().len() <= config.scan_block + 1,
        control_block_found(config, log, at, 0) matches Some(run) && run.result is Ok
            && faithful(memory, log, at, run.end) && all_read(log, at, run.end),
        config.scan_start <= place < control_block_found(config, log, at, 0)->0.result->Ok_0,
    ensures
        !signed(memory, place),
{
    lemma_scan_lowest(config, memory, log, at, at, 0, place);
}

/// A scan whose reads all succeed misses no signature that lies in its range,
/// where its windows overlap by the length of the signature less one, as those
/// of the default configuration do.
pub proof fn law_scan_misses_nothing(
    config: RttConfig,
    memory: Memory,
    log: Seq<Event>,
    at: int,
    place: int,
)
    requires
        config.scan_stride > 0,
        config.scan_stride + signature().len() <= config.scan_block + 1,
        control_block_found(config, log, at, 0) matches Some(run) && run.result == Err::<
            u64,
            Error,
        >(Error::ControlBlockNotFound) && faithful(memory, log, at, run.end) && all_read(
            log,
            at,
            run.end,
        ),
        config.scan_start <= place,
        place + signature().len() <= config.scan_start + config.scan_range,
    ensures
        !signed(memory, place),
{
    lemma_scan_misses(config, memory, log, at, at, 0, place);
}

proof fn lemma_scan_writes_nothing(config: RttConfig, log: Seq<Event>, at: int, offset: int)
    requires
        control_block_found(config, log, at, offset) is Some,
    ensures
        at <= control_block_found(config, log, at, offset)->0.end,
        forall|k: int, a: int|
            at <= k < control_block_found(config, log, at, offset)->0.end ==> !#[trigger] touches(
                log[k],
                a,
            ),
    decreases log.len() - at,
{
    if offset < config.scan_range {
        let addr = config.scan_start + offset;
        let found = match bytes_read_at(log, at, addr, config.window(offset) as nat)->0 {
            Ok(block) => found_at(block, signature()),
            Err(_) => None,
        };
        if addr <= u64::MAX && config.window(offset) <= usize::MAX && found is None
            && config.scan_stride > 0 && offset + config.scan_stride <= u64::MAX {
            lemma_scan_writes_nothing(config, log, at + 1, offset + config.scan_stride);
        }
    }
}

/// Attaching writes nothing to the memory of the device.
pub proof fn law_attach_writes_nothing(config: RttConfig, log: Seq<Event>, at: int)
    requires
        attached(config, log, at) is Some,
    ensures
        forall|k: int, a: int|
            at <= k < attached(config, log, at)->0.end ==> !#[trigger] touches(log[k], a),
{
    lemma_scan_writes_nothing(config, log, at, 0);
    let scan = control_block_found(config, log, at, 0)->0;
    if scan.result is Ok {
        assert(session_read(scan.result->Ok_0, log, scan.end) is Some);
    }
}

} // verus!
