//! A model of target memory.
//!
//! A device is free to answer reads as it likes. Where it keeps what is written
//! to it, the log determines what its memory holds: the model says what that is,
//! and which logs come from such a device.

use vstd::arithmetic::div_mod::{lemma_div_denominator, lemma_fundamental_div_mod_converse};
use vstd::prelude::*;

use crate::dap::io::Event;

verus! {

/// Four bytes as a little-endian word.
pub open spec fn le_word(b0: u8, b1: u8, b2: u8, b3: u8) -> u32 {
    (b0 + 0x100 * b1 + 0x1_0000 * b2 + 0x100_0000 * b3) as u32
}

/// Byte `b` of a little-endian word.
pub open spec fn word_byte(word: u32, b: int) -> u8 {
    if b == 0 {
        (word % 0x100) as u8
    } else if b == 1 {
        (word / 0x100 % 0x100) as u8
    } else if b == 2 {
        (word / 0x1_0000 % 0x100) as u8
    } else {
        (word / 0x100_0000) as u8
    }
}

/// The bytes of a word are those that it was made of.
pub proof fn lemma_word_bytes(b0: u8, b1: u8, b2: u8, b3: u8)
    ensures
        word_byte(le_word(b0, b1, b2, b3), 0) == b0,
        word_byte(le_word(b0, b1, b2, b3), 1) == b1,
        word_byte(le_word(b0, b1, b2, b3), 2) == b2,
        word_byte(le_word(b0, b1, b2, b3), 3) == b3,
{
    let high3 = b3 as int;
    let high2 = b2 + 0x100 * high3;
    let high1 = b1 + 0x100 * high2;
    let word = b0 + 0x100 * high1;
    lemma_fundamental_div_mod_converse(word, 0x100, high1, b0 as int);
    lemma_fundamental_div_mod_converse(high1, 0x100, high2, b1 as int);
    lemma_fundamental_div_mod_converse(high2, 0x100, high3, b2 as int);
    lemma_div_denominator(word, 0x100, 0x100);
    lemma_div_denominator(word, 0x100, 0x1_0000);
    lemma_div_denominator(high1, 0x100, 0x100);
    assert(le_word(b0, b1, b2, b3) == word);
}

/// The bytes of a device, by address.
pub type Memory = spec_fn(int) -> u8;

/// Whether the event is a write, successful or not, that covers the address.
pub open spec fn touches(event: Event, addr: int) -> bool {
    match event {
        Event::WriteWord { addr: a, .. } => a <= addr < a + 4,
        Event::WriteWords { addr: a, words, .. } => a <= addr < a + 4 * words.len(),
        Event::WriteBytes { addr: a, bytes, .. } => a <= addr < a + bytes.len(),
        _ => false,
    }
}

/// The byte that a write puts at an address that it covers.
pub open spec fn put(event: Event, addr: int) -> u8 {
    match event {
        Event::WriteWord { addr: a, value, .. } => word_byte(value, addr - a),
        Event::WriteWords { addr: a, words, .. } => word_byte(
            words[(addr - a) / 4],
            (addr - a) % 4,
        ),
        Event::WriteBytes { addr: a, bytes, .. } => bytes[addr - a],
        _ => 0,
    }
}

/// Whether the event is a write that failed.
pub open spec fn write_failed(event: Event) -> bool {
    match event {
        Event::WriteWord { result, .. } => result is Err,
        Event::WriteWords { result, .. } => result is Err,
        Event::WriteBytes { result, .. } => result is Err,
        _ => false,
    }
}

/// Memory after the event. What a failed write leaves behind is not known: it
/// is taken to change nothing.
pub open spec fn after(memory: Memory, event: Event) -> Memory {
    |addr: int|
        if touches(event, addr) && !write_failed(event) {
            put(event, addr)
        } else {
            memory(addr)
        }
}

/// Memory after the events `from` up to `to` of the log.
pub open spec fn memory_at(memory: Memory, log: Seq<Event>, from: int, to: int) -> Memory
    decreases to - from,
{
    if to <= from {
        memory
    } else {
        after(memory_at(memory, log, from, to - 1), log[to - 1])
    }
}

/// Whether a read that succeeded shows what memory holds.
pub open spec fn shows(memory: Memory, event: Event) -> bool {
    match event {
        Event::ReadWord { addr, result: Ok(value) } => forall|b: int|
            0 <= b < 4 ==> #[trigger] word_byte(value, b) == memory(addr + b),
        Event::ReadWords { addr, len, result: Ok(words) } => {
            &&& words.len() == len
            &&& forall|j: int|
                0 <= j < 4 * len ==> #[trigger] word_byte(words[j / 4], j % 4) == memory(addr + j)
        },
        Event::ReadBytes { addr, len, result: Ok(bytes) } => {
            &&& bytes.len() == len
            &&& forall|j: int| 0 <= j < len ==> #[trigger] bytes[j] == memory(addr + j)
        },
        _ => true,
    }
}

/// Whether the events `from` up to `to` are those of a device that keeps what is
/// written to it, and held `memory` before them.
pub open spec fn faithful(memory: Memory, log: Seq<Event>, from: int, to: int) -> bool {
    forall|k: int| from <= k < to ==> shows(memory_at(memory, log, from, k), #[trigger] log[k])
}

/// Whether none of the events `from` up to `to` writes to the addresses `low` up
/// to `high`.
pub open spec fn untouched(log: Seq<Event>, from: int, to: int, low: int, high: int) -> bool {
    forall|k: int, addr: int|
        from <= k < to && low <= addr < high ==> !#[trigger] touches(log[k], addr)
}

/// What is not written to stays as it is.
pub proof fn lemma_untouched(
    memory: Memory,
    log: Seq<Event>,
    from: int,
    mid: int,
    to: int,
    addr: int,
)
    requires
        from <= mid <= to,
        forall|k: int| mid <= k < to ==> !touches(#[trigger] log[k], addr),
    ensures
        memory_at(memory, log, from, to)(addr) == memory_at(memory, log, from, mid)(addr),
    decreases to - mid,
{
    if mid < to {
        lemma_untouched(memory, log, from, mid, to - 1, addr);
        assert(!touches(log[to - 1], addr));
    }
}

/// Memory after some events and then more is memory after all of them.
pub proof fn lemma_memory_at(memory: Memory, log: Seq<Event>, from: int, mid: int, to: int)
    requires
        from <= mid <= to,
    ensures
        memory_at(memory_at(memory, log, from, mid), log, mid, to) == memory_at(
            memory,
            log,
            from,
            to,
        ),
    decreases to - mid,
{
    if mid < to {
        lemma_memory_at(memory, log, from, mid, to - 1);
    }
}

} // verus!
