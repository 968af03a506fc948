//! The narrow debug I/O that the rest of the crate is written against.
//!
//! [`DapIo`] captures the operations that a platform handler or an RTT session
//! needs: Access Port registers, target memory through the MEM-AP, reconnecting
//! the debug port, and the host clock that paces them. An implementation has a
//! ghost log of what was asked of it and what it answered, so that a contract
//! can state a whole conversation.

use vstd::prelude::*;

verus! {

/// A debug transfer that failed.
#[derive(Debug)]
pub struct DapError {
    /// What the transport said.
    pub message: String,
}

/// One operation of a [`DapIo`], with its answer.
#[allow(inconsistent_fields)]
pub enum Event {
    /// An Access Port register was read.
    ReadAp { ap: u8, reg: u64, result: Result<u32, DapError> },
    /// An Access Port register was written.
    WriteAp { ap: u8, reg: u64, value: u32, result: Result<(), DapError> },
    /// The debug port was connected anew.
    Reinitialize { result: Result<(), DapError> },
    /// One word of memory was read.
    ReadWord { addr: u64, result: Result<u32, DapError> },
    /// One word of memory was written.
    WriteWord { addr: u64, value: u32, result: Result<(), DapError> },
    /// A block of `len` words of memory was read.
    ReadWords { addr: u64, len: nat, result: Result<Seq<u32>, DapError> },
    /// A block of words was written to memory.
    WriteWords { addr: u64, words: Seq<u32>, result: Result<(), DapError> },
    /// A block of `len` bytes of memory was read.
    ReadBytes { addr: u64, len: nat, result: Result<Seq<u8>, DapError> },
    /// A block of bytes was written to memory.
    WriteBytes { addr: u64, bytes: Seq<u8>, result: Result<(), DapError> },
    /// The host waited.
    Sleep { millis: u64 },
    /// The host clock was read.
    Clock { nanos: u64 },
}

/// Operations of a [`DapIo`], oldest first. It is ghost: at run time it has no
/// value.
pub type Log = Seq<Event>;

/// The answer to a read whose buffer holds `items` afterwards.
pub open spec fn filled<T>(outcome: Result<(), DapError>, items: Seq<T>) -> Result<
    Seq<T>,
    DapError,
> {
    match outcome {
        Ok(_) => Ok(items),
        Err(e) => Err(e),
    }
}

/// Debug I/O operations that platform handlers and RTT sessions need.
///
/// Implementations are the users' own. Of the device nothing is promised: each
/// operation only adds itself and its answer to the log, and a buffer keeps its
/// length, as every slice does.
pub trait DapIo {
    /// Every operation that was asked for so far, with its answer. It is ghost:
    /// nothing calls it at run time.
    spec fn log(&self) -> Log;

    /// Reads an Access Port register.
    fn read_ap(&mut self, ap: u8, reg: u64) -> (r: Result<u32, DapError>)
        ensures
            final(self).log() == old(self).log().push(Event::ReadAp { ap, reg, result: r }),
    ;

    /// Writes an Access Port register.
    fn write_ap(&mut self, ap: u8, reg: u64, value: u32) -> (r: Result<(), DapError>)
        ensures
            final(self).log() == old(self).log().push(Event::WriteAp { ap, reg, value, result: r }),
    ;

    /// Re-establishes the debug port connection, for example after a reset.
    fn reinitialize(&mut self) -> (r: Result<(), DapError>)
        ensures
            final(self).log() == old(self).log().push(Event::Reinitialize { result: r }),
    ;

    /// Reads a 32-bit word of target memory.
    fn read_word_32(&mut self, addr: u64) -> (r: Result<u32, DapError>)
        ensures
            final(self).log() == old(self).log().push(Event::ReadWord { addr, result: r }),
    ;

    /// Writes a 32-bit word of target memory.
    fn write_word_32(&mut self, addr: u64, value: u32) -> (r: Result<(), DapError>)
        ensures
            final(self).log() == old(self).log().push(Event::WriteWord { addr, value, result: r }),
    ;

    /// Reads a block of 32-bit words of target memory.
    fn read_32(&mut self, addr: u64, buf: &mut [u32]) -> (r: Result<(), DapError>)
        ensures
            final(buf)@.len() == old(buf)@.len(),
            final(self).log() == old(self).log().push(
                Event::ReadWords { addr, len: old(buf)@.len(), result: filled(r, final(buf)@) },
            ),
    ;

    /// Writes a block of 32-bit words to target memory.
    fn write_32(&mut self, addr: u64, words: &[u32]) -> (r: Result<(), DapError>)
        ensures
            final(self).log() == old(self).log().push(
                Event::WriteWords { addr, words: words@, result: r },
            ),
    ;

    /// Reads a block of bytes of target memory.
    fn read_8(&mut self, addr: u64, buf: &mut [u8]) -> (r: Result<(), DapError>)
        ensures
            final(buf)@.len() == old(buf)@.len(),
            final(self).log() == old(self).log().push(
                Event::ReadBytes { addr, len: old(buf)@.len(), result: filled(r, final(buf)@) },
            ),
    ;

    /// Writes a block of bytes to target memory.
    fn write_8(&mut self, addr: u64, bytes: &[u8]) -> (r: Result<(), DapError>)
        ensures
            final(self).log() == old(self).log().push(
                Event::WriteBytes { addr, bytes: bytes@, result: r },
            ),
    ;

    /// Waits for at least `millis` milliseconds.
    fn sleep(&mut self, millis: u64)
        ensures
            final(self).log() == old(self).log().push(Event::Sleep { millis }),
    ;

    /// The nanoseconds that a monotonic host clock shows.
    fn now(&mut self) -> (nanos: u64)
        ensures
            final(self).log() == old(self).log().push(Event::Clock { nanos }),
    ;
}

/// Whether `later` is `earlier` with more events at its end.
pub open spec fn extends(earlier: Seq<Event>, later: Seq<Event>) -> bool {
    &&& earlier.len() <= later.len()
    &&& forall|k: int| 0 <= k < earlier.len() ==> #[trigger] later[k] == earlier[k]
}

/// The answer to the Access Port read that is event `i` of `log`.
pub open spec fn ap_read_at(log: Seq<Event>, i: int, ap: u8, reg: u64) -> Option<
    Result<u32, DapError>,
> {
    if 0 <= i < log.len() {
        match log[i] {
            Event::ReadAp { ap: a, reg: g, result } => if a == ap && g == reg {
                Some(result)
            } else {
                None
            },
            _ => None,
        }
    } else {
        None
    }
}

/// The answer to the Access Port write that is event `i` of `log`.
pub open spec fn ap_write_at(log: Seq<Event>, i: int, ap: u8, reg: u64, value: u32) -> Option<
    Result<(), DapError>,
> {
    if 0 <= i < log.len() {
        match log[i] {
            Event::WriteAp { ap: a, reg: g, value: v, result } => if a == ap && g == reg && v
                == value {
                Some(result)
            } else {
                None
            },
            _ => None,
        }
    } else {
        None
    }
}

/// The answer to the reconnection that is event `i` of `log`.
pub open spec fn reinitialize_at(log: Seq<Event>, i: int) -> Option<Result<(), DapError>> {
    if 0 <= i < log.len() {
        match log[i] {
            Event::Reinitialize { result } => Some(result),
            _ => None,
        }
    } else {
        None
    }
}

/// The answer to the read of one word that is event `i` of `log`.
pub open spec fn word_read_at(log: Seq<Event>, i: int, addr: u64) -> Option<
    Result<u32, DapError>,
> {
    if 0 <= i < log.len() {
        match log[i] {
            Event::ReadWord { addr: a, result } => if a == addr {
                Some(result)
            } else {
                None
            },
            _ => None,
        }
    } else {
        None
    }
}

/// The answer to the write of one word that is event `i` of `log`.
pub open spec fn word_write_at(log: Seq<Event>, i: int, addr: u64, value: u32) -> Option<
    Result<(), DapError>,
> {
    if 0 <= i < log.len() {
        match log[i] {
            Event::WriteWord { addr: a, value: v, result } => if a == addr && v == value {
                Some(result)
            } else {
                None
            },
            _ => None,
        }
    } else {
        None
    }
}

/// The answer to the read of `len` words that is event `i` of `log`: as many
/// words, or a failure.
pub open spec fn words_read_at(log: Seq<Event>, i: int, addr: int, len: nat) -> Option<
    Result<Seq<u32>, DapError>,
> {
    if 0 <= i < log.len() {
        match log[i] {
            Event::ReadWords { addr: a, len: n, result } => if a == addr && n == len && (result
                matches Ok(items) ==> items.len() == len) {
                Some(result)
            } else {
                None
            },
            _ => None,
        }
    } else {
        None
    }
}

/// The answer to the write of `words` that is event `i` of `log`.
pub open spec fn words_write_at(log: Seq<Event>, i: int, addr: int, words: Seq<u32>) -> Option<
    Result<(), DapError>,
> {
    if 0 <= i < log.len() {
        match log[i] {
            Event::WriteWords { addr: a, words: w, result } => if a == addr && w == words {
                Some(result)
            } else {
                None
            },
            _ => None,
        }
    } else {
        None
    }
}

/// The answer to the read of `len` bytes that is event `i` of `log`: as many
/// bytes, or a failure.
pub open spec fn bytes_read_at(log: Seq<Event>, i: int, addr: int, len: nat) -> Option<
    Result<Seq<u8>, DapError>,
> {
    if 0 <= i < log.len() {
        match log[i] {
            Event::ReadBytes { addr: a, len: n, result } => if a == addr && n == len && (result
                matches Ok(items) ==> items.len() == len) {
                Some(result)
            } else {
                None
            },
            _ => None,
        }
    } else {
        None
    }
}

/// The answer to the write of `bytes` that is event `i` of `log`.
pub open spec fn bytes_write_at(log: Seq<Event>, i: int, addr: int, bytes: Seq<u8>) -> Option<
    Result<(), DapError>,
> {
    if 0 <= i < log.len() {
        match log[i] {
            Event::WriteBytes { addr: a, bytes: b, result } => if a == addr && b == bytes {
                Some(result)
            } else {
                None
            },
            _ => None,
        }
    } else {
        None
    }
}

/// Whether event `i` of `log` is a wait of `millis` milliseconds.
pub open spec fn slept_at(log: Seq<Event>, i: int, millis: u64) -> bool {
    0 <= i < log.len() && log[i] == (Event::Sleep { millis })
}

/// What the clock showed in event `i` of `log`.
pub open spec fn clock_at(log: Seq<Event>, i: int) -> Option<u64> {
    if 0 <= i < log.len() {
        match log[i] {
            Event::Clock { nanos } => Some(nanos),
            _ => None,
        }
    } else {
        None
    }
}

/// Reads an Access Port register at best effort: a failed read counts as no
/// value, for polls that should go on rather than end.
pub fn try_read_ap<I: DapIo>(io: &mut I, ap: u8, reg: u64) -> (r: Option<u32>)
    ensures
        extends(old(io).log(), final(io).log()),
        final(io).log().len() == old(io).log().len() + 1,
        ap_read_at(final(io).log(), old(io).log().len() as int, ap, reg) matches Some(reply) && r
            == reply.ok(),
{
    io.read_ap(ap, reg).ok()
}

} // verus!
