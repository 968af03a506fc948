//! SEGGER RTT (Real-Time Transfer) support.
//!
//! Finds the RTT control block in target RAM by its `"SEGGER RTT"` signature,
//! reads up-buffers (target to host) and writes down-buffers (host to target).
//! All of it is background memory access, so the target keeps running.

pub mod laws;

use vstd::prelude::*;

use crate::dap::io::{
    DapError, DapIo, Event, bytes_read_at, bytes_write_at, extends, word_read_at, word_write_at,
};
use crate::dap::memory::le_word;
use crate::dap::run::{Run, bind, done, failed, ran, transferred};
use crate::error::Error;
use crate::platform::Report;

verus! {

/// Defensive upper bound on the buffer counts read from the control block.
pub const MAX_BUFFERS: u32 = 64;

/// RTT control-block scan configuration.
#[derive(Clone, Copy, Debug)]
pub struct RttConfig {
    /// First address to scan.
    pub scan_start: u64,
    /// Number of bytes to scan from `scan_start`.
    pub scan_range: u64,
    /// Window size for each block read.
    pub scan_block: u64,
    /// Stride between scan windows.
    pub scan_stride: u64,
}

impl RttConfig {
    /// The common Cortex-M SRAM window: 64 KiB from 0x2000_0000.
    pub open spec fn sram_window() -> RttConfig {
        RttConfig {
            scan_start: 0x2000_0000,
            scan_range: 0x1_0000,
            scan_block: 0x1000,
            scan_stride: 0x0800,
        }
    }

    /// The length of the window that starts at an offset in the range: that of a
    /// block, or what is left of the range.
    pub open spec fn window(self, offset: int) -> int {
        if self.scan_range - offset < self.scan_block {
            self.scan_range - offset
        } else {
            self.scan_block as int
        }
    }
}

impl RttConfig {
    /// The length of the window that starts at an offset in the range.
    fn window_len(&self, offset: u64) -> (r: u64)
        requires
            offset <= self.scan_range,
        ensures
            r == self.window(offset as int),
    {
        let left: u64 = self.scan_range - offset;
        if left < self.scan_block {
            left
        } else {
            self.scan_block
        }
    }
}

impl Default for RttConfig {
    fn default() -> (r: RttConfig)
        ensures
            r == RttConfig::sram_window(),
    {
        RttConfig {
            scan_start: 0x2000_0000,
            scan_range: 0x1_0000,
            scan_block: 0x1000,
            scan_stride: 0x0800,
        }
    }
}

/// Whether `needle` stands in `haystack` at `i`.
pub open spec fn occurs_at(haystack: Seq<u8>, needle: Seq<u8>, i: int) -> bool {
    &&& 0 <= i <= haystack.len() - needle.len()
    &&& haystack.subrange(i, i + needle.len()) == needle
}

/// Whether `i` is the first place at which `needle` stands in `haystack`.
pub open spec fn first_at(haystack: Seq<u8>, needle: Seq<u8>, i: int) -> bool {
    &&& occurs_at(haystack, needle, i)
    &&& forall|j: int| 0 <= j < i ==> !#[trigger] occurs_at(haystack, needle, j)
}

/// The first place at which a needle that is not empty stands in `haystack`.
pub open spec fn found_at(haystack: Seq<u8>, needle: Seq<u8>) -> Option<int> {
    if needle.len() > 0 && exists|i: int| first_at(haystack, needle, i) {
        Some(choose|i: int| first_at(haystack, needle, i))
    } else {
        None
    }
}

proof fn lemma_found(haystack: Seq<u8>, needle: Seq<u8>, i: int)
    requires
        needle.len() > 0,
        first_at(haystack, needle, i),
    ensures
        found_at(haystack, needle) == Some(i),
{
    let j = found_at(haystack, needle)->0;
    if i < j {
        assert(occurs_at(haystack, needle, i));
    } else if j < i {
        assert(occurs_at(haystack, needle, j));
    }
}

/// Finds the first index of `needle` within `haystack`. An empty needle is not
/// found.
pub fn find_subslice(haystack: &[u8], needle: &[u8]) -> (r: Option<usize>)
    ensures
        match r {
            Some(i) => found_at(haystack@, needle@) == Some(i as int),
            None => found_at(haystack@, needle@) is None,
        },
        match r {
            Some(i) => needle@.len() > 0 && first_at(haystack@, needle@, i as int),
            None => needle@.len() == 0 || forall|i: int|
                !#[trigger] occurs_at(haystack@, needle@, i),
        },
{
    let total: usize = haystack.len();
    if needle.len() == 0 || total < needle.len() {
        return None;
    }
    let mut i: usize = 0;
    while i <= total - needle.len()
        invariant
            total == haystack@.len(),
            0 < needle@.len() <= haystack@.len(),
            i <= haystack@.len() - needle@.len() + 1,
            forall|j: int| 0 <= j < i ==> !#[trigger] occurs_at(haystack@, needle@, j),
        decreases haystack@.len() + 1 - i,
    {
        let mut k: usize = 0;
        while k < needle.len() && haystack[i + k] == needle[k]
            invariant
                total == haystack@.len(),
                k <= needle@.len(),
                i + needle@.len() <= haystack@.len(),
                forall|m: int| 0 <= m < k ==> haystack@[i + m] == #[trigger] needle@[m],
            decreases needle@.len() - k,
        {
            k = k + 1;
        }
        if k == needle.len() {
            assert(haystack@.subrange(i as int, i + needle@.len()) =~= needle@);
            proof {
                lemma_found(haystack@, needle@, i as int);
            }
            return Some(i);
        }
        assert(!occurs_at(haystack@, needle@, i as int)) by {
            assert(haystack@.subrange(i as int, i + needle@.len())[k as int] == haystack@[i + k]);
        }
        i = i + 1;
    }
    None
}

/// Bytes that can be written to a ring buffer of `size` bytes, given the
/// current write and read offsets.
pub open spec fn free_space(size: u32, write_off: u32, read_off: u32) -> int {
    if write_off >= read_off {
        size - 1 - (write_off - read_off)
    } else {
        read_off - write_off - 1
    }
}

/// Bytes that can be written to a SEGGER RTT ring buffer of `size` bytes given
/// the current write and read offsets.
///
/// One slot is always left unused, so that a full buffer (nothing free) stays
/// distinguishable from an empty one (equal offsets). Writing more than this
/// would wrap the write offset onto the read offset, which the target reads as
/// an empty buffer.
pub fn ring_free_space(size: u32, write_off: u32, read_off: u32) -> (r: u32)
    requires
        write_off >= read_off ==> write_off - read_off < size,
    ensures
        r == free_space(size, write_off, read_off),
{
    if write_off >= read_off {
        size - 1 - (write_off - read_off)
    } else {
        read_off - write_off - 1
    }
}

/// A single RTT ring buffer descriptor.
#[derive(Clone, Copy, Debug)]
pub struct RttBuffer {
    /// Address of this descriptor inside the control block.
    pub descriptor_addr: u64,
    /// Address of the ring buffer storage in target memory.
    pub buffer_ptr: u32,
    /// Ring buffer size in bytes.
    pub size: u32,
}

/// The ring buffers of an attached session.
#[verifier::ext_equal]
pub struct RttView {
    pub up: Seq<RttBuffer>,
    pub down: Seq<RttBuffer>,
}

/// An attached RTT session.
pub struct Rtt {
    up: Vec<RttBuffer>,
    down: Vec<RttBuffer>,
}

impl View for Rtt {
    type V = RttView;

    closed spec fn view(&self) -> RttView {
        RttView { up: self.up@, down: self.down@ }
    }
}

/// The signature of an RTT control block: `SEGGER RTT`.
pub open spec fn signature() -> Seq<u8> {
    seq![0x53u8, 0x45u8, 0x47u8, 0x47u8, 0x45u8, 0x52u8, 0x20u8, 0x52u8, 0x54u8, 0x54u8]
}

/// The signature of an RTT control block.
fn signature_bytes() -> (r: Vec<u8>)
    ensures
        r@ == signature(),
{
    let bytes: Vec<u8> = vec![
        0x53u8,
        0x45u8,
        0x47u8,
        0x47u8,
        0x45u8,
        0x52u8,
        0x20u8,
        0x52u8,
        0x54u8,
        0x54u8,
    ];
    assert(bytes@ =~= signature());
    bytes
}

/// The scan for a control block that goes on at `offset`. No window reaches
/// behind the range, and one that cannot be read is passed over. The scan ends
/// with an error where a window would not start at an address or not fit in the
/// host's memory, and where the next offset does not fit or is the same again.
pub open spec fn control_block_found(
    config: RttConfig,
    log: Seq<Event>,
    at: int,
    offset: int,
) -> Option<Run<u64>>
    decreases log.len() - at,
{
    if offset >= config.scan_range {
        failed(Error::ControlBlockNotFound, at)
    } else {
        let addr = config.scan_start + offset;
        let next = offset + config.scan_stride;
        if addr > u64::MAX || config.window(offset) > usize::MAX {
            failed(Error::RttOutOfRange, at)
        } else {
            match bytes_read_at(log, at, addr, config.window(offset) as nat) {
                None => None,
                Some(reply) => match (match reply {
                    Ok(block) => found_at(block, signature()),
                    Err(_) => None,
                }) {
                    Some(i) => if addr + i > u64::MAX {
                        failed(Error::RttOutOfRange, at + 1)
                    } else {
                        done((addr + i) as u64, at + 1)
                    },
                    None => if config.scan_stride == 0 || next > u64::MAX {
                        failed(Error::RttOutOfRange, at + 1)
                    } else {
                        control_block_found(config, log, at + 1, next)
                    },
                },
            }
        }
    }
}

/// What a scan finds from `offset` on lies in its range.
pub proof fn lemma_found_in_range(config: RttConfig, log: Seq<Event>, at: int, offset: int)
    requires
        0 <= offset,
        control_block_found(config, log, at, offset) matches Some(run) && run.result is Ok,
    ensures
        ({
            let found = control_block_found(config, log, at, offset)->0.result->Ok_0;
            &&& config.scan_start <= found
            &&& found + signature().len() <= config.scan_start + config.scan_range
        }),
    decreases log.len() - at,
{
    let addr = config.scan_start + offset;
    let found = match bytes_read_at(log, at, addr, config.window(offset) as nat)->0 {
        Ok(block) => found_at(block, signature()),
        Err(_) => None,
    };
    match found {
        Some(i) => {
            let block = bytes_read_at(log, at, addr, config.window(offset) as nat)->0->Ok_0;
            assert(first_at(block, signature(), i));
        },
        None => lemma_found_in_range(config, log, at + 1, offset + config.scan_stride),
    }
}

/// Four bytes of a block as a little-endian word.
pub open spec fn word_in(bytes: Seq<u8>, i: int) -> u32 {
    le_word(bytes[i], bytes[i + 1], bytes[i + 2], bytes[i + 3])
}

/// Descriptor `i` of the control block at `block`.
pub open spec fn descriptor(block: u64, bytes: Seq<u8>, i: int) -> RttBuffer {
    RttBuffer {
        descriptor_addr: (block + 24 + 24 * i) as u64,
        buffer_ptr: word_in(bytes, 24 * i + 4),
        size: word_in(bytes, 24 * i + 8),
    }
}

/// The session that the control block at `block` describes.
pub open spec fn session_read(block: u64, log: Seq<Event>, at: int) -> Option<Run<RttView>> {
    bind(
        transferred(bytes_read_at(log, at, block as int, 24), at),
        |header: Seq<u8>, at: int|
            {
                let up = word_in(header, 16);
                let down = word_in(header, 20);
                let total = up + down;
                if up > MAX_BUFFERS || down > MAX_BUFFERS {
                    failed(Error::ImplausibleBufferCounts { up, down }, at)
                } else if total == 0 {
                    done(RttView { up: Seq::empty(), down: Seq::empty() }, at)
                } else if block + 24 + 24 * total > u64::MAX + 1 {
                    failed(Error::RttOutOfRange, at)
                } else {
                    bind(
                        transferred(bytes_read_at(log, at, block + 24, (24 * total) as nat), at),
                        |bytes: Seq<u8>, at: int|
                            done(
                                RttView {
                                    up: Seq::new(up as nat, |i: int| descriptor(block, bytes, i)),
                                    down: Seq::new(
                                        down as nat,
                                        |i: int| descriptor(block, bytes, up + i),
                                    ),
                                },
                                at,
                            ),
                    )
                }
            },
    )
}

/// The scan for a control block, and the read of it.
pub open spec fn attached(config: RttConfig, log: Seq<Event>, at: int) -> Option<Run<RttView>> {
    bind(
        control_block_found(config, log, at, 0),
        |block: u64, at: int| session_read(block, log, at),
    )
}

/// What a result shows of the session in it.
pub open spec fn session_result(r: Result<Rtt, Error>) -> Result<RttView, Error> {
    match r {
        Ok(rtt) => Ok(rtt@),
        Err(e) => Err(e),
    }
}

/// A longer log shows the same scan.
pub proof fn lemma_control_block_stable(
    config: RttConfig,
    log: Seq<Event>,
    later: Seq<Event>,
    at: int,
    offset: int,
)
    requires
        extends(log, later),
        control_block_found(config, log, at, offset) is Some,
    ensures
        control_block_found(config, later, at, offset) == control_block_found(
            config,
            log,
            at,
            offset,
        ),
    decreases log.len() - at,
{
    if offset < config.scan_range {
        let addr = config.scan_start + offset;
        let reply = bytes_read_at(log, at, addr, config.window(offset) as nat)->0;
        let found = match reply {
            Ok(block) => found_at(block, signature()),
            Err(_) => None,
        };
        let next = offset + config.scan_stride;
        if addr <= u64::MAX && config.window(offset) <= usize::MAX && found is None
            && config.scan_stride > 0 && next <= u64::MAX {
            lemma_control_block_stable(config, log, later, at + 1, next);
        }
    }
}

/// Four bytes of a block as a little-endian word.
fn read_word(bytes: &Vec<u8>, i: usize) -> (r: u32)
    requires
        i + 4 <= bytes.len(),
    ensures
        r == word_in(bytes@, i as int),
{
    let b0: u32 = bytes[i] as u32;
    let b1: u32 = bytes[i + 1] as u32;
    let b2: u32 = bytes[i + 2] as u32;
    let b3: u32 = bytes[i + 3] as u32;
    b0 + 0x100 * b1 + 0x1_0000 * b2 + 0x100_0000 * b3
}

/// The descriptors from index `from` up to `to` of the control block at
/// `block`.
fn parse_descriptors(block: u64, bytes: &Vec<u8>, from: usize, to: usize) -> (r: Vec<RttBuffer>)
    requires
        from <= to <= 128,
        24 * to <= bytes@.len(),
        block + 24 + 24 * to <= u64::MAX + 1,
    ensures
        r@ == Seq::new((to - from) as nat, |i: int| descriptor(block, bytes@, from + i)),
{
    let mut buffers: Vec<RttBuffer> = Vec::new();
    let mut i: usize = from;
    while i < to
        invariant
            from <= i <= to <= 128,
            24 * to <= bytes@.len(),
            block + 24 + 24 * to <= u64::MAX + 1,
            buffers@ == Seq::new((i - from) as nat, |k: int| descriptor(block, bytes@, from + k)),
        decreases to - i,
    {
        let base: usize = 24 * i;
        buffers.push(
            RttBuffer {
                descriptor_addr: block + 24 + base as u64,
                buffer_ptr: read_word(bytes, base + 4),
                size: read_word(bytes, base + 8),
            },
        );
        i = i + 1;
        assert(buffers@ =~= Seq::new(
            (i - from) as nat,
            |k: int| descriptor(block, bytes@, from + k),
        ));
    }
    buffers
}

impl Rtt {
    #[verifier::type_invariant]
    spec fn descriptors_fit(self) -> bool {
        &&& forall|i: int|
            0 <= i < self.up@.len() ==> (#[trigger] self.up@[i]).descriptor_addr + 23 <= u64::MAX
        &&& forall|i: int|
            0 <= i < self.down@.len() ==> (#[trigger] self.down@[i]).descriptor_addr + 23
                <= u64::MAX
    }

    /// Scans target memory for the signature of an RTT control block.
    fn find_control_block<I: DapIo>(
        io: &mut I,
        config: &RttConfig,
    ) -> (r: Result<u64, Error>)
        ensures
            extends(old(io).log(), final(io).log()),
            ran(
                control_block_found(*config, final(io).log(), old(io).log().len() as int, 0),
                r,
                Seq::empty(),
                Seq::empty(),
                final(io).log().len(),
            ),
            r matches Ok(found) ==> {
                &&& config.scan_start <= found
                &&& found + signature().len() <= config.scan_start + config.scan_range
            },
    {
        let ghost at = io.log().len() as int;
        let wanted = signature_bytes();
        let mut offset: u64 = 0;
        assert(Seq::<Report>::empty() + Seq::<Report>::empty() =~= Seq::<Report>::empty());
        while offset < config.scan_range
            invariant
                wanted@ == signature(),
                at == old(io).log().len(),
                extends(old(io).log(), io.log()),
                Seq::<Report>::empty() + Seq::<Report>::empty() == Seq::<Report>::empty(),
                forall|l: Seq<Event>| #[trigger]
                    extends(io.log(), l) ==> control_block_found(*config, l, at, 0)
                        == control_block_found(*config, l, io.log().len() as int, offset as int),
            decreases u64::MAX - offset,
        {
            let ghost before = io.log();
            let ghost from = before.len() as int;
            assert(extends(before, before));
            let addr: u64 = match config.scan_start.checked_add(offset) {
                Some(addr) => addr,
                None => return Err(Error::RttOutOfRange),
            };
            let len: u64 = config.window_len(offset);
            if len > usize::MAX as u64 {
                return Err(Error::RttOutOfRange);
            }
            let mut block: Vec<u8> = vec![0; len as usize];
            let outcome = io.read_8(addr, block.as_mut_slice());
            assert(extends(before, io.log()));
            assert(extends(io.log(), io.log()));
            if outcome.is_ok() {
                if let Some(index) = find_subslice(block.as_slice(), wanted.as_slice()) {
                    let found = addr.checked_add(index as u64);
                    proof {
                        if found is Some {
                            lemma_found_in_range(*config, io.log(), at, 0);
                        }
                    }
                    return match found {
                        Some(found) => Ok(found),
                        None => Err(Error::RttOutOfRange),
                    };
                }
            }
            let next = offset.checked_add(config.scan_stride);
            if config.scan_stride == 0 || next.is_none() {
                return Err(Error::RttOutOfRange);
            }
            assert forall|l: Seq<Event>| #[trigger]
                extends(io.log(), l) implies control_block_found(*config, l, at, 0)
                == control_block_found(*config, l, from + 1, offset + config.scan_stride) by {
                assert(extends(before, l));
                assert(l[from] == io.log()[from]);
            }
            offset = offset + config.scan_stride;
        }
        assert(extends(io.log(), io.log()));
        Err(Error::ControlBlockNotFound)
    }

    /// Scans for the RTT control block and attaches to it.
    #[verifier::rlimit(40)]
    pub fn attach<I: DapIo>(io: &mut I, config: &RttConfig) -> (r: Result<Rtt, Error>)
        ensures
            extends(old(io).log(), final(io).log()),
            ran(
                attached(*config, final(io).log(), old(io).log().len() as int),
                session_result(r),
                Seq::empty(),
                Seq::empty(),
                final(io).log().len(),
            ),
    {
        let ghost at = io.log().len() as int;
        let scanned = Rtt::find_control_block(io, config);
        let ghost found = io.log();
        let ghost scan = control_block_found(*config, found, at, 0)->0;
        assert(scan.reports =~= Seq::<Report>::empty() + scan.reports);
        assert(Seq::<Report>::empty() + Seq::<Report>::empty() =~= Seq::<Report>::empty());
        let block: u64 = match scanned {
            Ok(block) => block,
            Err(e) => return Err(e),
        };
        let mut header: Vec<u8> = vec![0; 24];
        let outcome = io.read_8(block, header.as_mut_slice());
        proof {
            lemma_control_block_stable(*config, found, io.log(), at, 0);
        }
        if let Err(e) = outcome {
            return Err(Error::Transfer(e));
        }
        let up: u32 = read_word(&header, 16);
        let down: u32 = read_word(&header, 20);
        if up > MAX_BUFFERS || down > MAX_BUFFERS {
            return Err(Error::ImplausibleBufferCounts { up, down });
        }
        let total: usize = up as usize + down as usize;
        if total == 0 {
            let rtt = Rtt { up: Vec::new(), down: Vec::new() };
            return Ok(rtt);
        }
        if block > u64::MAX - 23 - 24 * (total as u64) {
            return Err(Error::RttOutOfRange);
        }
        let mut bytes: Vec<u8> = vec![0; 24 * total];
        let outcome = io.read_8(block + 24, bytes.as_mut_slice());
        proof {
            lemma_control_block_stable(*config, found, io.log(), at, 0);
        }
        if let Err(e) = outcome {
            return Err(Error::Transfer(e));
        }
        let up_buffers = parse_descriptors(block, &bytes, 0, up as usize);
        let down_buffers = parse_descriptors(block, &bytes, up as usize, total);
        assert(up_buffers@ =~= Seq::new(up as nat, |i: int| descriptor(block, bytes@, i)));
        assert(down_buffers@ =~= Seq::new(down as nat, |i: int| descriptor(block, bytes@, up + i)));
        Ok(Rtt { up: up_buffers, down: down_buffers })
    }

    /// The number of up and of down channels.
    pub fn channel_counts(&self) -> (r: (usize, usize))
        ensures
            r.0 == self@.up.len(),
            r.1 == self@.down.len(),
    {
        (self.up.len(), self.down.len())
    }

    /// Reads any pending bytes from an up-buffer (target to host).
    #[verifier::rlimit(40)]
    pub fn read_up<I: DapIo>(
        &self,
        io: &mut I,
        channel: usize,
    ) -> (r: Result<Vec<u8>, Error>)
        ensures
            extends(old(io).log(), final(io).log()),
            ran(
                up_read(self@, channel, final(io).log(), old(io).log().len() as int),
                bytes_result(r),
                Seq::empty(),
                Seq::empty(),
                final(io).log().len(),
            ),
    {
        proof {
            use_type_invariant(self);
        }
        assert(Seq::<Report>::empty() + Seq::<Report>::empty() =~= Seq::<Report>::empty());
        if channel >= self.up.len() {
            return Err(Error::NoUpBuffer { channel });
        }
        let buf = self.up[channel];
        let write_off = match io.read_word_32(buf.descriptor_addr + 12) {
            Ok(write_off) => write_off,
            Err(e) => return Err(Error::Transfer(e)),
        };
        let read_off = match io.read_word_32(buf.descriptor_addr + 16) {
            Ok(read_off) => read_off,
            Err(e) => return Err(Error::Transfer(e)),
        };
        let start: u64 = buf.buffer_ptr as u64;
        let data: Vec<u8>;
        if write_off > read_off {
            let len: usize = (write_off - read_off) as usize;
            let mut out: Vec<u8> = vec![0; len];
            if let Err(e) = io.read_8(start + read_off as u64, out.as_mut_slice()) {
                return Err(Error::Transfer(e));
            }
            data = out;
        } else if write_off < read_off {
            if read_off > buf.size {
                return Err(Error::RttOutOfRange);
            }
            let len: usize = (buf.size - read_off) as usize;
            let mut tail: Vec<u8> = vec![0; len];
            if let Err(e) = io.read_8(start + read_off as u64, tail.as_mut_slice()) {
                return Err(Error::Transfer(e));
            }
            let mut head: Vec<u8> = vec![0; write_off as usize];
            if let Err(e) = io.read_8(start, head.as_mut_slice()) {
                return Err(Error::Transfer(e));
            }
            tail.append(&mut head);
            data = tail;
        } else {
            let none: Vec<u8> = Vec::new();
            assert(none@ =~= Seq::<u8>::empty());
            return Ok(none);
        }
        if let Err(e) = io.write_word_32(buf.descriptor_addr + 16, write_off) {
            return Err(Error::Transfer(e));
        }
        Ok(data)
    }

    /// Writes bytes to a down-buffer (host to target).
    ///
    /// Returns the number of bytes written, or 0 if the buffer cannot hold the
    /// whole payload right now.
    #[verifier::rlimit(40)]
    pub fn write_down<I: DapIo>(
        &self,
        io: &mut I,
        channel: usize,
        data: &[u8],
    ) -> (r: Result<usize, Error>)
        ensures
            extends(old(io).log(), final(io).log()),
            ran(
                down_written(self@, channel, data@, final(io).log(), old(io).log().len() as int),
                r,
                Seq::empty(),
                Seq::empty(),
                final(io).log().len(),
            ),
    {
        proof {
            use_type_invariant(self);
        }
        let ghost at = io.log().len() as int;
        assert(Seq::<Report>::empty() + Seq::<Report>::empty() =~= Seq::<Report>::empty());
        if channel >= self.down.len() {
            return Err(Error::NoDownBuffer { channel });
        }
        let buf = self.down[channel];
        let read_off = match io.read_word_32(buf.descriptor_addr + 16) {
            Ok(read_off) => read_off,
            Err(e) => return Err(Error::Transfer(e)),
        };
        let mut write_off: u32 = match io.read_word_32(buf.descriptor_addr + 12) {
            Ok(write_off) => write_off,
            Err(e) => return Err(Error::Transfer(e)),
        };
        if write_off >= read_off && write_off - read_off >= buf.size {
            return Err(Error::RttOutOfRange);
        }
        let available: u32 = ring_free_space(buf.size, write_off, read_off);
        if (available as usize) < data.len() {
            return Ok(0);
        }
        let ghost ready = io.log();
        let ghost first = write_off;
        let start: u64 = buf.buffer_ptr as u64;
        let mut k: usize = 0;
        while k < data.len()
            invariant
                k <= data@.len(),
                start == buf.buffer_ptr,
                extends(old(io).log(), io.log()),
                extends(ready, io.log()),
                Seq::<Report>::empty() + Seq::<Report>::empty() == Seq::<Report>::empty(),
                at + 2 == ready.len(),
                at == old(io).log().len(),
                word_read_at(ready, at, (buf.descriptor_addr + 16) as u64) == Some(
                    Ok::<u32, DapError>(read_off),
                ),
                word_read_at(ready, at + 1, (buf.descriptor_addr + 12) as u64) == Some(
                    Ok::<u32, DapError>(first),
                ),
                !(first >= read_off && first - read_off >= buf.size),
                data@.len() <= free_space(buf.size, first, read_off),
                channel < self@.down.len(),
                buf == self@.down[channel as int],
                forall|l: Seq<Event>| #[trigger]
                    extends(io.log(), l) ==> bytes_pushed(buf, data@, l, at + 2, first, 0)
                        == bytes_pushed(
                        buf,
                        data@,
                        l,
                        io.log().len() as int,
                        write_off,
                        k as nat,
                    ),
            decreases data@.len() - k,
        {
            let ghost before = io.log();
            let ghost from = before.len() as int;
            let byte: Vec<u8> = vec![data[k]];
            assert(byte@ =~= seq![data@[k as int]]);
            let outcome = io.write_8(start + write_off as u64, byte.as_slice());
            assert(extends(before, io.log()));
            if let Err(e) = outcome {
                return Err(Error::Transfer(e));
            }
            if write_off == u32::MAX {
                return Err(Error::RttOutOfRange);
            }
            write_off = write_off + 1;
            if write_off == buf.size {
                write_off = 0;
            }
            k = k + 1;
            assert forall|l: Seq<Event>| #[trigger] extends(io.log(), l) implies bytes_pushed(
                buf,
                data@,
                l,
                at + 2,
                first,
                0,
            ) == bytes_pushed(buf, data@, l, from + 1, write_off, k as nat) by {
                assert(extends(before, l));
                assert(l[from] == io.log()[from]);
            }
        }
        let ghost filled = io.log();
        assert(extends(filled, filled));
        let outcome = io.write_word_32(buf.descriptor_addr + 12, write_off);
        assert(extends(filled, io.log()));
        if let Err(e) = outcome {
            return Err(Error::Transfer(e));
        }
        Ok(data.len())
    }
}

/// What a result shows of the bytes in it.
pub open spec fn bytes_result(r: Result<Vec<u8>, Error>) -> Result<Seq<u8>, Error> {
    match r {
        Ok(bytes) => Ok(bytes@),
        Err(e) => Err(e),
    }
}

/// The read of what is pending in a ring buffer with these offsets: in one
/// piece, or up to the end of the ring and from its start.
pub open spec fn pending_read(
    buf: RttBuffer,
    write_off: u32,
    read_off: u32,
    log: Seq<Event>,
    at: int,
) -> Option<Run<Seq<u8>>> {
    if write_off > read_off {
        transferred(
            bytes_read_at(log, at, buf.buffer_ptr + read_off, (write_off - read_off) as nat),
            at,
        )
    } else if read_off > buf.size {
        failed(Error::RttOutOfRange, at)
    } else {
        bind(
            transferred(
                bytes_read_at(log, at, buf.buffer_ptr + read_off, (buf.size - read_off) as nat),
                at,
            ),
            |tail: Seq<u8>, at: int|
                bind(
                    transferred(
                        bytes_read_at(log, at, buf.buffer_ptr as int, write_off as nat),
                        at,
                    ),
                    |head: Seq<u8>, at: int| done(tail + head, at),
                ),
        )
    }
}

/// A read of an up-buffer: its offsets, what is pending between them, and the
/// new read offset.
pub open spec fn up_read(rtt: RttView, channel: usize, log: Seq<Event>, at: int) -> Option<
    Run<Seq<u8>>,
> {
    if channel >= rtt.up.len() {
        failed(Error::NoUpBuffer { channel }, at)
    } else {
        let buf = rtt.up[channel as int];
        bind(
            transferred(word_read_at(log, at, (buf.descriptor_addr + 12) as u64), at),
            |write_off: u32, at: int|
                bind(
                    transferred(word_read_at(log, at, (buf.descriptor_addr + 16) as u64), at),
                    |read_off: u32, at: int|
                        if write_off == read_off {
                            done(Seq::empty(), at)
                        } else {
                            bind(
                                pending_read(buf, write_off, read_off, log, at),
                                |data: Seq<u8>, at: int|
                                    bind(
                                        transferred(
                                            word_write_at(
                                                log,
                                                at,
                                                (buf.descriptor_addr + 16) as u64,
                                                write_off,
                                            ),
                                            at,
                                        ),
                                        |_w: (), at: int| done(data, at),
                                    ),
                            )
                        },
                ),
        )
    }
}

/// The write offset behind the one given.
pub open spec fn next_off(size: u32, write_off: u32) -> u32 {
    if write_off + 1 == size {
        0
    } else {
        (write_off + 1) as u32
    }
}

/// The writes of a payload to a ring buffer from byte `k` on. They end with the
/// new write offset.
pub open spec fn bytes_pushed(
    buf: RttBuffer,
    data: Seq<u8>,
    log: Seq<Event>,
    at: int,
    write_off: u32,
    k: nat,
) -> Option<Run<u32>>
    decreases data.len() - k,
{
    if k >= data.len() {
        done(write_off, at)
    } else {
        match bytes_write_at(log, at, buf.buffer_ptr + write_off, seq![data[k as int]]) {
            None => None,
            Some(Err(e)) => failed(Error::Transfer(e), at + 1),
            Some(Ok(_)) => if write_off == u32::MAX {
                failed(Error::RttOutOfRange, at + 1)
            } else {
                bytes_pushed(buf, data, log, at + 1, next_off(buf.size, write_off), k + 1)
            },
        }
    }
}

/// A write to a down-buffer: its offsets, the payload where it fits as a whole,
/// and the new write offset.
pub open spec fn down_written(
    rtt: RttView,
    channel: usize,
    data: Seq<u8>,
    log: Seq<Event>,
    at: int,
) -> Option<Run<usize>> {
    if channel >= rtt.down.len() {
        failed(Error::NoDownBuffer { channel }, at)
    } else {
        let buf = rtt.down[channel as int];
        bind(
            transferred(word_read_at(log, at, (buf.descriptor_addr + 16) as u64), at),
            |read_off: u32, at: int|
                bind(
                    transferred(word_read_at(log, at, (buf.descriptor_addr + 12) as u64), at),
                    |write_off: u32, at: int|
                        if write_off >= read_off && write_off - read_off >= buf.size {
                            failed(Error::RttOutOfRange, at)
                        } else if free_space(buf.size, write_off, read_off) < data.len() {
                            done(0, at)
                        } else {
                            bind(
                                bytes_pushed(buf, data, log, at, write_off, 0),
                                |moved: u32, at: int|
                                    bind(
                                        transferred(
                                            word_write_at(
                                                log,
                                                at,
                                                (buf.descriptor_addr + 12) as u64,
                                                moved,
                                            ),
                                            at,
                                        ),
                                        |_w: (), at: int| done(data.len() as usize, at),
                                    ),
                            )
                        },
                ),
        )
    }
}

} // verus!
