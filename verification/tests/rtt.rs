//! RTT over a byte-addressed device.

use std::collections::BTreeMap;

use freeocd::dap::io::{DapError, DapIo, Log};
use freeocd::error::Error;
use freeocd::rtt::{find_subslice, Rtt, RttConfig};

fn failure(message: &str) -> DapError {
    DapError { message: message.to_string() }
}

/// A device with some bytes of memory; the rest cannot be read.
#[derive(Default)]
struct Device {
    mem: BTreeMap<u64, u8>,
    reads: Vec<(u64, usize)>,
    byte_writes: Vec<(u64, u8)>,
    fail_writes: bool,
}

impl Device {
    fn put(&mut self, addr: u64, bytes: &[u8]) {
        for (i, &b) in bytes.iter().enumerate() {
            self.mem.insert(addr + i as u64, b);
        }
    }

    fn put_word(&mut self, addr: u64, value: u32) {
        self.put(addr, &value.to_le_bytes());
    }

    fn word(&self, addr: u64) -> u32 {
        let mut bytes = [0u8; 4];
        for (i, b) in bytes.iter_mut().enumerate() {
            *b = self.mem[&(addr + i as u64)];
        }
        u32::from_le_bytes(bytes)
    }
}

impl DapIo for Device {
    fn log(&self) -> Log {
        unreachable!()
    }

    fn read_ap(&mut self, _ap: u8, _reg: u64) -> Result<u32, DapError> {
        Err(failure("no AP"))
    }

    fn write_ap(&mut self, _ap: u8, _reg: u64, _value: u32) -> Result<(), DapError> {
        Err(failure("no AP"))
    }

    fn reinitialize(&mut self) -> Result<(), DapError> {
        Ok(())
    }

    fn read_word_32(&mut self, addr: u64) -> Result<u32, DapError> {
        let mut bytes = [0u8; 4];
        self.read_8(addr, &mut bytes)?;
        Ok(u32::from_le_bytes(bytes))
    }

    fn write_word_32(&mut self, addr: u64, value: u32) -> Result<(), DapError> {
        if self.fail_writes {
            return Err(failure("write refused"));
        }
        self.put_word(addr, value);
        Ok(())
    }

    fn read_32(&mut self, _addr: u64, _buf: &mut [u32]) -> Result<(), DapError> {
        Err(failure("no word access"))
    }

    fn write_32(&mut self, _addr: u64, _words: &[u32]) -> Result<(), DapError> {
        Err(failure("no word access"))
    }

    fn read_8(&mut self, addr: u64, buf: &mut [u8]) -> Result<(), DapError> {
        self.reads.push((addr, buf.len()));
        for (i, slot) in buf.iter_mut().enumerate() {
            *slot = *self.mem.get(&(addr + i as u64)).ok_or_else(|| failure("unmapped"))?;
        }
        Ok(())
    }

    fn write_8(&mut self, addr: u64, bytes: &[u8]) -> Result<(), DapError> {
        if self.fail_writes {
            return Err(failure("write refused"));
        }
        for (i, &b) in bytes.iter().enumerate() {
            self.byte_writes.push((addr + i as u64, b));
        }
        self.put(addr, bytes);
        Ok(())
    }

    fn sleep(&mut self, _millis: u64) {}

    fn now(&mut self) -> u64 {
        0
    }
}

const BASE: u64 = 0x2000_0000;
const BLOCK: u64 = BASE + 0x900;
const UP_DESC: u64 = BLOCK + 24;
const DOWN_DESC: u64 = BLOCK + 48;
const UP_RING: u64 = BASE + 0x100;
const DOWN_RING: u64 = BASE + 0x200;

/// A device with one up-buffer and one down-buffer of 16 bytes each.
fn device(up_wr: u32, up_rd: u32, down_wr: u32, down_rd: u32) -> Device {
    let mut d = Device::default();
    d.put(BASE, &[0; 0x2000]);
    d.put(BLOCK, b"SEGGER RTT");
    d.put_word(BLOCK + 16, 1);
    d.put_word(BLOCK + 20, 1);
    d.put_word(UP_DESC + 4, UP_RING as u32);
    d.put_word(UP_DESC + 8, 16);
    d.put_word(UP_DESC + 12, up_wr);
    d.put_word(UP_DESC + 16, up_rd);
    d.put_word(DOWN_DESC + 4, DOWN_RING as u32);
    d.put_word(DOWN_DESC + 8, 16);
    d.put_word(DOWN_DESC + 12, down_wr);
    d.put_word(DOWN_DESC + 16, down_rd);
    d.put(UP_RING, b"0123456789abcdef");
    d
}

fn window() -> RttConfig {
    RttConfig { scan_range: 0x1000, ..RttConfig::default() }
}

fn attach(d: Device) -> (Device, Rtt) {
    let mut io = d;
    let rtt = Rtt::attach(&mut io, &window()).expect("attaches");
    (io, rtt)
}

#[test]
fn default_window_is_the_common_sram() {
    let config = RttConfig::default();
    assert_eq!(config.scan_start, 0x2000_0000);
    assert_eq!(config.scan_range, 0x1_0000);
    assert_eq!(config.scan_block, 0x1000);
    assert_eq!(config.scan_stride, 0x0800);
}

/// A scan that would leave the address space attaches where the block comes
/// first, and fails where it does not.
#[test]
fn scans_may_run_to_the_end_of_memory() {
    let config = RttConfig { scan_range: u64::MAX, ..RttConfig::default() };
    let mut io = device(0, 0, 0, 0);
    assert!(Rtt::attach(&mut io, &config).is_ok());

    let mut io = Device::default();
    let config = RttConfig { scan_start: u64::MAX - 0x900, ..RttConfig::default() };
    let err = Rtt::attach(&mut io, &config).err().expect("runs out of memory");
    assert!(matches!(err, Error::RttOutOfRange));
    assert_eq!(io.reads.len(), 2);

    // The offset itself does not fit.
    let config = RttConfig { scan_start: 0, scan_stride: u64::MAX, ..RttConfig::default() };
    let err = Rtt::attach(&mut io, &config).err().expect("one window");
    assert!(matches!(err, Error::ControlBlockNotFound));
    let config = RttConfig { scan_start: 0, scan_range: u64::MAX, scan_block: 16, scan_stride: 1 << 63 };
    let err = Rtt::attach(&mut io, &config).err().expect("two windows");
    assert!(matches!(err, Error::RttOutOfRange));
}

/// A scan that does not advance looks at one window.
#[test]
fn scans_without_a_stride_look_once() {
    let config = RttConfig { scan_stride: 0, ..RttConfig::default() };
    let mut io = device(0, 0, 0, 0);
    assert!(Rtt::attach(&mut io, &config).is_ok());
    let mut io = Device::default();
    let err = Rtt::attach(&mut io, &config).err().expect("no advance");
    assert!(matches!(err, Error::RttOutOfRange));
    assert_eq!(io.reads.len(), 1);
}

/// Of two control blocks the lower one is found.
#[test]
fn the_lowest_control_block_is_found() {
    let mut d = device(0, 0, 0, 0);
    d.put(BASE + 0x1500, b"SEGGER RTT");
    let (io, rtt) = attach(d);
    assert_eq!(rtt.channel_counts(), (1, 1));
    assert_eq!(io.reads[1], (BLOCK, 24));
}

#[test]
fn attaches_to_the_control_block() {
    let (io, rtt) = attach(device(0, 0, 0, 0));
    assert_eq!(rtt.channel_counts(), (1, 1));
    assert_eq!(
        io.reads,
        vec![(BASE, 0x1000), (BLOCK, 24), (BLOCK + 24, 48)]
    );
}

/// A signature across the end of a window is found in the next one.
#[test]
fn overlapping_windows_miss_nothing() {
    let mut d = Device::default();
    d.put(BASE, &[0; 0x3000]);
    d.put(BASE + 0xFFA, b"SEGGER RTT");
    let mut io = d;
    let config = RttConfig { scan_range: 0x1004, ..RttConfig::default() };
    let rtt = Rtt::attach(&mut io, &config).expect("attaches");
    assert_eq!(rtt.channel_counts(), (0, 0));
    assert_eq!(
        io.reads,
        vec![(BASE, 0x1000), (BASE + 0x800, 0x804), (BASE + 0xFFA, 24)]
    );
}

/// Windows that cannot be read are passed over.
#[test]
fn unreadable_windows_are_passed_over() {
    let mut d = Device::default();
    d.put(BASE + 0x800, &[0; 0x1800]);
    d.put(BASE + 0x900, b"SEGGER RTT");
    let mut io = d;
    assert!(Rtt::attach(&mut io, &window()).is_ok());
}

#[test]
fn no_control_block_is_an_error() {
    let mut d = Device::default();
    d.put(BASE, &[0; 0x2000]);
    let mut io = d;
    let err = Rtt::attach(&mut io, &window()).err().expect("nothing there");
    assert!(matches!(err, Error::ControlBlockNotFound));
    assert_eq!(err.message(), "RTT control block not found in scan range");
    assert_eq!(io.reads.len(), 2);

    let empty = RttConfig { scan_range: 0, ..RttConfig::default() };
    let err = Rtt::attach(&mut io, &empty).err().expect("nothing scanned");
    assert!(matches!(err, Error::ControlBlockNotFound));
}

#[test]
fn implausible_counts_are_refused() {
    let mut d = device(0, 0, 0, 0);
    d.put_word(BLOCK + 16, 65);
    let mut io = d;
    let err = Rtt::attach(&mut io, &window()).err().expect("implausible");
    assert_eq!(err.message(), "Implausible RTT buffer counts (up=65, down=1); aborting");

    let mut d = device(0, 0, 0, 0);
    d.put_word(BLOCK + 16, 64);
    d.put_word(BLOCK + 20, 64);
    let mut io = d;
    let rtt = Rtt::attach(&mut io, &window()).expect("the limit itself");
    assert_eq!(rtt.channel_counts(), (64, 64));
}

#[test]
fn failed_reads_of_the_block_are_passed_on() {
    let mut d = Device::default();
    d.put(BASE, &[0; 0x1000]);
    d.put(BASE + 0xFF0, b"SEGGER RTT");
    let mut io = d;
    let err = Rtt::attach(&mut io, &window()).err().expect("header unreadable");
    assert_eq!(err.message(), "unmapped");
    assert!(matches!(err, Error::Transfer(_)));
}

/// A device that holds the signature at the very end of memory.
struct Edge;

impl DapIo for Edge {
    fn log(&self) -> Log {
        unreachable!()
    }

    fn read_ap(&mut self, _ap: u8, _reg: u64) -> Result<u32, DapError> {
        Err(failure("no AP"))
    }
    fn write_ap(&mut self, _ap: u8, _reg: u64, _value: u32) -> Result<(), DapError> {
        Err(failure("no AP"))
    }
    fn reinitialize(&mut self) -> Result<(), DapError> {
        Ok(())
    }
    fn read_word_32(&mut self, _addr: u64) -> Result<u32, DapError> {
        Ok(1)
    }
    fn write_word_32(&mut self, _addr: u64, _value: u32) -> Result<(), DapError> {
        Ok(())
    }
    fn read_32(&mut self, _addr: u64, _buf: &mut [u32]) -> Result<(), DapError> {
        Ok(())
    }
    fn write_32(&mut self, _addr: u64, _words: &[u32]) -> Result<(), DapError> {
        Ok(())
    }
    fn read_8(&mut self, _addr: u64, buf: &mut [u8]) -> Result<(), DapError> {
        if buf.len() >= 100 {
            buf[64..74].copy_from_slice(b"SEGGER RTT");
        } else {
            buf[16] = 1;
        }
        Ok(())
    }
    fn write_8(&mut self, _addr: u64, _bytes: &[u8]) -> Result<(), DapError> {
        Ok(())
    }
    fn sleep(&mut self, _millis: u64) {}
    fn now(&mut self) -> u64 {
        0
    }
}

#[test]
fn control_blocks_that_leave_memory_are_refused() {
    let mut io = Edge;
    // The signature itself lies behind the last address.
    let config = RttConfig { scan_start: u64::MAX - 10, scan_range: 100, ..RttConfig::default() };
    let err = Rtt::attach(&mut io, &config).err().expect("out of range");
    assert!(matches!(err, Error::RttOutOfRange));
    assert_eq!(err.message(), "RTT scan or control block leads out of range");
    // The descriptors do.
    let config = RttConfig { scan_start: u64::MAX - 100, scan_range: 100, ..RttConfig::default() };
    let err = Rtt::attach(&mut io, &config).err().expect("out of range");
    assert!(matches!(err, Error::RttOutOfRange));
}

/// The last descriptor may end at the last address.
#[test]
fn attaches_at_the_top_of_memory() {
    // The signature is at 2^64 - 48, and there is one up-buffer.
    let mut io = Edge;
    let config = RttConfig { scan_start: u64::MAX - 111, scan_range: 100, ..RttConfig::default() };
    let rtt = Rtt::attach(&mut io, &config).expect("attaches");
    assert_eq!(rtt.channel_counts(), (1, 0));
    assert!(rtt.read_up(&mut io, 0).expect("equal offsets").is_empty());
    // One byte further up, the descriptor does not fit.
    let config = RttConfig { scan_start: u64::MAX - 110, ..config };
    let err = Rtt::attach(&mut io, &config).err().expect("out of range");
    assert!(matches!(err, Error::RttOutOfRange));
}

/// A signature behind the range, or across its end, is not found.
#[test]
fn scans_stay_in_their_range() {
    let mut d = Device::default();
    d.put(BASE, &[0; 0x1_2000]);
    d.put(BASE + 0x1_0100, b"SEGGER RTT");
    let err = Rtt::attach(&mut d, &RttConfig::default()).err().expect("behind the range");
    assert!(matches!(err, Error::ControlBlockNotFound));
    assert_eq!(d.reads.len(), 32);
    assert_eq!(d.reads[0], (BASE, 0x1000));
    assert_eq!(d.reads[31], (BASE + 0xF800, 0x800));

    let mut d = Device::default();
    d.put(BASE, &[0; 0x2000]);
    d.put(BASE + 0xFF7, b"SEGGER RTT");
    let err = Rtt::attach(&mut d, &window()).err().expect("across the end");
    assert!(matches!(err, Error::ControlBlockNotFound));

    let mut d = Device::default();
    d.put(BASE, &[0; 0x2000]);
    d.put(BASE + 0xFF6, b"SEGGER RTT");
    assert!(Rtt::attach(&mut d, &window()).is_ok());
}

#[test]
fn reads_what_is_pending_in_one_piece() {
    let (mut io, rtt) = attach(device(9, 4, 0, 0));
    assert_eq!(rtt.read_up(&mut io, 0).expect("reads"), b"45678".to_vec());
    assert_eq!(io.word(UP_DESC + 16), 9);
    assert_eq!(io.word(UP_DESC + 12), 9);
    assert!(rtt.read_up(&mut io, 0).expect("reads").is_empty());
}

#[test]
fn reads_what_is_pending_across_the_end() {
    let (mut io, rtt) = attach(device(3, 14, 0, 0));
    assert_eq!(rtt.read_up(&mut io, 0).expect("reads"), b"ef012".to_vec());
    assert_eq!(io.word(UP_DESC + 16), 3);
}

#[test]
fn reads_to_the_very_end() {
    let (mut io, rtt) = attach(device(0, 14, 0, 0));
    assert_eq!(rtt.read_up(&mut io, 0).expect("reads"), b"ef".to_vec());
}

#[test]
fn missing_channels_are_named() {
    let (mut io, rtt) = attach(device(0, 0, 0, 0));
    let err = rtt.read_up(&mut io, 1).expect_err("no channel");
    assert_eq!(err.message(), "RTT up-buffer 1 does not exist");
    let err = rtt.write_down(&mut io, 7, b"x").expect_err("no channel");
    assert_eq!(err.message(), "RTT down-buffer 7 does not exist");
}

#[test]
fn offsets_out_of_the_ring_are_refused() {
    let (mut io, rtt) = attach(device(0, 17, 40, 2));
    let err = rtt.read_up(&mut io, 0).expect_err("corrupt");
    assert!(matches!(err, Error::RttOutOfRange));
    let err = rtt.write_down(&mut io, 0, b"x").expect_err("corrupt");
    assert!(matches!(err, Error::RttOutOfRange));
    let (mut io, rtt) = attach(device(0, 0, u32::MAX, u32::MAX));
    let err = rtt.write_down(&mut io, 0, b"x").expect_err("corrupt");
    assert!(matches!(err, Error::RttOutOfRange));
}

#[test]
fn writes_a_payload_and_moves_the_offset() {
    let (mut io, rtt) = attach(device(0, 0, 2, 2));
    assert_eq!(rtt.write_down(&mut io, 0, b"hey").expect("writes"), 3);
    assert_eq!(
        io.byte_writes,
        vec![(DOWN_RING + 2, b'h'), (DOWN_RING + 3, b'e'), (DOWN_RING + 4, b'y')]
    );
    assert_eq!(io.word(DOWN_DESC + 12), 5);
    assert_eq!(io.word(DOWN_DESC + 16), 2);
}

#[test]
fn writes_across_the_end() {
    let (mut io, rtt) = attach(device(0, 0, 14, 14));
    assert_eq!(rtt.write_down(&mut io, 0, b"abcd").expect("writes"), 4);
    assert_eq!(
        io.byte_writes,
        vec![
            (DOWN_RING + 14, b'a'),
            (DOWN_RING + 15, b'b'),
            (DOWN_RING, b'c'),
            (DOWN_RING + 1, b'd')
        ]
    );
    assert_eq!(io.word(DOWN_DESC + 12), 2);
}

/// A payload that does not fit as a whole is not written at all.
#[test]
fn full_buffers_take_nothing() {
    let (mut io, rtt) = attach(device(0, 0, 0, 0));
    assert_eq!(rtt.write_down(&mut io, 0, &[7; 16]).expect("too long"), 0);
    assert!(io.byte_writes.is_empty());
    assert_eq!(io.word(DOWN_DESC + 12), 0);
    assert_eq!(rtt.write_down(&mut io, 0, &[7; 15]).expect("fits"), 15);
    assert_eq!(rtt.write_down(&mut io, 0, &[7]).expect("full"), 0);
}

/// What was written to a ring is what a reader of that ring gets.
#[test]
fn a_reader_gets_what_was_written() {
    let mut d = device(0, 0, 13, 13);
    // Both channels share one ring.
    d.put_word(BLOCK + 16, 2);
    d.put_word(BLOCK + 20, 0);
    let (mut io, up) = attach(d);
    assert_eq!(up.channel_counts(), (2, 0));
    let (mut writer, down) = attach(device(0, 0, 13, 13));
    assert_eq!(down.write_down(&mut writer, 0, b"hello").expect("writes"), 5);
    for (addr, byte) in &writer.byte_writes {
        io.write_8(*addr, &[*byte]).expect("copies");
    }
    io.write_word_32(DOWN_DESC + 12, writer.word(DOWN_DESC + 12)).expect("copies");
    assert_eq!(up.read_up(&mut io, 1).expect("reads"), b"hello".to_vec());
    assert!(up.read_up(&mut io, 1).expect("reads").is_empty());
}

#[test]
fn failed_transfers_are_passed_on() {
    let mut d = device(9, 4, 0, 0);
    d.fail_writes = true;
    let (mut io, rtt) = attach(d);
    assert_eq!(rtt.read_up(&mut io, 0).expect_err("refused").message(), "write refused");
    assert_eq!(rtt.write_down(&mut io, 0, b"x").expect_err("refused").message(), "write refused");
}

#[test]
fn empty_needles_and_short_haystacks_are_not_found() {
    assert_eq!(find_subslice(b"abc", b""), None);
    assert_eq!(find_subslice(b"ab", b"abc"), None);
    assert_eq!(find_subslice(b"abc", b"abc"), Some(0));
    assert_eq!(find_subslice(b"aab", b"ab"), Some(1));
    assert_eq!(find_subslice(b"abab", b"ab"), Some(0));
}
