//! The Nordic handler's recover, flash, verify and reset against a scripted
//! device.

use std::collections::{HashMap, VecDeque};

use freeocd::dap::io::{DapError, DapIo, Log};
use freeocd::error::{Controller, Error};
use freeocd::hex::Firmware;
use freeocd::platform::nordic::{
    NordicHandler, CTRL_AP_ERASEALL, CTRL_AP_ERASEALLSTATUS, CTRL_AP_ERASEPROTECTSTATUS,
    CTRL_AP_IDR, CTRL_AP_RESET,
};
use freeocd::platform::{
    handler_for, Phase, PlatformHandler, Progress, ProgressFn, Reports, Warning,
};
use freeocd::targets::definition::{
    ConfigRegister, CtrlAp, EraseAllStatus, FlashController, FlashRegisters, MemoryRegion,
    OffsetRegister, SramRegion, TargetConfig,
};

const STATUS_BUSY: u32 = 2;
const STATUS_READY_TO_RESET: u32 = 1;
const STATUS_ERROR: u32 = 3;

const AP: u8 = 2;
const IDR: u32 = 0x32880000;
const RRAMC_BASE: u64 = 0x5004B000;
const RRAMC_CONFIG: u64 = RRAMC_BASE + 0x500;
const RRAMC_READY: u64 = RRAMC_BASE + 0x408;

fn failure(message: &str) -> DapError {
    DapError { message: message.to_string() }
}

/// Scriptable in-memory device.
#[derive(Default)]
struct MockIo {
    /// Scripted AP read values, consumed in order per (ap, reg).
    ap_read_seq: HashMap<(u8, u64), VecDeque<u32>>,
    /// Fallback AP read values once a script is exhausted.
    ap_read_default: HashMap<(u8, u64), u32>,
    /// Log of all AP writes.
    ap_writes: Vec<(u8, u64, u32)>,
    /// Word-addressed target memory.
    mem: HashMap<u64, u32>,
    /// Log of all bulk memory writes.
    mem_writes: Vec<(u64, Vec<u32>)>,
    /// Log of all bulk memory reads.
    mem_reads: Vec<(u64, usize)>,
    /// Number of reinitialize() calls.
    reinit_count: usize,
    /// Force all AP writes to fail.
    fail_ap_writes: bool,
    /// Force all memory writes to fail.
    fail_mem_writes: bool,
    /// Force reinitialize() to fail.
    fail_reinit: bool,
    /// Milliseconds slept.
    slept: u64,
}

impl MockIo {
    fn script_ap_read(&mut self, reg: u64, values: &[u32]) {
        self.ap_read_seq
            .insert((AP, reg), values.iter().copied().collect());
    }

    fn default_ap_read(&mut self, reg: u64, value: u32) {
        self.ap_read_default.insert((AP, reg), value);
    }
}

impl DapIo for MockIo {
    fn log(&self) -> Log {
        unreachable!()
    }

    fn read_ap(&mut self, ap: u8, reg: u64) -> Result<u32, DapError> {
        if let Some(seq) = self.ap_read_seq.get_mut(&(ap, reg)) {
            if let Some(v) = seq.pop_front() {
                return Ok(v);
            }
        }
        self.ap_read_default
            .get(&(ap, reg))
            .copied()
            .ok_or_else(|| failure("unscripted AP read"))
    }

    fn write_ap(&mut self, ap: u8, reg: u64, value: u32) -> Result<(), DapError> {
        if self.fail_ap_writes {
            return Err(failure("scripted AP write failure"));
        }
        self.ap_writes.push((ap, reg, value));
        Ok(())
    }

    fn reinitialize(&mut self) -> Result<(), DapError> {
        self.reinit_count += 1;
        if self.fail_reinit {
            return Err(failure("scripted reconnect failure"));
        }
        Ok(())
    }

    fn read_word_32(&mut self, addr: u64) -> Result<u32, DapError> {
        self.mem
            .get(&addr)
            .copied()
            .ok_or_else(|| failure("unmapped memory read"))
    }

    fn write_word_32(&mut self, addr: u64, value: u32) -> Result<(), DapError> {
        if self.fail_mem_writes {
            return Err(failure("scripted memory write failure"));
        }
        self.mem.insert(addr, value);
        Ok(())
    }

    fn read_32(&mut self, addr: u64, buf: &mut [u32]) -> Result<(), DapError> {
        self.mem_reads.push((addr, buf.len()));
        for (i, slot) in buf.iter_mut().enumerate() {
            *slot = self.read_word_32(addr + (i as u64) * 4)?;
        }
        Ok(())
    }

    fn write_32(&mut self, addr: u64, words: &[u32]) -> Result<(), DapError> {
        for (i, &word) in words.iter().enumerate() {
            self.mem.insert(addr + (i as u64) * 4, word);
        }
        self.mem_writes.push((addr, words.to_vec()));
        Ok(())
    }

    fn read_8(&mut self, _addr: u64, _buf: &mut [u8]) -> Result<(), DapError> {
        Err(failure("no byte access"))
    }

    fn write_8(&mut self, _addr: u64, _bytes: &[u8]) -> Result<(), DapError> {
        Err(failure("no byte access"))
    }

    fn sleep(&mut self, millis: u64) {
        self.slept += millis;
    }

    fn now(&mut self) -> u64 {
        self.slept * 1_000_000
    }
}

/// Keeps every report of progress, and the text of every warning.
#[derive(Default)]
struct Sink(Vec<Progress>, Vec<String>);

impl ProgressFn for Sink {
    fn reports(&self) -> Reports {
        unreachable!()
    }

    fn report(&mut self, progress: Progress) {
        self.0.push(progress);
    }

    fn warn(&mut self, warning: Warning) {
        self.1.push(warning.message());
    }
}

/// An nRF54L15-like target definition.
fn test_target() -> TargetConfig {
    TargetConfig {
        id: "test/nrf54l15".to_string(),
        name: "nRF54L15".to_string(),
        platform: "nordic".to_string(),
        cpu: None,
        cputapid: None,
        ctrl_ap: Some(CtrlAp { num: 2, idr: 0x32880000 }),
        erase_all_status: Some(EraseAllStatus { ready: 0, ready_to_reset: 1, busy: 2, error: 3 }),
        flash_controller: Some(FlashController {
            kind: "rramc".to_string(),
            base: 0x5004B000,
            registers: Some(FlashRegisters {
                config: ConfigRegister { offset: 0x500, enable_value: 0x1 },
                ready: OffsetRegister { offset: 0x408 },
                ready_next: None,
            }),
        }),
        flash: Some(MemoryRegion { address: 0x0, size: 0x17D000 }),
        sram: Some(SramRegion { address: 0x20000000, work_area_size: None }),
        capabilities: vec![
            "recover".to_string(),
            "flash".to_string(),
            "verify".to_string(),
            "rtt".to_string(),
        ],
        description: None,
    }
}

fn handler() -> NordicHandler {
    NordicHandler::new_for_test(test_target())
}

/// A clean erase (BUSY then READYTORESET) recovers, resets and verifies unlock.
#[test]
fn recover_succeeds_on_clean_erase() {
    let mut io = MockIo::default();
    io.default_ap_read(CTRL_AP_IDR, IDR);
    io.script_ap_read(CTRL_AP_ERASEALLSTATUS, &[STATUS_BUSY, STATUS_READY_TO_RESET]);
    io.default_ap_read(CTRL_AP_ERASEPROTECTSTATUS, 1);

    let mut progress = Sink::default();
    handler().recover(&mut io, &mut progress).expect("recover succeeds");

    assert!(io.ap_writes.contains(&(AP, CTRL_AP_ERASEALL, 0)));
    assert!(io.ap_writes.contains(&(AP, CTRL_AP_ERASEALL, 1)));
    assert!(io.ap_writes.contains(&(AP, CTRL_AP_RESET, 2)));
    assert!(io.ap_writes.contains(&(AP, CTRL_AP_RESET, 0)));
    assert!(io.reinit_count >= 1);
}

/// A first erase attempt that reports ERROR triggers a reinitialize and a
/// retry, which can then succeed.
#[test]
fn recover_retries_after_erase_error() {
    let mut io = MockIo::default();
    io.default_ap_read(CTRL_AP_IDR, IDR);
    io.script_ap_read(
        CTRL_AP_ERASEALLSTATUS,
        &[STATUS_ERROR, STATUS_BUSY, STATUS_READY_TO_RESET],
    );
    io.default_ap_read(CTRL_AP_ERASEPROTECTSTATUS, 1);

    let mut progress = Sink::default();
    handler().recover(&mut io, &mut progress).expect("retry succeeds");

    let triggers = io
        .ap_writes
        .iter()
        .filter(|w| **w == (AP, CTRL_AP_ERASEALL, 1))
        .count();
    assert_eq!(triggers, 2);
    assert!(io.reinit_count >= 1);
}

/// When both erase attempts fail the operation errors out.
#[test]
fn recover_fails_when_both_attempts_fail() {
    let mut io = MockIo::default();
    io.default_ap_read(CTRL_AP_IDR, IDR);
    io.default_ap_read(CTRL_AP_ERASEALLSTATUS, STATUS_ERROR);
    io.default_ap_read(CTRL_AP_ERASEPROTECTSTATUS, 1);

    let mut progress = Sink::default();
    let err = handler()
        .recover(&mut io, &mut progress)
        .expect_err("recover fails");
    assert!(err.message().contains("fallback erase failed"));
}

/// A device that still reports itself locked after the erase fails recovery.
#[test]
fn recover_fails_when_still_locked() {
    let mut io = MockIo::default();
    io.default_ap_read(CTRL_AP_IDR, IDR);
    io.script_ap_read(CTRL_AP_ERASEALLSTATUS, &[STATUS_BUSY, STATUS_READY_TO_RESET]);
    io.default_ap_read(CTRL_AP_ERASEPROTECTSTATUS, 0);

    let mut progress = Sink::default();
    let err = handler()
        .recover(&mut io, &mut progress)
        .expect_err("locked device fails recovery");
    assert!(err.message().contains("locked"));
}

/// Prepare RRAMC memory state: ready flag set, CONFIG initially zero.
fn arm_rramc(io: &mut MockIo) {
    io.mem.insert(RRAMC_READY, 1);
    io.mem.insert(RRAMC_CONFIG, 0);
}

/// Flashing a non-word-multiple image enables the RRAMC, pads the final word
/// with 0xFF and reads the tail back to flush the write buffer.
#[test]
fn flash_pads_final_word_and_flushes() {
    let mut io = MockIo::default();
    arm_rramc(&mut io);

    let firmware = Firmware {
        data: vec![0x01, 0x02, 0x03, 0x04, 0x05],
        start_address: 0x1000,
    };
    let mut progress = Sink::default();
    handler()
        .flash(&mut io, &firmware, &mut progress)
        .expect("flash succeeds");

    assert_eq!(io.mem.get(&RRAMC_CONFIG), Some(&0x1));
    assert_eq!(io.mem_writes, vec![(0x1000, vec![0x04030201, 0xFFFFFF05])]);
    assert_eq!(io.mem_reads, vec![(0x1000, 2)]);
    assert_eq!(
        progress.0,
        vec![Progress { phase: Phase::Flash, from: 0, to: 100, done: 2, total: 2 }]
    );
}

/// An RRAMC that never reports ready aborts the flash instead of programming
/// against a wedged controller.
#[test]
fn flash_fails_when_rramc_not_ready() {
    let mut io = MockIo::default();
    io.mem.insert(RRAMC_READY, 0);
    io.mem.insert(RRAMC_CONFIG, 0);

    let firmware = Firmware {
        data: vec![0x01, 0x02, 0x03, 0x04],
        start_address: 0x1000,
    };
    let mut progress = Sink::default();
    let err = handler()
        .flash(&mut io, &firmware, &mut progress)
        .expect_err("not-ready controller fails");
    assert!(err.message().contains("RRAMC"));
    assert!(io.mem_writes.is_empty());
}

/// A target whose flash controller type is unrecognized cannot be flashed.
#[test]
fn flash_fails_on_unknown_controller_kind() {
    let mut cfg = test_target();
    cfg.flash_controller = Some(FlashController {
        kind: "mystery".to_string(),
        base: 0x5004B000,
        registers: None,
    });

    let mut io = MockIo::default();
    let firmware = Firmware {
        data: vec![0x01, 0x02, 0x03, 0x04],
        start_address: 0x1000,
    };
    let mut progress = Sink::default();
    let err = NordicHandler::new_for_test(cfg)
        .flash(&mut io, &firmware, &mut progress)
        .expect_err("unknown controller fails");
    assert!(err.message().contains("Unsupported flash controller"));
}

/// Verify counts byte-level mismatches and reports success only on a match.
#[test]
fn verify_counts_byte_mismatches() {
    let mut io = MockIo::default();
    // Flash contents: 01 02 03 04 | 05 FF FF FF at 0x1000.
    io.mem.insert(0x1000, 0x04030201);
    io.mem.insert(0x1004, 0xFFFFFF05);

    let matching = Firmware {
        data: vec![0x01, 0x02, 0x03, 0x04, 0x05],
        start_address: 0x1000,
    };
    let mut progress = Sink::default();
    let outcome = handler()
        .verify(&mut io, &matching, &mut progress)
        .expect("verify runs");
    assert!(outcome.success);
    assert_eq!(outcome.mismatches, 0);

    let mismatching = Firmware {
        data: vec![0x01, 0xAA, 0x03, 0x04, 0xBB],
        start_address: 0x1000,
    };
    let outcome = handler()
        .verify(&mut io, &mismatching, &mut progress)
        .expect("verify runs");
    assert!(!outcome.success);
    assert_eq!(outcome.mismatches, 2);
}

/// Reset pulses the CTRL-AP RESET register (assert then release).
#[test]
fn reset_pulses_ctrl_ap() {
    let mut io = MockIo::default();
    handler().reset(&mut io).expect("reset succeeds");
    assert_eq!(
        io.ap_writes,
        vec![(AP, CTRL_AP_RESET, 2), (AP, CTRL_AP_RESET, 0)]
    );
}

/// A failed CTRL-AP write propagates instead of being reported as success.
#[test]
fn reset_propagates_write_failure() {
    let mut io = MockIo {
        fail_ap_writes: true,
        ..MockIo::default()
    };
    assert!(handler().reset(&mut io).is_err());
}

fn nvmc_target() -> TargetConfig {
    let mut cfg = test_target();
    cfg.flash_controller = Some(FlashController {
        kind: "nvmc".to_string(),
        base: 0x4001E000,
        registers: None,
    });
    cfg
}

fn image(len: usize, start_address: u64) -> Firmware {
    Firmware { data: (0..len).map(|i| (i % 251) as u8).collect(), start_address }
}

fn recover(mut io: MockIo, handler: &NordicHandler) -> (Result<(), Error>, MockIo, Vec<Progress>) {
    let mut progress = Sink::default();
    let result = handler.recover(&mut io, &mut progress);
    let reports = progress.0.clone();
    (result, io, reports)
}

fn flash(mut io: MockIo, cfg: TargetConfig, firmware: &Firmware) -> (Result<(), Error>, MockIo) {
    let mut progress = Sink::default();
    let result = NordicHandler::new_for_test(cfg).flash(&mut io, firmware, &mut progress);
    (result, io)
}

fn whole(percent: u64) -> Progress {
    Progress { phase: Phase::Recover, from: percent, to: percent, done: 0, total: 1 }
}

/// The AP writes of a recovery, in order, and its milestones.
#[test]
fn recover_follows_the_procedure() {
    let mut io = MockIo::default();
    io.script_ap_read(CTRL_AP_ERASEALLSTATUS, &[STATUS_BUSY, STATUS_READY_TO_RESET]);
    io.default_ap_read(CTRL_AP_ERASEPROTECTSTATUS, 1);
    let (result, io, reports) = recover(io, &handler());
    result.expect("recover succeeds without an IDR");
    assert_eq!(
        io.ap_writes,
        vec![
            (AP, CTRL_AP_ERASEALL, 0),
            (AP, CTRL_AP_ERASEALL, 1),
            (AP, CTRL_AP_RESET, 2),
            (AP, CTRL_AP_RESET, 0),
            (AP, CTRL_AP_ERASEALL, 0),
        ]
    );
    assert_eq!(io.reinit_count, 1);
    assert_eq!(reports, vec![whole(80), whole(85), whole(90), whole(100)]);
}

/// A device that is erased already is ready at once.
#[test]
fn recover_accepts_an_erased_device() {
    let mut io = MockIo::default();
    io.script_ap_read(CTRL_AP_ERASEALLSTATUS, &[STATUS_READY_TO_RESET]);
    io.default_ap_read(CTRL_AP_ERASEPROTECTSTATUS, 1);
    let (result, _, _) = recover(io, &handler());
    assert!(result.is_ok());
}

/// A device whose lock state cannot be read is let through.
#[test]
fn recover_passes_when_the_lock_cannot_be_read() {
    let mut io = MockIo::default();
    io.script_ap_read(CTRL_AP_ERASEALLSTATUS, &[STATUS_READY_TO_RESET]);
    let (result, _, _) = recover(io, &handler());
    assert!(result.is_ok());
}

/// A device that unlocks on the second look is recovered.
#[test]
fn recover_looks_twice_at_the_lock() {
    let mut io = MockIo::default();
    io.script_ap_read(CTRL_AP_ERASEALLSTATUS, &[STATUS_READY_TO_RESET]);
    io.script_ap_read(CTRL_AP_ERASEPROTECTSTATUS, &[0, 1]);
    let (result, io, _) = recover(io, &handler());
    assert!(result.is_ok());
    assert_eq!(io.reinit_count, 2);
}

/// With real timing, a poll waits between its looks and reports how far it is.
#[test]
fn recover_waits_between_looks() {
    let mut io = MockIo::default();
    io.script_ap_read(
        CTRL_AP_ERASEALLSTATUS,
        &[0, STATUS_BUSY, STATUS_BUSY, STATUS_BUSY, STATUS_READY_TO_RESET],
    );
    io.default_ap_read(CTRL_AP_ERASEPROTECTSTATUS, 1);
    let handler = handler_for(&test_target()).expect("a Nordic target");
    let (result, io, reports) = recover(io, &handler);
    assert!(result.is_ok());
    let tick = |from: u64, to: u64, millis: u64| Progress {
        phase: Phase::Recover,
        from,
        to,
        done: millis * 1_000_000,
        total: 30_000_000_000,
    };
    assert_eq!(
        reports,
        vec![
            tick(0, 30, 0),
            tick(30, 80, 0),
            tick(30, 80, 100),
            whole(80),
            whole(85),
            whole(90),
            whole(100)
        ]
    );
    // 3 polling intervals, 3 short delays, the reset delay and the reconnection.
    assert_eq!(io.slept, 3 * 100 + 3 * 10 + 500 + 200);
}

/// An erase that never starts gives up after two timeouts of 30 seconds.
#[test]
fn recover_gives_up_in_the_end() {
    let mut io = MockIo::default();
    io.default_ap_read(CTRL_AP_ERASEALLSTATUS, 0);
    let handler = NordicHandler::new(test_target());
    let (result, io, _) = recover(io, &handler);
    assert!(matches!(result, Err(Error::EraseFailed)));
    let triggers = io
        .ap_writes
        .iter()
        .filter(|w| **w == (AP, CTRL_AP_ERASEALL, 1))
        .count();
    assert_eq!(triggers, 2);
    assert_eq!(io.slept, 2 * 30_000 + 2 * 10 + 200);
}

/// A clock that stands still does not keep a poll going for longer.
#[test]
fn polls_end_though_the_clock_stands_still() {
    struct Stopped(MockIo);
    impl DapIo for Stopped {
        fn log(&self) -> Log {
            unreachable!()
        }

        fn read_ap(&mut self, ap: u8, reg: u64) -> Result<u32, DapError> {
            self.0.read_ap(ap, reg)
        }
        fn write_ap(&mut self, ap: u8, reg: u64, value: u32) -> Result<(), DapError> {
            self.0.write_ap(ap, reg, value)
        }
        fn reinitialize(&mut self) -> Result<(), DapError> {
            self.0.reinitialize()
        }
        fn read_word_32(&mut self, addr: u64) -> Result<u32, DapError> {
            self.0.read_word_32(addr)
        }
        fn write_word_32(&mut self, addr: u64, value: u32) -> Result<(), DapError> {
            self.0.write_word_32(addr, value)
        }
        fn read_32(&mut self, addr: u64, buf: &mut [u32]) -> Result<(), DapError> {
            self.0.read_32(addr, buf)
        }
        fn write_32(&mut self, addr: u64, words: &[u32]) -> Result<(), DapError> {
            self.0.write_32(addr, words)
        }
        fn read_8(&mut self, addr: u64, buf: &mut [u8]) -> Result<(), DapError> {
            self.0.read_8(addr, buf)
        }
        fn write_8(&mut self, addr: u64, bytes: &[u8]) -> Result<(), DapError> {
            self.0.write_8(addr, bytes)
        }
        fn sleep(&mut self, millis: u64) {
            self.0.sleep(millis)
        }
        fn now(&mut self) -> u64 {
            7
        }
    }
    let mut mock = MockIo::default();
    mock.mem.insert(RRAMC_READY, 0);
    let mut io = Stopped(mock);
    let mut progress = Sink::default();
    let result = NordicHandler::new(test_target()).flash(&mut io, &image(4, 0), &mut progress);
    assert!(matches!(result, Err(Error::NotReady { controller: Controller::Rramc })));
    assert_eq!(io.0.slept, 1000);
}

#[test]
fn failed_register_writes_end_a_recovery() {
    let io = MockIo { fail_ap_writes: true, ..MockIo::default() };
    let (result, _, _) = recover(io, &handler());
    let err = result.expect_err("no erase");
    assert!(matches!(err, Error::Transfer(_)));
    assert_eq!(err.message(), "scripted AP write failure");
}

/// The reconnection before the second attempt has to succeed; the one behind the
/// reset does not.
#[test]
fn reconnections_of_a_recovery() {
    let mut io = MockIo { fail_reinit: true, ..MockIo::default() };
    io.default_ap_read(CTRL_AP_ERASEALLSTATUS, STATUS_ERROR);
    let (result, _, _) = recover(io, &handler());
    assert_eq!(result.expect_err("no connection").message(), "scripted reconnect failure");

    let mut io = MockIo { fail_reinit: true, ..MockIo::default() };
    io.default_ap_read(CTRL_AP_ERASEALLSTATUS, STATUS_READY_TO_RESET);
    io.default_ap_read(CTRL_AP_ERASEPROTECTSTATUS, 1);
    let (result, _, _) = recover(io, &handler());
    assert!(result.is_ok());
}

#[test]
fn missing_definitions_are_named() {
    let mut cfg = test_target();
    cfg.ctrl_ap = None;
    let h = NordicHandler::new_for_test(cfg);
    let (result, io, _) = recover(MockIo::default(), &h);
    assert_eq!(
        result.expect_err("no CTRL-AP").message(),
        "target 'test/nrf54l15' has no ctrlAp definition"
    );
    assert!(io.ap_writes.is_empty());
    let mut io = MockIo::default();
    assert!(matches!(h.reset(&mut io), Err(Error::MissingCtrlAp { .. })));

    let mut cfg = test_target();
    cfg.erase_all_status = None;
    let (result, _, _) = recover(MockIo::default(), &NordicHandler::new_for_test(cfg));
    assert_eq!(
        result.expect_err("no codes").message(),
        "target 'test/nrf54l15' has no eraseAllStatus definition"
    );

    let mut cfg = test_target();
    cfg.flash_controller = None;
    let (result, _) = flash(MockIo::default(), cfg, &image(4, 0));
    assert_eq!(
        result.expect_err("no controller").message(),
        "target 'test/nrf54l15' has no flashController definition"
    );

    let mut cfg = test_target();
    cfg.flash_controller.as_mut().unwrap().registers = None;
    let (result, _) = flash(MockIo::default(), cfg, &image(4, 0));
    assert_eq!(
        result.expect_err("no registers").message(),
        "RRAMC requires a registers definition"
    );
}

#[test]
fn nvmc_is_enabled_by_its_config_register() {
    let mut io = MockIo::default();
    io.mem.insert(0x4001E400, 1);
    let (result, io) = flash(io, nvmc_target(), &image(4, 0x2000));
    result.expect("flash succeeds");
    assert_eq!(io.mem.get(&0x4001E504), Some(&1));
    assert_eq!(io.mem_writes, vec![(0x2000, vec![0x03020100])]);

    let mut io = MockIo::default();
    io.mem.insert(0x4001E400, 2);
    let (result, _) = flash(io, nvmc_target(), &image(4, 0x2000));
    assert_eq!(
        result.expect_err("bit 0 is not set").message(),
        "NVMC did not report ready within the timeout"
    );
}

#[test]
fn failed_config_writes_are_named_with_their_cause() {
    let io = MockIo { fail_mem_writes: true, ..MockIo::default() };
    let (result, _) = flash(io, test_target(), &image(4, 0));
    assert_eq!(
        result.expect_err("refused").full_message(),
        "Failed to write RRAMC CONFIG: scripted memory write failure"
    );
    let io = MockIo { fail_mem_writes: true, ..MockIo::default() };
    let (result, _) = flash(io, nvmc_target(), &image(4, 0));
    assert_eq!(
        result.expect_err("refused").full_message(),
        "Failed to write NVMC CONFIG: scripted memory write failure"
    );
}

/// Images are written in blocks of 1024 words, and the last 1024 words are read
/// back.
#[test]
fn flash_writes_in_blocks() {
    let mut io = MockIo::default();
    arm_rramc(&mut io);
    let firmware = image(4096 * 2 + 6, 0x8000);
    let mut progress = Sink::default();
    handler().flash(&mut io, &firmware, &mut progress).expect("flash succeeds");
    let blocks: Vec<(u64, usize)> = io
        .mem_writes
        .iter()
        .map(|(addr, words)| (*addr, words.len()))
        .collect();
    assert_eq!(blocks, vec![(0x8000, 1024), (0x9000, 1024), (0xA000, 2)]);
    assert_eq!(io.mem_reads, vec![(0x8000 + 4 * (2050 - 1024), 1024)]);
    let done: Vec<(u64, u64)> = progress.0.iter().map(|p| (p.done, p.total)).collect();
    assert_eq!(done, vec![(1024, 2050), (2048, 2050), (2050, 2050)]);

    // What was written verifies.
    let outcome = handler().verify(&mut io, &firmware, &mut progress).expect("verify runs");
    assert!(outcome.success);
    assert_eq!(outcome.mismatches, 0);
    let last = progress.0.last().copied();
    assert_eq!(
        last,
        Some(Progress { phase: Phase::Verify, from: 0, to: 100, done: 2050, total: 2050 })
    );
}

#[test]
fn empty_images_write_and_read_nothing() {
    let mut io = MockIo::default();
    arm_rramc(&mut io);
    let (result, mut io) = flash(io, test_target(), &image(0, 0x1000));
    result.expect("nothing to do");
    assert!(io.mem_writes.is_empty());
    assert!(io.mem_reads.is_empty());
    let mut progress = Sink::default();
    let outcome = handler().verify(&mut io, &image(0, 0), &mut progress).expect("verify runs");
    assert!(outcome.success);
}

/// A device that refuses block writes.
#[test]
fn failed_block_transfers_are_named_with_their_address() {
    struct Refusing(MockIo);
    impl DapIo for Refusing {
        fn log(&self) -> Log {
            unreachable!()
        }

        fn read_ap(&mut self, ap: u8, reg: u64) -> Result<u32, DapError> {
            self.0.read_ap(ap, reg)
        }
        fn write_ap(&mut self, ap: u8, reg: u64, value: u32) -> Result<(), DapError> {
            self.0.write_ap(ap, reg, value)
        }
        fn reinitialize(&mut self) -> Result<(), DapError> {
            self.0.reinitialize()
        }
        fn read_word_32(&mut self, addr: u64) -> Result<u32, DapError> {
            self.0.read_word_32(addr)
        }
        fn write_word_32(&mut self, addr: u64, value: u32) -> Result<(), DapError> {
            self.0.write_word_32(addr, value)
        }
        fn read_32(&mut self, _addr: u64, _buf: &mut [u32]) -> Result<(), DapError> {
            Err(failure("bus fault"))
        }
        fn write_32(&mut self, addr: u64, words: &[u32]) -> Result<(), DapError> {
            if addr >= 0x9000 {
                return Err(failure("bus fault"));
            }
            self.0.write_32(addr, words)
        }
        fn read_8(&mut self, addr: u64, buf: &mut [u8]) -> Result<(), DapError> {
            self.0.read_8(addr, buf)
        }
        fn write_8(&mut self, addr: u64, bytes: &[u8]) -> Result<(), DapError> {
            self.0.write_8(addr, bytes)
        }
        fn sleep(&mut self, millis: u64) {
            self.0.sleep(millis)
        }
        fn now(&mut self) -> u64 {
            self.0.now()
        }
    }
    let mut mock = MockIo::default();
    arm_rramc(&mut mock);
    let mut io = Refusing(mock);
    let mut progress = Sink::default();
    let err = handler()
        .flash(&mut io, &image(5000, 0x8000), &mut progress)
        .expect_err("second block fails");
    assert_eq!(err.full_message(), "Flash write failed at 0x00009000: bus fault");
    assert_eq!(progress.0.len(), 1);
    let err = handler()
        .verify(&mut io, &image(4, 0xABCD0), &mut progress)
        .expect_err("cannot be read");
    assert_eq!(err.full_message(), "Verify read failed at 0x000ABCD0: bus fault");
    // A failure of the read-back alone is no error.
    handler()
        .flash(&mut io, &image(8, 0x8000), &mut progress)
        .expect("the image was written");
}

#[test]
fn handlers_are_found_by_platform() {
    assert!(handler_for(&test_target()).is_ok());
    let mut cfg = test_target();
    cfg.platform = "stm32".to_string();
    let err = handler_for(&cfg).err().expect("no handler");
    assert_eq!(err.message(), "No platform handler registered for platform: stm32");
}

#[test]
fn register_addresses_are_looked_at() {
    assert!(handler().addresses_fit());
    let mut cfg = test_target();
    cfg.flash_controller.as_mut().unwrap().base = u64::MAX - 0x450;
    assert!(!NordicHandler::new(cfg).addresses_fit());
    let mut cfg = nvmc_target();
    cfg.flash_controller.as_mut().unwrap().base = u64::MAX - 0x504;
    assert!(NordicHandler::new(cfg).addresses_fit());
    let mut cfg = nvmc_target();
    cfg.flash_controller.as_mut().unwrap().base = u64::MAX - 0x503;
    assert!(!NordicHandler::new(cfg).addresses_fit());
    let mut cfg = test_target();
    cfg.flash_controller = None;
    assert!(NordicHandler::new(cfg).addresses_fit());
}

fn warnings_of_recovery(mut io: MockIo) -> Vec<String> {
    let mut progress = Sink::default();
    let _ = handler().recover(&mut io, &mut progress);
    progress.1
}

#[test]
fn a_plain_recovery_gives_no_warning() {
    let mut io = MockIo::default();
    io.default_ap_read(CTRL_AP_IDR, IDR);
    io.default_ap_read(CTRL_AP_ERASEALLSTATUS, STATUS_READY_TO_RESET);
    io.default_ap_read(CTRL_AP_ERASEPROTECTSTATUS, 1);
    assert!(warnings_of_recovery(io).is_empty());
}

#[test]
fn what_is_odd_in_a_recovery_is_told() {
    let mut io = MockIo { fail_reinit: true, ..MockIo::default() };
    io.default_ap_read(CTRL_AP_IDR, 7);
    io.default_ap_read(CTRL_AP_ERASEALLSTATUS, STATUS_READY_TO_RESET);
    assert_eq!(
        warnings_of_recovery(io),
        vec![
            "Unexpected CTRL-AP IDR (expected 0x32880000)",
            "Reconnect warning: scripted reconnect failure",
            "Could not read ERASEPROTECTSTATUS; unable to confirm unlock",
        ]
    );

    let mut io = MockIo { fail_reinit: true, ..MockIo::default() };
    io.default_ap_read(CTRL_AP_ERASEALLSTATUS, STATUS_READY_TO_RESET);
    io.default_ap_read(CTRL_AP_ERASEPROTECTSTATUS, 0);
    assert_eq!(
        warnings_of_recovery(io),
        vec![
            "Could not read CTRL-AP IDR; attempting mass erase anyway",
            "Reconnect warning: scripted reconnect failure",
            "Device may still be locked; retrying...",
            "Reinitialize during unlock retry failed: scripted reconnect failure",
        ]
    );

    let mut io = MockIo::default();
    io.default_ap_read(CTRL_AP_IDR, IDR);
    io.default_ap_read(CTRL_AP_ERASEALLSTATUS, STATUS_ERROR);
    assert_eq!(
        warnings_of_recovery(io),
        vec!["Mass erase failed; attempting fallback (reinit + retry)..."]
    );
}

#[test]
fn what_is_odd_in_programming_is_told() {
    // CONFIG reads back without its enable bit, and the tail cannot be read.
    struct Odd(MockIo, bool);
    impl DapIo for Odd {
        fn log(&self) -> Log {
            unreachable!()
        }
        fn read_ap(&mut self, ap: u8, reg: u64) -> Result<u32, DapError> {
            self.0.read_ap(ap, reg)
        }
        fn write_ap(&mut self, ap: u8, reg: u64, value: u32) -> Result<(), DapError> {
            self.0.write_ap(ap, reg, value)
        }
        fn reinitialize(&mut self) -> Result<(), DapError> {
            self.0.reinitialize()
        }
        fn read_word_32(&mut self, addr: u64) -> Result<u32, DapError> {
            if addr == RRAMC_READY {
                return Ok(1);
            }
            if self.1 {
                return Err(failure("no read"));
            }
            Ok(0x100)
        }
        fn write_word_32(&mut self, addr: u64, value: u32) -> Result<(), DapError> {
            self.0.write_word_32(addr, value)
        }
        fn read_32(&mut self, _addr: u64, _buf: &mut [u32]) -> Result<(), DapError> {
            Err(failure("bus fault"))
        }
        fn write_32(&mut self, addr: u64, words: &[u32]) -> Result<(), DapError> {
            self.0.write_32(addr, words)
        }
        fn read_8(&mut self, addr: u64, buf: &mut [u8]) -> Result<(), DapError> {
            self.0.read_8(addr, buf)
        }
        fn write_8(&mut self, addr: u64, bytes: &[u8]) -> Result<(), DapError> {
            self.0.write_8(addr, bytes)
        }
        fn sleep(&mut self, millis: u64) {
            self.0.sleep(millis)
        }
        fn now(&mut self) -> u64 {
            self.0.now()
        }
    }
    let mut progress = Sink::default();
    let mut io = Odd(MockIo::default(), false);
    handler().flash(&mut io, &image(8, 0x2000), &mut progress).expect("written");
    let mut io = Odd(MockIo::default(), true);
    handler().flash(&mut io, &image(4100, 0x2000), &mut progress).expect("written");
    assert_eq!(
        progress.1,
        vec![
            "RRAMC WEN bit not set",
            "Flash flush read-back failed at 0x00002000: bus fault",
            "Could not read back RRAMC CONFIG: no read",
            "Flash flush read-back failed at 0x00002004: bus fault",
        ]
    );
}

/// The first five bytes that differ are told one by one.
#[test]
fn mismatches_are_told() {
    let mut io = MockIo::default();
    for i in 0..4u64 {
        io.mem.insert(0x1000 + 4 * i, 0x04030201);
    }
    let mut data = vec![1, 2, 3, 4, 1, 2, 3, 4, 1, 2, 3, 4, 1];
    data[1] = 0xAA;
    data[12] = 0x0B;
    let mut progress = Sink::default();
    let firmware = Firmware { data, start_address: 0x1000 };
    let outcome = handler().verify(&mut io, &firmware, &mut progress).expect("verify runs");
    assert_eq!(outcome.mismatches, 2);
    assert_eq!(
        progress.1,
        vec![
            "Verify mismatch at 0x00001001: expected 0xAA, got 0x02",
            "Verify mismatch at 0x0000100C: expected 0x0B, got 0x01",
        ]
    );

    let mut progress = Sink::default();
    let firmware = Firmware { data: vec![9; 13], start_address: 0x1000 };
    let outcome = handler().verify(&mut io, &firmware, &mut progress).expect("verify runs");
    assert_eq!(outcome.mismatches, 13);
    assert_eq!(progress.1.len(), 5);
    assert_eq!(progress.1[4], "Verify mismatch at 0x00001004: expected 0x09, got 0x01");
}
