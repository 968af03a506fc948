//! The subcommands against a scripted device.

use std::collections::HashMap;

use freeocd::cli::{FlashArgs, ProbeArgs, RttArgs, VerifyArgs};
use freeocd::dap::io::{DapError, DapIo, Log};
use freeocd::dap::ProbeInfo;
use freeocd::error::Error;
use freeocd::hex::Firmware;
use freeocd::ops::{
    attach_rtt, describe_probes, describe_targets, ensure_capability, prepare, prepare_flash,
    prepare_verify, read_firmware, rtt_config, rtt_receive, rtt_send, rtt_takes_input, run_flash, run_recover,
    run_reset, run_verify,
};
use freeocd::platform::nordic::NordicHandler;
use freeocd::platform::{Phase, Progress, ProgressFn, Reports, Warning};
use freeocd::rtt::RttConfig;
use freeocd::targets::definition::{
    ConfigRegister, CtrlAp, EraseAllStatus, FlashController, FlashRegisters, OffsetRegister,
    SramRegion, TargetConfig,
};
use freeocd::targets::probe_filters::ProbeFilter;
use freeocd::targets::TargetSummary;

fn failure(message: &str) -> DapError {
    DapError { message: message.to_string() }
}

/// A well-behaved Nordic device with word memory.
#[derive(Default)]
struct Device {
    words: HashMap<u64, u32>,
    steps: Vec<&'static str>,
    fail_reinit_from: Option<usize>,
    reinits: usize,
    fail_reset: bool,
    corrupt: bool,
}

impl DapIo for Device {
    fn log(&self) -> Log {
        unreachable!()
    }

    fn read_ap(&mut self, _ap: u8, reg: u64) -> Result<u32, DapError> {
        // ERASEALLSTATUS: ready to reset; ERASEPROTECTSTATUS: unlocked.
        Ok(if reg == 0x008 || reg == 0x00C { 1 } else { 0x32880000 })
    }

    fn write_ap(&mut self, _ap: u8, reg: u64, value: u32) -> Result<(), DapError> {
        if reg == 0x004 && value == 1 {
            self.steps.push("erase");
            self.words.retain(|addr, _| *addr >= 0x5000_0000);
        }
        if reg == 0x000 && value == 2 {
            if self.fail_reset {
                return Err(failure("no reset"));
            }
            self.steps.push("reset");
        }
        Ok(())
    }

    fn reinitialize(&mut self) -> Result<(), DapError> {
        self.reinits += 1;
        if self.fail_reinit_from.is_some_and(|n| self.reinits >= n) {
            return Err(failure("gone"));
        }
        self.steps.push("connect");
        Ok(())
    }

    fn read_word_32(&mut self, addr: u64) -> Result<u32, DapError> {
        if addr == 0x5004B400 {
            return Ok(1);
        }
        self.words.get(&addr).copied().ok_or_else(|| failure("unmapped"))
    }

    fn write_word_32(&mut self, addr: u64, value: u32) -> Result<(), DapError> {
        self.words.insert(addr, value);
        Ok(())
    }

    fn read_32(&mut self, addr: u64, buf: &mut [u32]) -> Result<(), DapError> {
        self.steps.push("read");
        for (i, slot) in buf.iter_mut().enumerate() {
            *slot = self.words.get(&(addr + 4 * i as u64)).copied().unwrap_or(0xFFFF_FFFF);
            if self.corrupt {
                *slot ^= 1;
            }
        }
        Ok(())
    }

    fn write_32(&mut self, addr: u64, words: &[u32]) -> Result<(), DapError> {
        self.steps.push("write");
        for (i, &word) in words.iter().enumerate() {
            self.words.insert(addr + 4 * i as u64, word);
        }
        Ok(())
    }

    fn read_8(&mut self, addr: u64, buf: &mut [u8]) -> Result<(), DapError> {
        for (i, slot) in buf.iter_mut().enumerate() {
            let at = addr + i as u64;
            let word = self.words.get(&(at & !3)).copied().unwrap_or(0);
            *slot = word.to_le_bytes()[(at % 4) as usize];
        }
        Ok(())
    }

    fn write_8(&mut self, addr: u64, bytes: &[u8]) -> Result<(), DapError> {
        for (i, &b) in bytes.iter().enumerate() {
            let at = addr + i as u64;
            let word = self.words.entry(at & !3).or_insert(0);
            let mut parts = word.to_le_bytes();
            parts[(at % 4) as usize] = b;
            *word = u32::from_le_bytes(parts);
        }
        Ok(())
    }

    fn sleep(&mut self, _millis: u64) {}

    fn now(&mut self) -> u64 {
        0
    }
}

#[derive(Default)]
struct Sink(Vec<Progress>);

impl ProgressFn for Sink {
    fn reports(&self) -> Reports {
        unreachable!()
    }

    fn report(&mut self, progress: Progress) {
        self.0.push(progress);
    }

    fn warn(&mut self, _warning: Warning) {}
}

fn target(capabilities: &[&str]) -> TargetConfig {
    TargetConfig {
        id: "test/chip".to_string(),
        name: "Chip".to_string(),
        platform: "nordic".to_string(),
        cpu: None,
        cputapid: None,
        ctrl_ap: Some(CtrlAp { num: 2, idr: 0x32880000 }),
        erase_all_status: Some(EraseAllStatus { ready: 0, ready_to_reset: 1, busy: 2, error: 3 }),
        flash_controller: Some(FlashController {
            kind: "rramc".to_string(),
            base: 0x5004B000,
            registers: Some(FlashRegisters {
                config: ConfigRegister { offset: 0x500, enable_value: 0x101 },
                ready: OffsetRegister { offset: 0x400 },
                ready_next: None,
            }),
        }),
        flash: None,
        sram: None,
        capabilities: capabilities.iter().map(|s| s.to_string()).collect(),
        description: None,
    }
}

fn handler() -> NordicHandler {
    NordicHandler::new_for_test(target(&[]))
}

fn no_probe() -> ProbeArgs {
    ProbeArgs { probe: None, speed: None }
}

fn flash_args(verify: bool) -> FlashArgs {
    FlashArgs {
        target: "test/chip".to_string(),
        file: "fw.hex".to_string(),
        verify,
        probe: no_probe(),
    }
}

fn rtt_args(scan_addr: Option<u64>, scan_range: Option<u64>) -> RttArgs {
    RttArgs {
        target: "test/chip".to_string(),
        scan_addr,
        scan_range,
        poll_ms: 100,
        reset: false,
        probe: no_probe(),
    }
}

const HEX: &str = ":02000000AAAAAA\n:0100010055A9\n:00000001FF\n";

fn content() -> Result<String, String> {
    Ok(HEX.to_string())
}

fn firmware() -> Firmware {
    Firmware { data: vec![1, 2, 3, 4, 5], start_address: 0x1000 }
}

#[test]
fn capabilities_are_asked_for() {
    assert!(ensure_capability(&target(&["flash"]), "flash").is_ok());
    assert!(ensure_capability(&target(&[]), "anything").is_ok());
    let err = ensure_capability(&target(&["recover", "rtt"]), "flash").expect_err("refused");
    assert_eq!(
        err.message(),
        "Target 'test/chip' does not support 'flash' (capabilities: recover, rtt)"
    );
}

#[test]
fn firmware_files_are_read() {
    let loaded = read_firmware("fw.hex", content()).expect("an image");
    assert_eq!(loaded.firmware.data, vec![0xAA, 0x55]);
    assert_eq!(loaded.overlap, Some(1));
    let err = read_firmware("fw.hex", Err("no such file".to_string())).expect_err("unreadable");
    assert_eq!(err.full_message(), "Failed to read firmware file fw.hex: no such file");
    let err = read_firmware("fw.hex", Ok(":00000001FF".to_string())).expect_err("empty");
    assert_eq!(err.full_message(), "No data found in HEX file");
}

#[test]
fn flash_is_prepared_in_order() {
    let (_, loaded) = prepare_flash(&flash_args(true), &target(&["flash", "verify"]), content())
        .ok()
        .expect("ready");
    assert_eq!(loaded.firmware.data.len(), 2);

    let unreadable = || Err("why".to_string());
    // The platform, the capabilities and then the file.
    let mut foreign = target(&["rtt"]);
    foreign.platform = "other".to_string();
    let err = prepare_flash(&flash_args(true), &foreign, unreadable()).err().unwrap();
    assert!(matches!(err, Error::NoHandler { .. }));
    let err = prepare_flash(&flash_args(true), &target(&["rtt"]), unreadable()).err().unwrap();
    assert!(err.message().contains("'flash'"));
    let err = prepare_flash(&flash_args(true), &target(&["flash"]), unreadable()).err().unwrap();
    assert!(err.message().contains("'verify'"));
    let err = prepare_flash(&flash_args(false), &target(&["flash"]), unreadable()).err().unwrap();
    assert!(matches!(err, Error::ReadFirmware { .. }));
}

#[test]
fn verify_is_prepared_in_order() {
    let args = VerifyArgs {
        target: "test/chip".to_string(),
        file: "fw.hex".to_string(),
        probe: no_probe(),
    };
    assert!(prepare_verify(&args, &target(&["verify"]), content()).is_ok());
    let err = prepare_verify(&args, &target(&["flash"]), content()).err().unwrap();
    assert!(err.message().contains("'verify'"));
    let err = prepare_verify(&args, &target(&[]), Err("x".to_string())).err().unwrap();
    assert!(matches!(err, Error::ReadFirmware { .. }));
    assert!(prepare(&target(&["recover"]), "recover").is_ok());
    assert!(prepare(&target(&["recover"]), "rtt").is_err());
}

#[test]
fn flash_goes_through_all_steps() {
    let mut io = Device::default();
    let mut progress = Sink::default();
    run_flash(&handler(), &mut io, &firmware(), true, &mut progress).expect("flashes");
    assert_eq!(
        io.steps,
        vec!["erase", "reset", "connect", "connect", "write", "read", "read", "reset"]
    );
    assert_eq!(io.words.get(&0x1000), Some(&0x04030201));
    assert_eq!(io.words.get(&0x1004), Some(&0xFFFFFF05));
    let phases: Vec<Phase> = progress.0.iter().map(|p| p.phase).collect();
    assert_eq!(
        phases,
        vec![
            Phase::Recover,
            Phase::Recover,
            Phase::Recover,
            Phase::Recover,
            Phase::Flash,
            Phase::Verify
        ]
    );
    assert_eq!(phases[4].label(), "flash");
    assert_eq!(phases[0].label(), "recover");
    assert_eq!(phases[5].label(), "verify");
}

#[test]
fn flash_without_verification_reads_the_tail_alone() {
    let mut io = Device::default();
    let mut progress = Sink::default();
    run_flash(&handler(), &mut io, &firmware(), false, &mut progress).expect("flashes");
    assert_eq!(
        io.steps,
        vec!["erase", "reset", "connect", "connect", "write", "read", "reset"]
    );
}

#[test]
fn flash_needs_a_connection_after_recovery() {
    let mut io = Device { fail_reinit_from: Some(2), ..Device::default() };
    let mut progress = Sink::default();
    let err = run_flash(&handler(), &mut io, &firmware(), true, &mut progress).expect_err("gone");
    assert_eq!(err.full_message(), "Reconnect after recovery failed: gone");
    assert_eq!(io.steps, vec!["erase", "reset", "connect"]);
}

#[test]
fn flash_fails_where_flash_differs() {
    let mut io = Device { corrupt: true, ..Device::default() };
    let mut progress = Sink::default();
    let err = run_flash(&handler(), &mut io, &firmware(), true, &mut progress).expect_err("differs");
    assert_eq!(err.message(), "Verification failed: 2 byte mismatch(es)");
    // The device is not reset after that.
    assert_eq!(io.steps.last(), Some(&"read"));
}

#[test]
fn verify_compares_flash() {
    let mut io = Device::default();
    let mut progress = Sink::default();
    let err = run_verify(&handler(), &mut io, &firmware(), &mut progress).expect_err("erased");
    assert!(matches!(err, Error::VerificationFailed { mismatches: 5 }));
    run_flash(&handler(), &mut io, &firmware(), false, &mut progress).expect("flashes");
    run_verify(&handler(), &mut io, &firmware(), &mut progress).expect("equal");
}

#[test]
fn recover_ends_with_a_reset() {
    let mut io = Device::default();
    let mut progress = Sink::default();
    run_recover(&handler(), &mut io, &mut progress).expect("recovers");
    assert_eq!(io.steps, vec!["erase", "reset", "connect", "reset"]);
    run_reset(&handler(), &mut io).expect("resets");
    assert_eq!(io.steps.last(), Some(&"reset"));

    let mut io = Device { fail_reset: true, ..Device::default() };
    assert_eq!(run_reset(&handler(), &mut io).expect_err("fails").message(), "no reset");
    let err = run_recover(&handler(), &mut io, &mut progress).expect_err("fails");
    assert_eq!(err.message(), "no reset");
}

#[test]
fn rtt_scans_where_it_is_told() {
    let mut chip = target(&[]);
    assert_eq!(rtt_config(&rtt_args(None, None), &chip).scan_start, 0x2000_0000);
    chip.sram = Some(SramRegion { address: 0x3000_0000, work_area_size: None });
    let config = rtt_config(&rtt_args(None, None), &chip);
    assert_eq!((config.scan_start, config.scan_range), (0x3000_0000, 0x1_0000));
    let config = rtt_config(&rtt_args(Some(0x10), Some(0x20)), &chip);
    assert_eq!((config.scan_start, config.scan_range), (0x10, 0x20));
    assert_eq!((config.scan_block, config.scan_stride), (0x1000, 0x800));
}

/// A device with a control block of one up-buffer and one down-buffer.
fn rtt_device(up: u32, down: u32) -> Device {
    let mut d = Device::default();
    let base = 0x2000_0000u64;
    d.write_8(base, b"SEGGER RTT").unwrap();
    d.words.insert(base + 16, up);
    d.words.insert(base + 20, down);
    for i in 0..u64::from(up + down) {
        let desc = base + 24 + 24 * i;
        d.words.insert(desc + 4, (base + 0x100 + 0x10 * i) as u32);
        d.words.insert(desc + 8, 8);
        d.words.insert(desc + 12, 0);
        d.words.insert(desc + 16, 0);
    }
    d
}

#[test]
fn rtt_talks_in_both_directions() {
    let mut d = rtt_device(1, 1);
    d.write_8(0x2000_0100, b"hi").unwrap();
    d.words.insert(0x2000_0018 + 12, 2);
    let mut io = d;
    let rtt = attach_rtt(&handler(), &mut io, false, &RttConfig::default()).ok().expect("attaches");
    assert_eq!(rtt.channel_counts(), (1, 1));
    assert!(io.steps.is_empty());
    assert_eq!(rtt_receive(&rtt, &mut io).expect("reads"), b"hi".to_vec());
    assert!(rtt_receive(&rtt, &mut io).expect("reads").is_empty());
    assert!(rtt_takes_input(&rtt));
    assert!(rtt_send(&rtt, &mut io, b"1234567").expect("fits"));
    assert!(!rtt_send(&rtt, &mut io, b"8").expect("full"));
}

#[test]
fn rtt_without_buffers_receives_nothing() {
    let mut io = rtt_device(0, 0);
    let rtt = attach_rtt(&handler(), &mut io, false, &RttConfig::default()).ok().expect("attaches");
    assert!(rtt_receive(&rtt, &mut io).expect("nothing").is_empty());
    assert!(!rtt_takes_input(&rtt));
    let err = rtt_send(&rtt, &mut io, b"x").expect_err("no buffer");
    assert!(matches!(err, Error::NoDownBuffer { channel: 0 }));
}

#[test]
fn rtt_may_reset_first() {
    let mut io = rtt_device(1, 1);
    assert!(attach_rtt(&handler(), &mut io, true, &RttConfig::default()).is_ok());
    assert_eq!(io.steps, vec!["reset", "connect"]);

    let gone = Device { fail_reinit_from: Some(1), ..rtt_device(1, 1) };
    let mut io = gone;
    let err = attach_rtt(&handler(), &mut io, true, &RttConfig::default()).err().expect("gone");
    assert_eq!(err.full_message(), "Reconnect after reset failed: gone");

    let stuck = Device { fail_reset: true, ..rtt_device(1, 1) };
    let mut io = stuck;
    let err = attach_rtt(&handler(), &mut io, true, &RttConfig::default()).err().expect("stuck");
    assert_eq!(err.message(), "no reset");
}

#[test]
fn probes_are_described() {
    let probe = |name: &str, vendor_id: u16, serial: Option<&str>| ProbeInfo {
        identifier: name.to_string(),
        vendor_id,
        product_id: 0xC,
        serial_number: serial.map(|s| s.to_string()),
    };
    let filters = vec![
        ProbeFilter { vid: 0x2886, comment: Some("  SeeedStudio \u{2014} XIAO".to_string()) },
        ProbeFilter { vid: 0x0D28, comment: None },
        ProbeFilter { vid: 0x2886, comment: Some("second".to_string()) },
        ProbeFilter { vid: 0x0001, comment: Some(" Plain - one ".to_string()) },
    ];
    let probes = vec![
        probe("XIAO", 0x2886, Some("ABC")),
        probe("DAPLink", 0x0D28, None),
        probe("Other", 0xFFFF, None),
        probe("Plain", 0x0001, None),
    ];
    assert_eq!(
        describe_probes(&probes, &filters),
        vec![
            "Connected probes:",
            "  0: XIAO (2886:000c) serial=ABC  [SeeedStudio]",
            "  1: DAPLink (0d28:000c) serial=-  [known CMSIS-DAP vendor]",
            "  2: Other (ffff:000c) serial=-",
            "  3: Plain (0001:000c) serial=-  [Plain - one]",
        ]
    );
    assert_eq!(
        describe_probes(&vec![], &filters),
        vec!["Connected probes:", "  (none found)"]
    );
}

#[test]
fn targets_are_described() {
    let targets = vec![
        TargetSummary {
            id: "a/b".to_string(),
            name: "AB".to_string(),
            description: String::new(),
            capabilities: vec!["flash".to_string(), "rtt".to_string()],
        },
        TargetSummary {
            id: "c".to_string(),
            name: "C".to_string(),
            description: "a chip".to_string(),
            capabilities: vec![],
        },
    ];
    assert_eq!(
        describe_targets(&targets),
        vec![
            "",
            "Available targets:",
            "  a/b \u{2014} AB [flash, rtt]",
            "  c \u{2014} C []",
            "       a chip",
        ]
    );
    assert_eq!(describe_targets(&vec![]), vec!["", "Available targets:"]);
}
