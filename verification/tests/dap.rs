//! Choosing a probe, and retrying transfers.

use freeocd::cli::ProbeArgs;
use freeocd::dap::arm::{is_transient, with_retry, Fault, Retry};
use freeocd::dap::{choose_probe, selector_string, ProbeInfo, ProbeOptions};
use freeocd::error::Error;

fn probe(vendor_id: u16, product_id: u16, serial: Option<&str>) -> ProbeInfo {
    ProbeInfo {
        identifier: "probe".to_string(),
        vendor_id,
        product_id,
        serial_number: serial.map(|s| s.to_string()),
    }
}

fn select(selector: &str) -> ProbeOptions {
    ProbeOptions { selector: Some(selector.to_string()), speed_khz: None }
}

#[test]
fn selector_strings_are_lower_case_and_padded() {
    assert_eq!(selector_string(&probe(0x2886, 0x000C, None)), "2886:000c");
    assert_eq!(selector_string(&probe(0xABCD, 0x1, Some("A:B"))), "abcd:0001:A:B");
    assert_eq!(selector_string(&probe(0, 0, Some(""))), "0000:0000:");
}

#[test]
fn first_probe_is_the_default() {
    let probes = vec![probe(0x2886, 0x000C, Some("S:1-2")), probe(1, 2, None)];
    let chosen = choose_probe(&ProbeOptions::default(), &probes).expect("a probe");
    assert_eq!(chosen.vendor_id, 0x2886);
    assert_eq!(chosen.product_id, 0x000C);
    assert_eq!(chosen.interface, None);
    assert_eq!(chosen.serial_number.as_deref(), Some("S:1-2"));

    let err = choose_probe(&ProbeOptions::default(), &vec![]).expect_err("no probe");
    assert!(matches!(err, Error::NoProbes));
    assert_eq!(
        err.message(),
        "No debug probes found. Connect a CMSIS-DAP probe and try again."
    );
}

#[test]
fn options_select_a_probe() {
    let chosen = choose_probe(&select("2886:000c"), &vec![]).expect("a selector");
    assert_eq!((chosen.vendor_id, chosen.product_id), (0x2886, 0x000C));
    assert_eq!(chosen.serial_number, None);

    let chosen = choose_probe(&select("303a:1001-3:DC:DA"), &vec![]).expect("a selector");
    assert_eq!(chosen.interface, Some(3));
    assert_eq!(chosen.serial_number.as_deref(), Some("DC:DA"));

    let chosen = choose_probe(&select("303A:1001-"), &vec![]).expect("a selector");
    assert_eq!((chosen.vendor_id, chosen.interface), (0x303A, None));

    let chosen = choose_probe(&select("1:+2:"), &vec![]).expect("a selector");
    assert_eq!((chosen.vendor_id, chosen.product_id), (1, 2));
    assert_eq!(chosen.serial_number.as_deref(), Some(""));
}

#[test]
fn malformed_selectors_are_named() {
    for text in ["", "2886", "2886:", "zz:1", "1:2-x", "1:2-256", "12345:1"] {
        let err = choose_probe(&select(text), &vec![probe(1, 1, None)]).expect_err("malformed");
        assert_eq!(err.message(), format!("Invalid --probe selector: {text}"));
        assert!(err.full_message().starts_with(&format!("Invalid --probe selector: {text}: ")));
    }
    let reason = |text: &str| match choose_probe(&select(text), &vec![]) {
        Err(Error::InvalidSelector { reason, .. }) => reason,
        _ => panic!("a malformed selector"),
    };
    assert_eq!(
        reason("2886"),
        "The format of the selector is invalid. Please use a string in the form \
         `VID:PID<-Interface>:<Serial>`, where Serial  and Interface are optional."
    );
    assert_eq!(reason("2886:"), "Could not parse VID or PID: cannot parse integer from empty string");
    assert_eq!(reason("zz:1"), "Could not parse VID or PID: invalid digit found in string");
    assert_eq!(reason("1:12345"), "Could not parse VID or PID: number too large to fit in target type");
    // The interface is looked at first, then the vendor.
    assert_eq!(reason("zz:12345-x"), "Could not parse VID or PID: invalid digit found in string");
    assert_eq!(reason("zz:1-256"), "Could not parse VID or PID: number too large to fit in target type");
    assert_eq!(reason("12345:zz"), "Could not parse VID or PID: number too large to fit in target type");
}

#[test]
fn arguments_become_options() {
    let args = ProbeArgs { probe: Some("1:2".to_string()), speed: Some(4000) };
    let options = args.to_options();
    assert_eq!(options.selector.as_deref(), Some("1:2"));
    assert_eq!(options.speed_khz, Some(4000));
    let copy = options.clone();
    assert_eq!(copy.selector, options.selector);
    assert_eq!(args.clone().speed, Some(4000));
}

#[test]
fn only_transient_faults_are_retried() {
    assert!(is_transient(Fault::Other));
    for fault in [
        Fault::ArchitectureRequired,
        Fault::AddressOutOf32BitAddressSpace,
        Fault::NoArmTarget,
        Fault::ReAttachRequired,
        Fault::MissingPermissions,
        Fault::MemoryNotAligned,
        Fault::OutOfBounds,
        Fault::UnsupportedTransferWidth,
        Fault::ApDoesNotExist,
        Fault::WrongApVersion,
        Fault::WrongApType,
    ] {
        assert!(!is_transient(fault));
        assert_eq!(with_retry(0, fault), Retry::GiveUp);
    }
}

#[test]
fn a_transfer_is_attempted_three_times() {
    assert_eq!(with_retry(0, Fault::Other), Retry::After(50));
    assert_eq!(with_retry(1, Fault::Other), Retry::After(50));
    assert_eq!(with_retry(2, Fault::Other), Retry::GiveUp);
    assert_eq!(with_retry(usize::MAX, Fault::Other), Retry::GiveUp);
}
