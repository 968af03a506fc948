//! Numbers, RTT helpers and probe filters.

use freeocd::rtt::{find_subslice, ring_free_space};
use freeocd::targets::load_probe_filters;
use freeocd::util::parse_u64_maybe_hex;

/// `find_subslice` locates a present needle and returns `None` when absent.
#[test]
fn finds_signature() {
    let mut data = vec![0u8; 100];
    data[40..50].copy_from_slice(b"SEGGER RTT");
    assert_eq!(find_subslice(&data, b"SEGGER RTT"), Some(40));
    assert_eq!(find_subslice(&data, b"NOPE"), None);
}

/// The ring buffer always reserves one slot, so a `size`-byte buffer holds
/// at most `size - 1` bytes and an empty buffer never reports `size` free.
#[test]
fn ring_free_space_reserves_one_slot() {
    // Empty buffer (write_off == read_off): all but one slot is free.
    assert_eq!(ring_free_space(16, 0, 0), 15);
    assert_eq!(ring_free_space(16, 8, 8), 15);
    // Write ahead of read (no wrap).
    assert_eq!(ring_free_space(16, 10, 4), 9);
    // Read ahead of write (wrapped).
    assert_eq!(ring_free_space(16, 4, 10), 5);
    // One slot before the read offset stays reserved (buffer full).
    assert_eq!(ring_free_space(16, 7, 8), 0);
    assert_eq!(ring_free_space(16, 15, 0), 0);
}

/// The probe filter list includes the SeeedStudio vendor id.
#[test]
fn probe_filters_load() {
    let asset = r#"{ "vendorIds": [ "0x0D28", { "vid": "0x2886", "$comment": "SeeedStudio" } ] }"#;
    let filters = load_probe_filters(Ok(asset.to_string()));
    assert!(filters.iter().any(|f| f.vid == 0x2886));
}

/// Decimal, lower/upper hex prefixes and surrounding whitespace all parse;
/// malformed input is rejected.
#[test]
fn parses_decimal_and_hex() {
    assert_eq!(parse_u64_maybe_hex("42"), Ok(42));
    assert_eq!(parse_u64_maybe_hex("0x2A"), Ok(42));
    assert_eq!(parse_u64_maybe_hex("0X2a"), Ok(42));
    assert_eq!(parse_u64_maybe_hex(" 0x10 "), Ok(16));
    assert!(parse_u64_maybe_hex("nope").is_err());
    assert!(parse_u64_maybe_hex("0xZZ").is_err());
}

#[test]
fn malformed_numbers_are_named() {
    let refused = |s: &str| parse_u64_maybe_hex(s).expect_err("no number");
    assert_eq!(refused("nope"), "invalid integer 'nope': invalid digit found in string");
    assert_eq!(refused(" 0xZZ "), "invalid hex '0xZZ': invalid digit found in string");
    assert_eq!(refused(""), "invalid integer '': cannot parse integer from empty string");
    assert_eq!(refused("0x"), "invalid hex '0x': cannot parse integer from empty string");
    assert_eq!(
        refused("18446744073709551616"),
        "invalid integer '18446744073709551616': number too large to fit in target type"
    );
    assert_eq!(refused("-1"), "invalid integer '-1': invalid digit found in string");
    assert_eq!(refused("+"), "invalid integer '+': invalid digit found in string");
}

#[test]
fn numbers_reach_to_64_bits() {
    assert_eq!(parse_u64_maybe_hex("18446744073709551615"), Ok(u64::MAX));
    assert_eq!(parse_u64_maybe_hex("0xFFFFFFFFFFFFFFFF"), Ok(u64::MAX));
    assert_eq!(parse_u64_maybe_hex("0XffffFFFFffffFFFF"), Ok(u64::MAX));
    assert_eq!(
        parse_u64_maybe_hex("0X10000000000000000"),
        Err("invalid hex '0X10000000000000000': number too large to fit in target type".to_string())
    );
    assert_eq!(parse_u64_maybe_hex("+7"), Ok(7));
    assert_eq!(parse_u64_maybe_hex("0x+7"), Ok(7));
    assert_eq!(parse_u64_maybe_hex("\u{3000}0007\t\n"), Ok(7));
}
