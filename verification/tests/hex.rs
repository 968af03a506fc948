//! Intel HEX images.

use freeocd::error::Error;
use freeocd::hex::{
    assemble, load_intel_hex, parse_intel_hex, warn_on_overlaps, Firmware, HexError, HexRecord,
    Segment,
};

// Classic Intel HEX sample: two 16-byte data records at 0x0100 then EOF.
const SAMPLE: &str = ":10010000214601360121470136007EFE09D2190140\n\
     :100110002146017E17C20001FF5F16002148011928\n\
     :00000001FF\n";

/// Two adjacent data records parse into one 32-byte image at 0x0100.
#[test]
fn parses_contiguous_image() {
    let fw = parse_intel_hex(SAMPLE).expect("valid hex");
    assert_eq!(fw.start_address, 0x0100);
    assert_eq!(fw.data.len(), 32);
    assert_eq!(fw.data[0], 0x21);
    assert_eq!(fw.data[16], 0x21);
}

/// A one-byte hole between records is filled with the erased value `0xFF`.
#[test]
fn fills_gaps_with_ff() {
    // Two data records with a one-byte gap between them at 0x00..0x02.
    let hex = ":0100000000FF\n:01000200 AA53\n:00000001FF\n".replace(' ', "");
    let fw = parse_intel_hex(&hex).expect("valid hex");
    assert_eq!(fw.start_address, 0x0000);
    assert_eq!(fw.data, vec![0x00, 0xFF, 0xAA]);
}

/// A HEX file with no data records is rejected.
#[test]
fn rejects_empty() {
    assert!(parse_intel_hex(":00000001FF\n").is_err());
}

/// A sparse file whose span exceeds the image size limit is rejected
/// instead of triggering a huge allocation.
#[test]
fn rejects_oversized_span() {
    // One byte at 0x0000_0000 and one byte at 0xF000_0000 (via an
    // Extended Linear Address record with upper bits 0xF000).
    let hex = ":0100000000FF\n:02000004F0000A\n:01000000AA55\n:00000001FF\n";
    let err = parse_intel_hex(hex).expect_err("span too large");
    assert!(err.message().contains("exceeding"));
}

/// Overlapping records parse (later record wins) rather than failing.
#[test]
fn overlapping_records_later_wins() {
    let hex = ":02000000AAAAAA\n:0100010055A9\n:00000001FF\n";
    let fw = parse_intel_hex(hex).expect("valid hex");
    assert_eq!(fw.data, vec![0xAA, 0x55]);
}

#[test]
fn oversized_span_is_named_in_full() {
    let hex = ":0100000000FF\n:02000004F0000A\n:01000000AA55\n:00000001FF\n";
    let err = parse_intel_hex(hex).expect_err("span too large");
    assert_eq!(
        err.message(),
        "HEX file spans 0x00000000..0xF0000001 (4026531841 bytes), exceeding the 268435456 byte \
         limit; the file is likely sparse or corrupt"
    );
    assert!(matches!(err, HexError::SpanTooLarge { min: 0, max: 0xF000_0001 }));
}

#[test]
fn want_of_data_is_named() {
    let err = parse_intel_hex(":00000001FF\n").expect_err("no data");
    assert!(matches!(err, HexError::NoData));
    assert_eq!(err.message(), "No data found in HEX file");
    assert!(matches!(parse_intel_hex(""), Err(HexError::NoData)));
    // A data record without a payload places nothing.
    assert!(matches!(parse_intel_hex(":0000000000\n:00000001FF\n"), Err(HexError::NoData)));
}

#[test]
fn malformed_record_is_reported_with_its_reason() {
    let err = parse_intel_hex(":0100000000FE\n").expect_err("bad checksum");
    assert_eq!(err.message(), "Failed to parse Intel HEX record");
    let full = Error::Hex(err).full_message();
    assert_eq!(full, "Failed to parse Intel HEX record: invalid checksum 'FF', expecting 'FE'");
    let err = parse_intel_hex("hello\n").expect_err("no start code");
    let HexError::Record { reason } = err else {
        panic!("a malformed record");
    };
    assert_eq!(reason, "missing start code ':'");
}

#[test]
fn records_behind_the_end_do_not_count() {
    let fw = parse_intel_hex(":0100000000FF\n:00000001FF\n:01000100AA54\n").expect("valid hex");
    assert_eq!(fw.data, vec![0x00]);
}

#[test]
fn extended_addresses_are_added() {
    let records = vec![
        HexRecord::ExtendedSegmentAddress(0x1000),
        HexRecord::Data { offset: 0x0010, value: vec![1] },
        HexRecord::StartSegmentAddress { cs: 7, ip: 7 },
        HexRecord::ExtendedLinearAddress(0x0001),
        HexRecord::Data { offset: 0x0012, value: vec![2, 3] },
        HexRecord::StartLinearAddress(0xFFFF_FFFF),
        HexRecord::EndOfFile,
    ];
    let loaded = assemble(records).expect("an image");
    assert_eq!(loaded.firmware.start_address, 0x1_0010);
    assert_eq!(loaded.firmware.data, vec![1, 0xFF, 2, 3]);
    assert_eq!(loaded.overlap, None);
}

#[test]
fn order_of_records_does_not_matter_without_overlap() {
    let up = vec![
        HexRecord::Data { offset: 4, value: vec![4] },
        HexRecord::Data { offset: 2, value: vec![2] },
    ];
    let loaded = assemble(up).expect("an image");
    assert_eq!(loaded.firmware.start_address, 2);
    assert_eq!(loaded.firmware.data, vec![2, 0xFF, 4]);
}

#[test]
fn lowest_overlap_is_found() {
    let hex = ":02000000AAAAAA\n:0100010055A9\n:00000001FF\n";
    assert_eq!(load_intel_hex(hex).expect("valid hex").overlap, Some(1));
    assert_eq!(load_intel_hex(SAMPLE).expect("valid hex").overlap, None);

    let segment = |address: u64, len: usize| Segment { address, bytes: vec![0; len] };
    assert_eq!(warn_on_overlaps(&vec![]), None);
    assert_eq!(warn_on_overlaps(&vec![segment(8, 4), segment(0, 8)]), None);
    assert_eq!(
        warn_on_overlaps(&vec![segment(100, 2), segment(101, 2), segment(0, 20), segment(4, 1)]),
        Some(4)
    );
    // The same place twice.
    assert_eq!(warn_on_overlaps(&vec![segment(5, 1), segment(5, 1)]), Some(5));
}

#[test]
fn blocks_of_an_image_fit_in_memory_or_not() {
    let at = |start_address: u64, len: usize| Firmware { data: vec![0; len], start_address };
    assert!(at(u64::MAX, 4096).blocks_fit());
    assert!(!at(u64::MAX, 4097).blocks_fit());
    assert!(at(u64::MAX - 4096, 4097).blocks_fit());
    assert!(at(u64::MAX, 0).blocks_fit());
    assert!(parse_intel_hex(SAMPLE).expect("valid hex").blocks_fit());
    let copy = at(7, 3).clone();
    assert_eq!((copy.start_address, copy.data.len()), (7, 3));
}
