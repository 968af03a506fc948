//! What an Intel HEX file means: where each record puts its bytes, and what the
//! image holds in consequence.

use vstd::prelude::*;

use crate::hex::{
    Firmware, FirmwareView, HexError, HexRecord, HexRecordView, Segment, SegmentView, assembly,
    extended_address, first_overlap, highest, law_gaps_are_erased, law_last_record_wins, lowest,
    overlapped, places_bytes, segments_of, views,
};

verus! {

/// The base address that a record sets, where it sets one.
pub open spec fn base_set(record: HexRecordView) -> Option<nat> {
    match record {
        HexRecordView::ExtendedLinearAddress(high) => Some(high as nat * 0x1_0000),
        HexRecordView::ExtendedSegmentAddress(segment) => Some(segment as nat * 0x10),
        _ => None,
    }
}

/// Whether record `j` is the last in front of record `i` to set a base address.
pub open spec fn last_base(records: Seq<HexRecordView>, i: int, j: int) -> bool {
    &&& 0 <= j < i
    &&& base_set(records[j]) is Some
    &&& forall|m: int| j < m < i ==> base_set(#[trigger] records[m]) is None
}

/// Whether `base` is in force at record `i`: the last record in front of it to set
/// a base sets this one, or none does and it is 0.
pub open spec fn based(records: Seq<HexRecordView>, i: int, base: nat) -> bool {
    ||| exists|j: int| #[trigger] last_base(records, i, j) && base_set(records[j]) == Some(base)
    ||| base == 0 && forall|m: int| 0 <= m < i ==> base_set(#[trigger] records[m]) is None
}

/// Whether record `i`, with this base in force, puts `byte` at `addr`.
pub open spec fn puts_from(
    records: Seq<HexRecordView>,
    i: int,
    base: nat,
    addr: int,
    byte: u8,
) -> bool {
    &&& 0 <= i < records.len()
    &&& based(records, i, base)
    &&& records[i] matches HexRecordView::Data { offset, value } && {
        &&& base + offset <= addr < base + offset + value.len()
        &&& value[addr - base - offset] == byte
    }
}

/// Whether record `i` puts `byte` at `addr`.
pub open spec fn puts(records: Seq<HexRecordView>, i: int, addr: int, byte: u8) -> bool {
    exists|base: nat| #[trigger] puts_from(records, i, base, addr, byte)
}

/// Whether record `i` puts some byte at `addr`.
pub open spec fn reaches(records: Seq<HexRecordView>, i: int, addr: int) -> bool {
    exists|byte: u8| #[trigger] puts(records, i, addr, byte)
}

/// Whether the payload of every record is one that the format can hold.
pub open spec fn all_fit(records: Seq<HexRecordView>) -> bool {
    forall|i: int| 0 <= i < records.len() ==> (#[trigger] records[i]).fits()
}

/// The base in force at a record is the extended address behind those in front.
proof fn lemma_base(records: Seq<HexRecordView>, i: int)
    requires
        0 <= i <= records.len(),
    ensures
        forall|base: nat| #[trigger]
            based(records, i, base) <==> base == extended_address(records.take(i)),
    decreases i,
{
    let e = extended_address(records.take(i));
    if i == 0 {
        assert(records.take(0).len() == 0);
        assert(based(records, 0, 0nat));
        assert forall|base: nat| #[trigger] based(records, 0, base) implies base == 0 by {}
    } else {
        lemma_base(records, i - 1);
        assert(records.take(i).drop_last() =~= records.take(i - 1));
        assert(records.take(i).last() == records[i - 1]);
        let before = extended_address(records.take(i - 1));
        assert(based(records, i - 1, before));
        if base_set(records[i - 1]) is Some {
            assert(last_base(records, i, i - 1));
            assert(based(records, i, e));
            assert forall|base: nat| #[trigger] based(records, i, base) implies base == e by {
                if exists|j: int| #[trigger]
                    last_base(records, i, j) && base_set(records[j]) == Some(base) {
                    let j = choose|j: int| #[trigger]
                        last_base(records, i, j) && base_set(records[j]) == Some(base);
                    if j < i - 1 {
                        assert(base_set(records[i - 1]) is None);
                    }
                } else {
                    assert(base_set(records[i - 1]) is None);
                }
            }
        } else {
            assert(e == before);
            assert forall|base: nat| #[trigger] based(records, i, base) <==> based(
                records,
                i - 1,
                base,
            ) by {
                if exists|j: int| #[trigger]
                    last_base(records, i, j) && base_set(records[j]) == Some(base) {
                    let j = choose|j: int| #[trigger]
                        last_base(records, i, j) && base_set(records[j]) == Some(base);
                    assert(j != i - 1);
                    assert(last_base(records, i - 1, j));
                }
                if exists|j: int| #[trigger]
                    last_base(records, i - 1, j) && base_set(records[j]) == Some(base) {
                    let j = choose|j: int| #[trigger]
                        last_base(records, i - 1, j) && base_set(records[j]) == Some(base);
                    assert forall|m: int| j < m < i implies base_set(
                        #[trigger] records[m],
                    ) is None by {}
                    assert(last_base(records, i, j));
                }
            }
        }
    }
}

/// Whether segment `s` is the run of bytes of record `i`.
spec fn from_record(records: Seq<HexRecordView>, s: int, i: int) -> bool {
    &&& 0 <= i < records.len()
    &&& 0 <= s < segments_of(records).len()
    &&& records[i] matches HexRecordView::Data { offset, value } && value.len() > 0
        && segments_of(records)[s].bytes == value && segments_of(records)[s].address
        == extended_address(records.take(i)) + offset
}

/// The number of segments in front of record `i`.
spec fn rank(records: Seq<HexRecordView>, i: int) -> int {
    segments_of(records.take(i)).len() as int
}

/// Whether segment `s` is the run of bytes of some record.
spec fn has_record(records: Seq<HexRecordView>, s: int) -> bool {
    exists|i: int|
        #![trigger records[i]]
        from_record(records, s, i) && s == rank(records, i)
}

/// Each record with a payload has its segment, whose place is the number of those
/// in front, and each segment has its record.
proof fn lemma_segments(records: Seq<HexRecordView>)
    ensures
        forall|i: int|
            0 <= i < records.len() && places_bytes(#[trigger] records[i]) ==> from_record(
                records,
                rank(records, i),
                i,
            ),
        forall|s: int| 0 <= s < segments_of(records).len() ==> #[trigger] has_record(records, s),
    decreases records.len(),
{
    if records.len() > 0 {
        let fewer = records.drop_last();
        let n = records.len() - 1;
        lemma_segments(fewer);
        assert(records.take(n) =~= fewer);
        assert forall|i: int| 0 <= i < fewer.len() implies records.take(i) == #[trigger] fewer.take(
            i,
        ) by {
            assert(records.take(i) =~= fewer.take(i));
        }
        assert forall|i: int|
            0 <= i < records.len() && places_bytes(#[trigger] records[i]) implies from_record(
            records,
            rank(records, i),
            i,
        ) by {
            if i < n {
                assert(fewer[i] == records[i]);
                assert(fewer.take(i) == records.take(i));
                assert(from_record(fewer, rank(fewer, i), i));
            }
        }
        assert forall|s: int| 0 <= s < segments_of(records).len() implies #[trigger] has_record(
            records,
            s,
        ) by {
            if s < segments_of(fewer).len() {
                assert(has_record(fewer, s));
                let i = choose|i: int|
                    #![trigger fewer[i]]
                    from_record(fewer, s, i) && s == rank(fewer, i);
                assert(fewer[i] == records[i]);
                assert(fewer.take(i) == records.take(i));
                assert(from_record(records, s, i) && s == rank(records, i));
            } else {
                assert(from_record(records, s, n) && s == rank(records, n));
            }
        }
    }
}

/// The number of segments in front of a record grows along the file.
proof fn lemma_rank(records: Seq<HexRecordView>, i: int, m: int)
    requires
        0 <= i < m <= records.len(),
    ensures
        rank(records, i) <= rank(records, m),
        places_bytes(records[i]) ==> rank(records, i) < rank(records, m),
    decreases m,
{
    assert(records.take(m).drop_last() =~= records.take(m - 1));
    assert(records.take(m).last() == records[m - 1]);
    if i < m - 1 {
        lemma_rank(records, i, m - 1);
    }
}

/// What a record puts at an address is what its segment covers it with.
proof fn lemma_puts(records: Seq<HexRecordView>, i: int, addr: int)
    requires
        0 <= i < records.len(),
    ensures
        forall|byte: u8| #[trigger]
            puts(records, i, addr, byte) <==> {
                let s = rank(records, i);
                &&& places_bytes(records[i])
                &&& from_record(records, s, i)
                &&& segments_of(records)[s].covers(addr)
                &&& segments_of(records)[s].bytes[addr - segments_of(records)[s].address] == byte
            },
{
    lemma_base(records, i);
    lemma_segments(records);
    let e = extended_address(records.take(i));
    assert(based(records, i, e));
    assert forall|byte: u8| #[trigger] puts(records, i, addr, byte) <==> {
        let s = rank(records, i);
        &&& places_bytes(records[i])
        &&& from_record(records, s, i)
        &&& segments_of(records)[s].covers(addr)
        &&& segments_of(records)[s].bytes[addr - segments_of(records)[s].address] == byte
    } by {
        if puts(records, i, addr, byte) {
            let base = choose|base: nat| #[trigger] puts_from(records, i, base, addr, byte);
            assert(base == e);
            assert(places_bytes(records[i]));
        }
        let s = rank(records, i);
        if places_bytes(records[i]) && from_record(records, s, i) && segments_of(
            records,
        )[s].covers(addr) && segments_of(records)[s].bytes[addr - segments_of(records)[s].address]
            == byte {
            assert(puts_from(records, i, e, addr, byte));
        }
    }
}

/// A segment covers an address exactly if its record reaches it.
proof fn lemma_covers(records: Seq<HexRecordView>, s: int, addr: int) -> (i: int)
    requires
        0 <= s < segments_of(records).len(),
    ensures
        from_record(records, s, i),
        s == rank(records, i),
        segments_of(records)[s].covers(addr) <==> reaches(records, i, addr),
        segments_of(records)[s].covers(addr) ==> puts(
            records,
            i,
            addr,
            segments_of(records)[s].bytes[addr - segments_of(records)[s].address],
        ),
{
    lemma_segments(records);
    assert(has_record(records, s));
    let i = choose|i: int|
        #![trigger records[i]]
        from_record(records, s, i) && s == rank(records, i);
    lemma_puts(records, i, addr);
    let byte = segments_of(records)[s].bytes[addr - segments_of(records)[s].address];
    if segments_of(records)[s].covers(addr) {
        assert(puts(records, i, addr, byte));
    }
    i
}

/// The bytes of a data record stand in the image at the base in force at the
/// record, plus the record's offset, unless a later record puts others there. The
/// base is what the last extended address record in front of it says, whatever
/// came before that.
pub proof fn law_records_place_bytes(
    records: Seq<HexRecordView>,
    i: int,
    addr: int,
    byte: u8,
)
    requires
        assembly(records) is Ok,
        puts(records, i, addr, byte),
        forall|m: int| i < m < records.len() ==> !#[trigger] reaches(records, m, addr),
    ensures
        ({
            let firmware = assembly(records)->Ok_0;
            &&& firmware.start <= addr < firmware.start + firmware.data.len()
            &&& firmware.data[addr - firmware.start] == byte
        }),
{
    let base = choose|base: nat| #[trigger] puts_from(records, i, base, addr, byte);
    lemma_puts(records, i, addr);
    let s = rank(records, i);
    let segments = segments_of(records);
    assert forall|k: int| s < k < segments.len() implies !(#[trigger] segments[k]).covers(
        addr,
    ) by {
        let m = lemma_covers(records, k, addr);
        if m < i {
            lemma_rank(records, m, i);
        }
        assert(m != i);
        assert(!reaches(records, m, addr));
    }
    law_last_record_wins(records, s, addr);
}

/// An address of the image that no record reaches holds the erased value 0xFF.
pub proof fn law_unreached_bytes_are_erased(records: Seq<HexRecordView>, addr: int)
    requires
        assembly(records) matches Ok(firmware) && firmware.start <= addr < firmware.start
            + firmware.data.len(),
        forall|m: int| 0 <= m < records.len() ==> !#[trigger] reaches(records, m, addr),
    ensures
        assembly(records)->Ok_0.data[addr - assembly(records)->Ok_0.start] == 0xFF,
{
    let segments = segments_of(records);
    assert forall|k: int| 0 <= k < segments.len() implies !(#[trigger] segments[k]).covers(
        addr,
    ) by {
        let m = lemma_covers(records, k, addr);
        assert(!reaches(records, m, addr));
    }
    law_gaps_are_erased(records, addr);
}

/// Some segment starts at the lowest address, and some ends at the highest.
proof fn lemma_ends(segments: Seq<SegmentView>) -> (r: (int, int))
    requires
        segments.len() > 0,
    ensures
        0 <= r.0 < segments.len() && segments[r.0].address == lowest(segments),
        0 <= r.1 < segments.len() && segments[r.1].end() == highest(segments),
    decreases segments.len(),
{
    if segments.len() == 1 {
        (0, 0)
    } else {
        let (a, b) = lemma_ends(segments.drop_last());
        let n = segments.len() - 1;
        (
            if segments.last().address < lowest(segments.drop_last()) {
                n
            } else {
                a
            },
            if segments.last().end() > highest(segments.drop_last()) {
                n
            } else {
                b
            },
        )
    }
}

/// Whether records reach from `low` up to `high`, and not beyond: some record
/// reaches the first address and some the last, and none any other.
pub open spec fn spans(records: Seq<HexRecordView>, low: int, high: int) -> bool {
    &&& exists|i: int| 0 <= i < records.len() && #[trigger] reaches(records, i, low)
    &&& exists|i: int| 0 <= i < records.len() && #[trigger] reaches(records, i, high - 1)
    &&& forall|i: int, addr: int|
        0 <= i < records.len() && #[trigger] reaches(records, i, addr) ==> low <= addr < high
}

proof fn lemma_spans(records: Seq<HexRecordView>)
    requires
        segments_of(records).len() > 0,
    ensures
        spans(records, lowest(segments_of(records)) as int, highest(segments_of(records)) as int),
{
    let segments = segments_of(records);
    let low = lowest(segments) as int;
    let high = highest(segments) as int;
    let (a, b) = lemma_ends(segments);
    let i = lemma_covers(records, a, low);
    assert(segments[a].bytes.len() > 0);
    assert(reaches(records, i, low));
    let m = lemma_covers(records, b, high - 1);
    assert(segments[b].bytes.len() > 0);
    assert(reaches(records, m, high - 1));
    assert forall|i: int, addr: int|
        0 <= i < records.len() && #[trigger] reaches(records, i, addr) implies low <= addr
        < high by {
        lemma_puts(records, i, addr);
        let byte = choose|byte: u8| #[trigger] puts(records, i, addr, byte);
        let s = rank(records, i);
        assert(segments[s].covers(addr));
        lemma_low_high(segments, s);
    }
}

proof fn lemma_low_high(segments: Seq<SegmentView>, i: int)
    requires
        0 <= i < segments.len(),
    ensures
        lowest(segments) <= segments[i].address,
        segments[i].end() <= highest(segments),
    decreases segments.len(),
{
    if segments.len() > 1 && i < segments.len() - 1 {
        assert(segments.drop_last()[i] == segments[i]);
        lemma_low_high(segments.drop_last(), i);
    }
}

/// Addresses of records whose payloads fit are well below the end of memory.
proof fn lemma_addresses(records: Seq<HexRecordView>, s: int)
    requires
        all_fit(records),
        0 <= s < segments_of(records).len(),
    ensures
        segments_of(records)[s].end() <= 0x2_0000_0000,
{
    let i = lemma_covers(records, s, 0);
    lemma_extended(records.take(i));
    assert(records[i].fits());
}

proof fn lemma_extended(records: Seq<HexRecordView>)
    ensures
        extended_address(records) <= 0xFFFF_0000,
    decreases records.len(),
{
    if records.len() > 0 {
        lemma_extended(records.drop_last());
    }
}

/// What the records of a file make up, or why they make up nothing, is decided by
/// where they reach: an image from the first address to the last where that is
/// 256 MiB at most, an error with both addresses where it is more, and another
/// where no record reaches any.
pub proof fn law_image_spans_records(records: Seq<HexRecordView>)
    requires
        all_fit(records),
    ensures
        match assembly(records) {
            Ok(firmware) => {
                &&& spans(
                    records,
                    firmware.start as int,
                    (firmware.start + firmware.data.len()) as int,
                )
                &&& firmware.data.len() <= 268_435_456
            },
            Err(HexError::SpanTooLarge { min, max }) => {
                &&& spans(records, min as int, max as int)
                &&& max - min > 268_435_456
            },
            Err(HexError::NoData) => forall|i: int, addr: int|
                0 <= i < records.len() ==> !#[trigger] reaches(records, i, addr),
            Err(_) => false,
        },
{
    let segments = segments_of(records);
    if segments.len() == 0 {
        assert forall|i: int, addr: int| 0 <= i < records.len() implies !#[trigger] reaches(
            records,
            i,
            addr,
        ) by {
            lemma_puts(records, i, addr);
            if reaches(records, i, addr) {
                let byte = choose|byte: u8| #[trigger] puts(records, i, addr, byte);
                assert(from_record(records, rank(records, i), i));
            }
        }
    } else {
        lemma_spans(records);
        lemma_low_high(segments, 0);
        let (a, b) = lemma_ends(segments);
        lemma_addresses(records, a);
        lemma_addresses(records, b);
    }
}

/// The lowest address that two records reach is the one that is told, and where
/// nothing is told there is none.
pub proof fn law_overlap_is_told(records: Seq<HexRecordView>, overlap: Option<u64>)
    requires
        first_overlap(segments_of(records), overlap),
    ensures
        match overlap {
            Some(a) => {
                &&& exists|i: int, m: int|
                    0 <= i < m < records.len() && #[trigger] reaches(records, i, a as int)
                        && #[trigger] reaches(records, m, a as int)
                &&& forall|i: int, m: int, addr: int|
                    0 <= i < m < records.len() && #[trigger] reaches(records, i, addr)
                        && #[trigger] reaches(records, m, addr) ==> a <= addr
            },
            None => forall|i: int, m: int, addr: int|
                0 <= i < m < records.len() && #[trigger] reaches(records, i, addr)
                    ==> !#[trigger] reaches(records, m, addr),
        },
{
    let segments = segments_of(records);
    assert forall|i: int, m: int, addr: int|
        0 <= i < m < records.len() && #[trigger] reaches(records, i, addr) && #[trigger] reaches(
            records,
            m,
            addr,
        ) implies overlap matches Some(a) && a <= addr by {
        lemma_puts(records, i, addr);
        lemma_puts(records, m, addr);
        let b = choose|byte: u8| #[trigger] puts(records, i, addr, byte);
        let c = choose|byte: u8| #[trigger] puts(records, m, addr, byte);
        let s = rank(records, i);
        let t = rank(records, m);
        lemma_rank(records, i, m);
        if segments[s].address <= segments[t].address {
            assert(segments[s].covers(segments[t].address as int));
            assert(overlapped(segments, t));
        } else {
            assert(segments[t].covers(segments[s].address as int));
            assert(overlapped(segments, s));
        }
    }
    if let Some(a) = overlap {
        let s = choose|s: int|
            0 <= s < segments.len() && #[trigger] overlapped(segments, s) && segments[s].address
                == a;
        let t = choose|t: int|
            0 <= t < segments.len() && t != s && (#[trigger] segments[t]).covers(
                segments[s].address as int,
            );
        let i = lemma_covers(records, s, a as int);
        let m = lemma_covers(records, t, a as int);
        assert(segments[s].bytes.len() > 0);
        assert(reaches(records, i, a as int) && reaches(records, m, a as int));
        if i < m {
        } else {
            assert(m < i);
        }
    }
}

/// What is said of an image and of records is what they hold.
pub proof fn law_views_leave_nothing_out(
    firmware: Firmware,
    records: Seq<HexRecord>,
    i: int,
    segment: Segment,
)
    requires
        0 <= i < records.len(),
    ensures
        firmware@.start == firmware.start_address,
        firmware@.data == firmware.data@,
        segment@.address == segment.address,
        segment@.bytes == segment.bytes@,
        views(records).len() == records.len(),
        match records[i] {
            HexRecord::Data { offset, value } => views(records)[i] == (HexRecordView::Data {
                offset,
                value: value@,
            }),
            HexRecord::EndOfFile => views(records)[i] == HexRecordView::EndOfFile,
            HexRecord::ExtendedSegmentAddress(a) => views(records)[i]
                == HexRecordView::ExtendedSegmentAddress(a),
            HexRecord::StartSegmentAddress { cs, ip } => views(records)[i] == (
            HexRecordView::StartSegmentAddress { cs, ip }),
            HexRecord::ExtendedLinearAddress(a) => views(records)[i]
                == HexRecordView::ExtendedLinearAddress(a),
            HexRecord::StartLinearAddress(a) => views(records)[i]
                == HexRecordView::StartLinearAddress(a),
        },
{
}

/// An image that programming accepts is one whose blocks of 4 KiB all start at an
/// address; every image below the end of memory is.
pub proof fn law_images_in_memory_are_addressable(firmware: FirmwareView)
    ensures
        firmware.start + firmware.data.len() <= u64::MAX + 1 ==> firmware.addressable(),
        firmware.addressable() ==> forall|k: int|
            0 <= k && 4096 * k < firmware.data.len() ==> firmware.start + 4096 * (#[trigger] (k
                + 0)) <= u64::MAX,
{
    if firmware.addressable() {
        assert forall|k: int| 0 <= k && 4096 * k < firmware.data.len() implies firmware.start
            + 4096 * (#[trigger] (k + 0)) <= u64::MAX by {
            assert(k <= (firmware.data.len() - 1) / 4096);
        }
    }
}

} // verus!
