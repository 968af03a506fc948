//! Intel HEX firmware images.
//!
//! The records of an Intel HEX file become one contiguous image and its start
//! address. Gaps between records are filled with `0xFF`, the value of erased
//! flash. The span of an image is bounded, so that a sparse or corrupt file
//! fails instead of filling memory.

use vstd::prelude::*;
use vstd::string::*;

verus! {

/// The largest span of an image, in bytes: far above any Cortex-M flash.
pub const MAX_IMAGE_SIZE: u64 = 268_435_456;

/// The value of an erased flash byte.
pub const ERASED: u8 = 0xFF;

/// A firmware image: contiguous bytes and where they start.
#[derive(Debug)]
pub struct Firmware {
    /// The bytes, with gaps filled by `0xFF`.
    pub data: Vec<u8>,
    /// The absolute address of `data[0]`.
    pub start_address: u64,
}

/// The bytes of an image and the address of the first.
#[verifier::ext_equal]
pub struct FirmwareView {
    pub start: nat,
    pub data: Seq<u8>,
}

impl FirmwareView {
    /// Whether each block of 4096 bytes of the image starts at an address.
    pub open spec fn addressable(self) -> bool {
        self.data.len() > 0 ==> self.start + (self.data.len() - 1) / 4096 * 4096 <= u64::MAX
    }
}

impl View for Firmware {
    type V = FirmwareView;

    open spec fn view(&self) -> FirmwareView {
        FirmwareView { start: self.start_address as nat, data: self.data@ }
    }
}

impl Firmware {
    /// Tells whether each block of 4096 bytes of the image starts at an address.
    pub fn blocks_fit(&self) -> (r: bool)
        ensures
            r == self@.addressable(),
    {
        let len: usize = self.data.len();
        if len == 0 {
            return true;
        }
        let last: usize = (len - 1) / 4096 * 4096;
        self.start_address.checked_add(last as u64).is_some()
    }
}

impl Clone for Firmware {
    fn clone(&self) -> (r: Firmware)
        ensures
            r@ == self@,
    {
        let data = self.data.clone();
        assert(data@ =~= self.data@);
        Firmware { data, start_address: self.start_address }
    }
}

/// A firmware image, and the lowest address at which its records overlap.
#[derive(Debug)]
pub struct LoadedFirmware {
    pub firmware: Firmware,
    pub overlap: Option<u64>,
}

/// One record of an Intel HEX file.
pub enum HexRecord {
    /// Bytes at an offset from the extended address in force.
    Data { offset: u16, value: Vec<u8> },
    /// The end of the file.
    EndOfFile,
    /// Sets the extended address, in units of 16 bytes.
    ExtendedSegmentAddress(u16),
    /// An entry point, which holds no flash data.
    StartSegmentAddress { cs: u16, ip: u16 },
    /// Sets the extended address, in units of 64 KiB.
    ExtendedLinearAddress(u16),
    /// An entry point, which holds no flash data.
    StartLinearAddress(u32),
}

/// What a [`HexRecord`] says.
pub enum HexRecordView {
    Data { offset: u16, value: Seq<u8> },
    EndOfFile,
    ExtendedSegmentAddress(u16),
    StartSegmentAddress { cs: u16, ip: u16 },
    ExtendedLinearAddress(u16),
    StartLinearAddress(u32),
}

impl View for HexRecord {
    type V = HexRecordView;

    open spec fn view(&self) -> HexRecordView {
        match *self {
            HexRecord::Data { offset, value } => HexRecordView::Data { offset, value: value@ },
            HexRecord::EndOfFile => HexRecordView::EndOfFile,
            HexRecord::ExtendedSegmentAddress(a) => HexRecordView::ExtendedSegmentAddress(a),
            HexRecord::StartSegmentAddress { cs, ip } => HexRecordView::StartSegmentAddress {
                cs,
                ip,
            },
            HexRecord::ExtendedLinearAddress(a) => HexRecordView::ExtendedLinearAddress(a),
            HexRecord::StartLinearAddress(a) => HexRecordView::StartLinearAddress(a),
        }
    }
}

impl HexRecordView {
    /// Whether the record's payload is one that the format can hold.
    pub open spec fn fits(self) -> bool {
        self matches HexRecordView::Data { value, .. } ==> value.len() <= 255
    }
}

/// What the records of a list say.
pub open spec fn views(records: Seq<HexRecord>) -> Seq<HexRecordView> {
    Seq::new(records.len(), |i: int| records[i]@)
}

/// Why an Intel HEX file holds no image.
#[derive(Debug)]
pub enum HexError {
    /// A record is malformed; `reason` says how.
    Record { reason: String },
    /// There is no data record with a payload.
    NoData,
    /// The image would span `min..max`, which is more than [`MAX_IMAGE_SIZE`].
    SpanTooLarge { min: u64, max: u64 },
}

/// A contiguous run of bytes from one data record.
pub struct Segment {
    /// The absolute address of the first byte.
    pub address: u64,
    /// The bytes, at least one.
    pub bytes: Vec<u8>,
}

/// The absolute address and the bytes of a segment.
pub struct SegmentView {
    pub address: nat,
    pub bytes: Seq<u8>,
}

impl View for Segment {
    type V = SegmentView;

    open spec fn view(&self) -> SegmentView {
        SegmentView { address: self.address as nat, bytes: self.bytes@ }
    }
}

impl SegmentView {
    /// The address after the last byte.
    pub open spec fn end(self) -> nat {
        self.address + self.bytes.len()
    }

    /// Whether the segment holds the byte at `addr`.
    pub open spec fn covers(self, addr: int) -> bool {
        self.address <= addr < self.end()
    }
}

/// What the segments of a list say.
pub open spec fn segment_views(segments: Seq<Segment>) -> Seq<SegmentView> {
    Seq::new(segments.len(), |i: int| segments[i]@)
}

/// The extended address in force after `records`.
pub open spec fn extended_address(records: Seq<HexRecordView>) -> nat
    decreases records.len(),
{
    if records.len() == 0 {
        0
    } else {
        match records.last() {
            HexRecordView::ExtendedSegmentAddress(segment) => segment as nat * 16,
            HexRecordView::ExtendedLinearAddress(high) => high as nat * 0x1_0000,
            _ => extended_address(records.drop_last()),
        }
    }
}

/// The runs of bytes that `records` place, in file order.
pub open spec fn segments_of(records: Seq<HexRecordView>) -> Seq<SegmentView>
    decreases records.len(),
{
    if records.len() == 0 {
        Seq::empty()
    } else {
        let before = segments_of(records.drop_last());
        match records.last() {
            HexRecordView::Data { offset, value } => if value.len() > 0 {
                before.push(
                    SegmentView {
                        address: extended_address(records.drop_last()) + offset as nat,
                        bytes: value,
                    },
                )
            } else {
                before
            },
            _ => before,
        }
    }
}

/// The lowest address of any segment.
pub open spec fn lowest(segments: Seq<SegmentView>) -> nat
    recommends
        segments.len() > 0,
    decreases segments.len(),
{
    if segments.len() <= 1 {
        segments[0].address
    } else if segments.last().address < lowest(segments.drop_last()) {
        segments.last().address
    } else {
        lowest(segments.drop_last())
    }
}

/// The highest end of any segment.
pub open spec fn highest(segments: Seq<SegmentView>) -> nat
    recommends
        segments.len() > 0,
    decreases segments.len(),
{
    if segments.len() <= 1 {
        segments[0].end()
    } else if segments.last().end() > highest(segments.drop_last()) {
        segments.last().end()
    } else {
        highest(segments.drop_last())
    }
}

/// The byte at `addr`: that of the last segment to cover it, or the erased
/// value where none does.
pub open spec fn byte_at(segments: Seq<SegmentView>, addr: int) -> u8
    decreases segments.len(),
{
    if segments.len() == 0 {
        ERASED
    } else if segments.last().covers(addr) {
        segments.last().bytes[addr - segments.last().address]
    } else {
        byte_at(segments.drop_last(), addr)
    }
}

/// The bytes from the lowest to the highest address of any segment.
pub open spec fn image(segments: Seq<SegmentView>) -> Seq<u8> {
    let low = lowest(segments);
    Seq::new((highest(segments) - low) as nat, |i: int| byte_at(segments, low + i))
}

/// The image that the records make up, or why they make up none.
pub open spec fn assembly(records: Seq<HexRecordView>) -> Result<FirmwareView, HexError> {
    let segments = segments_of(records);
    if segments.len() == 0 {
        Err(HexError::NoData)
    } else if highest(segments) - lowest(segments) > MAX_IMAGE_SIZE {
        Err(
            HexError::SpanTooLarge { min: lowest(segments) as u64, max: highest(segments) as u64 },
        )
    } else {
        Ok(FirmwareView { start: lowest(segments), data: image(segments) })
    }
}

/// Every segment lies between the lowest and the highest address.
proof fn lemma_bounds(segments: Seq<SegmentView>, i: int)
    requires
        0 <= i < segments.len(),
    ensures
        lowest(segments) <= segments[i].address,
        segments[i].end() <= highest(segments),
    decreases segments.len(),
{
    if segments.len() > 1 && i < segments.len() - 1 {
        assert(segments.drop_last()[i] == segments[i]);
        lemma_bounds(segments.drop_last(), i);
    }
}

/// Whether a segment is one that a data record can place.
spec fn within_reach(segment: Segment) -> bool {
    segment.address <= 0x1_0000_FFFF && 0 < segment.bytes@.len() <= 255
}

/// Collects the runs of bytes that the records place.
fn collect_segments(records: Vec<HexRecord>) -> (r: Vec<Segment>)
    requires
        forall|i: int| 0 <= i < records@.len() ==> (#[trigger] records@[i])@.fits(),
    ensures
        segment_views(r@) == segments_of(views(records@)),
        forall|i: int| 0 <= i < r@.len() ==> within_reach(#[trigger] r@[i]),
{
    let ghost all = views(records@);
    let mut segments: Vec<Segment> = Vec::new();
    let mut extended: u64 = 0;
    assert(all.take(0) =~= Seq::<HexRecordView>::empty());
    assert(segment_views(segments@) =~= segments_of(all.take(0)));
    for record in it: records
        invariant
            it.seq() == records@,
            all == views(records@),
            forall|i: int| 0 <= i < records@.len() ==> (#[trigger] records@[i])@.fits(),
            extended == extended_address(all.take(it.index() as int)),
            extended <= 0xFFFF_0000,
            segment_views(segments@) == segments_of(all.take(it.index() as int)),
            forall|i: int| 0 <= i < segments@.len() ==> within_reach(#[trigger] segments@[i]),
    {
        let ghost k = it.index() as int;
        let ghost upto = all.take(k + 1);
        assert(upto.drop_last() =~= all.take(k));
        assert(upto.last() == record@);
        assert(records@[k]@.fits());
        match record {
            HexRecord::Data { offset, value } => {
                if value.len() > 0 {
                    segments.push(Segment { address: extended + offset as u64, bytes: value });
                    assert(segment_views(segments@) =~= segments_of(upto));
                }
            },
            HexRecord::ExtendedSegmentAddress(segment) => {
                extended = segment as u64 * 16;
            },
            HexRecord::ExtendedLinearAddress(high) => {
                extended = high as u64 * 0x1_0000;
            },
            HexRecord::EndOfFile => {},
            HexRecord::StartSegmentAddress { cs: _, ip: _ } => {},
            HexRecord::StartLinearAddress(_) => {},
        }
    }
    assert(all.take(all.len() as int) =~= all);
    segments
}

/// `data` with `bytes` laid over it from index `at` on.
pub open spec fn laid_over(data: Seq<u8>, at: int, bytes: Seq<u8>) -> Seq<u8> {
    Seq::new(
        data.len(),
        |i: int|
            if at <= i < at + bytes.len() {
                bytes[i - at]
            } else {
                data[i]
            },
    )
}

/// Lays `bytes` over `data` from index `at` on.
fn lay_over(data: &mut Vec<u8>, at: usize, bytes: &Vec<u8>)
    requires
        at + bytes@.len() <= old(data)@.len(),
    ensures
        final(data)@ == laid_over(old(data)@, at as int, bytes@),
{
    let ghost before = data@;
    let size = data.len();
    let mut j: usize = 0;
    assert(data@ =~= laid_over(before, at as int, bytes@.take(0)));
    while j < bytes.len()
        invariant
            j <= bytes@.len(),
            at + bytes@.len() <= before.len() == size,
            data@ == laid_over(before, at as int, bytes@.take(j as int)),
        decreases bytes@.len() - j,
    {
        data[at + j] = bytes[j];
        assert(data@ =~= laid_over(before, at as int, bytes@.take(j as int + 1)));
        j = j + 1;
    }
    assert(bytes@.take(bytes@.len() as int) =~= bytes@);
}

/// Whether some other segment covers the first byte of segment `i`.
pub open spec fn overlapped(segments: Seq<SegmentView>, i: int) -> bool {
    exists|k: int|
        0 <= k < segments.len() && k != i && (#[trigger] segments[k]).covers(
            segments[i].address as int,
        )
}

/// Whether `r` is the lowest address at which segments overlap.
pub open spec fn first_overlap(segments: Seq<SegmentView>, r: Option<u64>) -> bool {
    match r {
        None => forall|i: int| 0 <= i < segments.len() ==> !#[trigger] overlapped(segments, i),
        Some(a) => {
            &&& exists|i: int|
                0 <= i < segments.len() && #[trigger] overlapped(segments, i)
                    && segments[i].address == a
            &&& forall|i: int|
                0 <= i < segments.len() && #[trigger] overlapped(segments, i) ==> a
                    <= segments[i].address
        },
    }
}

/// A segment's start, its end and its place in the file.
pub type Range = (u64, u64, usize);

/// Whether `a` comes before `b`, or is `b`, in the order of tuples.
pub open spec fn range_le(a: Range, b: Range) -> bool {
    a.0 < b.0 || (a.0 == b.0 && (a.1 < b.1 || (a.1 == b.1 && a.2 <= b.2)))
}

/// Sorts with the standard library's `slice::sort_unstable`, which puts the
/// items into ascending order, that of tuples being lexicographic, and neither
/// adds nor drops any.
#[verifier::external_body]
fn sort_ranges(ranges: &mut Vec<Range>)
    ensures
        final(ranges)@.to_multiset() == old(ranges)@.to_multiset(),
        forall|i: int, j: int|
            0 <= i <= j < final(ranges)@.len() ==> range_le(
                #[trigger] final(ranges)@[i],
                #[trigger] final(ranges)@[j],
            ),
{
    ranges.sort_unstable();
}

/// The range of segment `i`.
spec fn range_of(segments: Seq<Segment>, i: int) -> Range {
    (segments[i].address, (segments[i].address + segments[i].bytes@.len()) as u64, i as usize)
}

/// Whether the range of segment `i` is among `sorted`.
spec fn placed(segments: Seq<Segment>, sorted: Seq<Range>, i: int) -> bool {
    exists|p: int| 0 <= p < sorted.len() && #[trigger] sorted[p] == range_of(segments, i)
}

/// Whether one of the first `p` ranges ends at `end`.
spec fn reached(sorted: Seq<Range>, p: int, end: u64) -> bool {
    exists|a: int| 0 <= a < p && (#[trigger] sorted[a]).1 == end
}

/// A list with the items of the ranges in another order holds each once.
proof fn lemma_sorted_ranges(segments: Seq<Segment>, sorted: Seq<Range>)
    requires
        segments.len() <= usize::MAX,
        sorted.to_multiset() == Seq::new(
            segments.len(),
            |i: int| range_of(segments, i),
        ).to_multiset(),
    ensures
        sorted.len() == segments.len(),
        forall|p: int| 0 <= p < sorted.len() ==> {
            &&& (#[trigger] sorted[p]).2 < segments.len()
            &&& sorted[p] == range_of(segments, sorted[p].2 as int)
        },
        forall|p: int, q: int|
            0 <= p < q < sorted.len() ==> (#[trigger] sorted[p]).2 != (#[trigger] sorted[q]).2,
        forall|i: int| 0 <= i < segments.len() ==> #[trigger] placed(segments, sorted, i),
{
    broadcast use vstd::seq_lib::group_to_multiset_ensures;

    let given = Seq::new(segments.len(), |i: int| range_of(segments, i));
    assert(given.no_duplicates()) by {
        assert forall|i: int, j: int|
            0 <= i < given.len() && 0 <= j < given.len() && i != j implies given[i]
            != given[j] by {
            assert(given[i].2 == i as usize && given[j].2 == j as usize);
        }
    }
    given.to_multiset_ensures();
    sorted.to_multiset_ensures();
    given.lemma_multiset_has_no_duplicates();
    assert(sorted.no_duplicates()) by {
        sorted.lemma_multiset_has_no_duplicates_conv();
    }
    assert forall|p: int| 0 <= p < sorted.len() implies {
        &&& (#[trigger] sorted[p]).2 < segments.len()
        &&& sorted[p] == range_of(segments, sorted[p].2 as int)
    } by {
        assert(sorted.contains(sorted[p]));
        assert(given.to_multiset().contains(sorted[p]));
        assert(given.contains(sorted[p]));
    }
    assert forall|i: int| 0 <= i < segments.len() implies #[trigger] placed(
        segments,
        sorted,
        i,
    ) by {
        assert(given[i] == range_of(segments, i));
        assert(given.contains(given[i]));
        assert(sorted.to_multiset().contains(given[i]));
        assert(sorted.contains(given[i]));
        let p = choose|p: int| 0 <= p < sorted.len() && sorted[p] == given[i];
        assert(sorted[p] == range_of(segments, i));
    }
}

/// Finds the lowest address at which data records overlap; of two records that
/// do, the later one takes precedence.
pub fn warn_on_overlaps(segments: &Vec<Segment>) -> (r: Option<u64>)
    requires
        forall|i: int|
            0 <= i < segments@.len() ==> (#[trigger] segments@[i]).address
                + segments@[i].bytes@.len() <= u64::MAX && segments@[i].bytes@.len() > 0,
    ensures
        first_overlap(segment_views(segments@), r),
{
    let ghost given = segment_views(segments@);
    let mut ranges: Vec<Range> = Vec::new();
    let mut i: usize = 0;
    while i < segments.len()
        invariant
            i <= segments@.len(),
            ranges@ == Seq::new(i as nat, |k: int| range_of(segments@, k)),
            forall|k: int|
                0 <= k < segments@.len() ==> (#[trigger] segments@[k]).address
                    + segments@[k].bytes@.len() <= u64::MAX && segments@[k].bytes@.len() > 0,
        decreases segments@.len() - i,
    {
        ranges.push(
            (segments[i].address, segments[i].address + segments[i].bytes.len() as u64, i),
        );
        i = i + 1;
        assert(ranges@ =~= Seq::new(i as nat, |k: int| range_of(segments@, k)));
    }
    sort_ranges(&mut ranges);
    let ghost sorted = ranges@;
    proof {
        lemma_sorted_ranges(segments@, sorted);
    }
    let mut prev_end: u64 = 0;
    let mut p: usize = 0;
    while p < ranges.len()
        invariant
            p <= ranges@.len(),
            ranges@ == sorted,
            given == segment_views(segments@),
            sorted.len() == segments@.len(),
            forall|k: int|
                0 <= k < segments@.len() ==> (#[trigger] segments@[k]).address
                    + segments@[k].bytes@.len() <= u64::MAX && segments@[k].bytes@.len() > 0,
            forall|a: int, b: int|
                0 <= a <= b < sorted.len() ==> range_le(
                    #[trigger] sorted[a],
                    #[trigger] sorted[b],
                ),
            forall|a: int| 0 <= a < sorted.len() ==> {
                &&& (#[trigger] sorted[a]).2 < segments@.len()
                &&& sorted[a] == range_of(segments@, sorted[a].2 as int)
            },
            forall|a: int, b: int|
                0 <= a < b < sorted.len() ==> (#[trigger] sorted[a]).2 != (#[trigger] sorted[b]).2,
            forall|k: int| 0 <= k < segments@.len() ==> #[trigger] placed(segments@, sorted, k),
            forall|a: int| 0 <= a < p ==> (#[trigger] sorted[a]).1 <= prev_end,
            p > 0 ==> reached(sorted, p as int, prev_end),
            p == 0 ==> prev_end == 0,
            forall|a: int, b: int|
                0 <= a < b < p ==> (#[trigger] sorted[a]).1 <= (#[trigger] sorted[b]).0,
        decreases ranges@.len() - p,
    {
        let start = ranges[p].0;
        let end = ranges[p].1;
        if p > 0 && start < prev_end {
            proof {
                let q = choose|a: int| 0 <= a < p && (#[trigger] sorted[a]).1 == prev_end;
                let ip = sorted[p as int].2 as int;
                let iq = sorted[q].2 as int;
                assert(range_le(sorted[q], sorted[p as int]));
                assert(given[iq].covers(given[ip].address as int));
                assert(overlapped(given, ip));
                assert forall|k: int|
                    0 <= k < given.len() && #[trigger] overlapped(given, k) implies start
                    <= given[k].address by {
                    lemma_overlap_late(segments@, sorted, p as int, k);
                    let late = choose|a: int|
                        p <= a < sorted.len() && (#[trigger] sorted[a]).0 == given[k].address;
                    assert(range_le(sorted[p as int], sorted[late]));
                }
            }
            return Some(start);
        }
        let ghost last_end = prev_end;
        if end > prev_end {
            prev_end = end;
            assert(sorted[p as int].1 == prev_end);
        } else if p == 0 {
            assert(segments@[sorted[0].2 as int].bytes@.len() > 0);
        } else {
            let ghost a = choose|a: int| 0 <= a < p && (#[trigger] sorted[a]).1 == last_end;
            assert(sorted[a].1 == prev_end);
        }
        p = p + 1;
    }
    assert forall|k: int| 0 <= k < given.len() implies !#[trigger] overlapped(given, k) by {
        if overlapped(given, k) {
            lemma_overlap_late(segments@, sorted, p as int, k);
        }
    }
    None
}

/// Where the first `p` sorted ranges do not overlap, the address of an
/// overlapped segment turns up at `p` or later.
proof fn lemma_overlap_late(segments: Seq<Segment>, sorted: Seq<Range>, p: int, k: int)
    requires
        0 <= p <= sorted.len(),
        sorted.len() == segments.len(),
        segments.len() <= usize::MAX,
        0 <= k < segments.len(),
        overlapped(segment_views(segments), k),
        forall|i: int|
            0 <= i < segments.len() ==> (#[trigger] segments[i]).address + segments[i].bytes@.len()
                <= u64::MAX && segments[i].bytes@.len() > 0,
        forall|a: int, b: int|
            0 <= a <= b < sorted.len() ==> range_le(#[trigger] sorted[a], #[trigger] sorted[b]),
        forall|a: int| 0 <= a < sorted.len() ==> {
            &&& (#[trigger] sorted[a]).2 < segments.len()
            &&& sorted[a] == range_of(segments, sorted[a].2 as int)
        },
        forall|i: int| 0 <= i < segments.len() ==> #[trigger] placed(segments, sorted, i),
        forall|a: int, b: int|
            0 <= a < b < p ==> (#[trigger] sorted[a]).1 <= (#[trigger] sorted[b]).0,
    ensures
        exists|a: int| p <= a < sorted.len() && (#[trigger] sorted[a]).0 == segments[k].address,
{
    let given = segment_views(segments);
    let other = choose|o: int|
        0 <= o < given.len() && o != k && (#[trigger] given[o]).covers(given[k].address as int);
    assert(range_of(segments, k).2 == k);
    assert(range_of(segments, other).2 == other);
    assert(placed(segments, sorted, k) && placed(segments, sorted, other));
    let pk = choose|a: int| 0 <= a < sorted.len() && sorted[a] == range_of(segments, k);
    let po = choose|a: int| 0 <= a < sorted.len() && sorted[a] == range_of(segments, other);
    assert(pk != po);
    if po < pk {
        assert(pk >= p);
        assert(sorted[pk].0 == segments[k].address);
    } else {
        assert(range_le(sorted[pk], sorted[po]));
        assert(sorted[po].0 == segments[k].address);
        assert(po >= p);
    }
}

/// The lowest address of the segments.
fn min_address(segments: &Vec<Segment>) -> (r: u64)
    requires
        segments@.len() > 0,
    ensures
        r == lowest(segment_views(segments@)),
{
    let ghost given = segment_views(segments@);
    let mut low: u64 = segments[0].address;
    let mut i: usize = 1;
    while i < segments.len()
        invariant
            1 <= i <= segments@.len(),
            given == segment_views(segments@),
            low == lowest(given.take(i as int)),
        decreases segments@.len() - i,
    {
        assert(given.take(i as int + 1).drop_last() =~= given.take(i as int));
        if segments[i].address < low {
            low = segments[i].address;
        }
        i = i + 1;
    }
    assert(given.take(given.len() as int) =~= given);
    low
}

/// The highest end of the segments.
fn max_address(segments: &Vec<Segment>) -> (r: u64)
    requires
        segments@.len() > 0,
        forall|i: int|
            0 <= i < segments@.len() ==> (#[trigger] segments@[i]).address
                + segments@[i].bytes@.len() <= u64::MAX,
    ensures
        r == highest(segment_views(segments@)),
{
    let ghost given = segment_views(segments@);
    assert(segments@[0].address + segments@[0].bytes@.len() <= u64::MAX);
    let mut high: u64 = segments[0].address + segments[0].bytes.len() as u64;
    let mut i: usize = 1;
    while i < segments.len()
        invariant
            1 <= i <= segments@.len(),
            given == segment_views(segments@),
            forall|k: int|
                0 <= k < segments@.len() ==> (#[trigger] segments@[k]).address
                    + segments@[k].bytes@.len() <= u64::MAX,
            high == highest(given.take(i as int)),
        decreases segments@.len() - i,
    {
        assert(given.take(i as int + 1).drop_last() =~= given.take(i as int));
        assert(segments@[i as int].address + segments@[i as int].bytes@.len() <= u64::MAX);
        let end = segments[i].address + segments[i].bytes.len() as u64;
        if end > high {
            high = end;
        }
        i = i + 1;
    }
    assert(given.take(given.len() as int) =~= given);
    high
}

/// Puts the records of a file together into one image.
pub fn assemble(records: Vec<HexRecord>) -> (r: Result<LoadedFirmware, HexError>)
    requires
        forall|i: int| 0 <= i < records@.len() ==> (#[trigger] records@[i])@.fits(),
    ensures
        match r {
            Ok(loaded) => {
                &&& assembly(views(records@)) == Ok::<FirmwareView, HexError>(loaded.firmware@)
                &&& first_overlap(segments_of(views(records@)), loaded.overlap)
                &&& loaded.firmware@.addressable()
            },
            Err(e) => assembly(views(records@)) == Err::<FirmwareView, HexError>(e),
        },
{
    let segments = collect_segments(records);
    let ghost given = segment_views(segments@);
    if segments.len() == 0 {
        return Err(HexError::NoData);
    }
    let min_address = min_address(&segments);
    let max_address = max_address(&segments);
    proof {
        lemma_bounds(given, 0);
    }
    let size: u64 = max_address - min_address;
    if size > MAX_IMAGE_SIZE {
        return Err(HexError::SpanTooLarge { min: min_address, max: max_address });
    }
    let overlap = warn_on_overlaps(&segments);
    let mut data: Vec<u8> = vec![ERASED; size as usize];
    let mut i: usize = 0;
    assert(data@ =~= Seq::new(size as nat, |k: int| byte_at(given.take(0), min_address + k)));
    while i < segments.len()
        invariant
            i <= segments@.len(),
            given == segment_views(segments@),
            min_address == lowest(given),
            max_address == highest(given),
            size == max_address - min_address,
            size <= MAX_IMAGE_SIZE,
            forall|k: int|
                0 <= k < segments@.len() ==> (#[trigger] segments@[k]).address
                    + segments@[k].bytes@.len() <= u64::MAX,
            data@ == Seq::new(
                size as nat,
                |k: int| byte_at(given.take(i as int), min_address + k),
            ),
        decreases segments@.len() - i,
    {
        proof {
            lemma_bounds(given, i as int);
        }
        assert(given.take(i as int + 1).drop_last() =~= given.take(i as int));
        let start: usize = (segments[i].address - min_address) as usize;
        lay_over(&mut data, start, &segments[i].bytes);
        assert(data@ =~= Seq::new(
            size as nat,
            |k: int| byte_at(given.take(i as int + 1), min_address + k),
        ));
        i = i + 1;
    }
    assert(given.take(given.len() as int) =~= given);
    assert(data@ =~= image(given));
    Ok(LoadedFirmware { firmware: Firmware { data, start_address: min_address }, overlap })
}

/// What the `ihex` crate reads from the text of a file: its records up to the
/// end-of-file record, or what is wrong with the first malformed one.
pub uninterp spec fn ihex_read(text: Seq<char>) -> Result<Seq<HexRecordView>, Seq<char>>;

/// Reads a file with `ihex::Reader`, each of its records turned into the same
/// record of this crate, and its error into that error's text. The result is
/// given a name; that a data record holds at most 255 bytes is what the crate's
/// documentation says of it.
#[verifier::external_body]
fn read_records(text: &str) -> (r: Result<Vec<HexRecord>, String>)
    ensures
        match r {
            Ok(records) => {
                &&& ihex_read(text@) == Ok::<Seq<HexRecordView>, Seq<char>>(views(records@))
                &&& forall|i: int| 0 <= i < records@.len() ==> (#[trigger] records@[i])@.fits()
            },
            Err(reason) => ihex_read(text@) == Err::<Seq<HexRecordView>, Seq<char>>(reason@),
        },
{
    let convert = |record: ihex::Record| match record {
        ihex::Record::Data { offset, value } => HexRecord::Data { offset, value },
        ihex::Record::EndOfFile => HexRecord::EndOfFile,
        ihex::Record::ExtendedSegmentAddress(a) => HexRecord::ExtendedSegmentAddress(a),
        ihex::Record::StartSegmentAddress { cs, ip } => HexRecord::StartSegmentAddress { cs, ip },
        ihex::Record::ExtendedLinearAddress(a) => HexRecord::ExtendedLinearAddress(a),
        ihex::Record::StartLinearAddress(a) => HexRecord::StartLinearAddress(a),
    };
    ihex::Reader::new(text).map(|r| r.map(convert).map_err(|e| e.to_string())).collect()
}

/// Parses an Intel HEX string into an image, and finds where records overlap.
pub fn load_intel_hex(hex: &str) -> (r: Result<LoadedFirmware, HexError>)
    ensures
        match ihex_read(hex@) {
            Err(text) => r matches Err(HexError::Record { reason }) && reason@ == text,
            Ok(records) => match r {
                Ok(loaded) => {
                    &&& assembly(records) == Ok::<FirmwareView, HexError>(loaded.firmware@)
                    &&& first_overlap(segments_of(records), loaded.overlap)
                    &&& loaded.firmware@.addressable()
                },
                Err(e) => assembly(records) == Err::<FirmwareView, HexError>(e),
            },
        },
{
    match read_records(hex) {
        Err(reason) => Err(HexError::Record { reason }),
        Ok(records) => assemble(records),
    }
}

/// Parses an Intel HEX string into a [`Firmware`] image.
pub fn parse_intel_hex(hex: &str) -> (r: Result<Firmware, HexError>)
    ensures
        match ihex_read(hex@) {
            Err(text) => r matches Err(HexError::Record { reason }) && reason@ == text,
            Ok(records) => match r {
                Ok(firmware) => assembly(records) == Ok::<FirmwareView, HexError>(firmware@)
                    && firmware@.addressable(),
                Err(e) => assembly(records) == Err::<FirmwareView, HexError>(e),
            },
        },
{
    match load_intel_hex(hex) {
        Ok(loaded) => Ok(loaded.firmware),
        Err(e) => Err(e),
    }
}

proof fn lemma_byte_at(segments: Seq<SegmentView>, i: int, addr: int)
    requires
        0 <= i < segments.len(),
        segments[i].covers(addr),
        forall|k: int| i < k < segments.len() ==> !(#[trigger] segments[k]).covers(addr),
    ensures
        byte_at(segments, addr) == segments[i].bytes[addr - segments[i].address],
    decreases segments.len(),
{
    if i < segments.len() - 1 {
        let fewer = segments.drop_last();
        assert(!segments[segments.len() - 1].covers(addr));
        assert forall|k: int| i < k < fewer.len() implies !(#[trigger] fewer[k]).covers(addr) by {
            assert(fewer[k] == segments[k]);
        }
        assert(fewer[i] == segments[i]);
        lemma_byte_at(fewer, i, addr);
    }
}

proof fn lemma_erased_at(segments: Seq<SegmentView>, addr: int)
    requires
        forall|k: int| 0 <= k < segments.len() ==> !(#[trigger] segments[k]).covers(addr),
    ensures
        byte_at(segments, addr) == ERASED,
    decreases segments.len(),
{
    if segments.len() > 0 {
        let fewer = segments.drop_last();
        assert(!segments[segments.len() - 1].covers(addr));
        assert forall|k: int| 0 <= k < fewer.len() implies !(#[trigger] fewer[k]).covers(addr) by {
            assert(fewer[k] == segments[k]);
        }
        lemma_erased_at(fewer, addr);
    }
}

/// Where records overlap, the last one wins: a byte of the image is that of the
/// last run of bytes to cover its address.
pub proof fn law_last_record_wins(records: Seq<HexRecordView>, i: int, addr: int)
    requires
        assembly(records) is Ok,
        0 <= i < segments_of(records).len(),
        segments_of(records)[i].covers(addr),
        forall|k: int|
            i < k < segments_of(records).len() ==> !(#[trigger] segments_of(records)[k]).covers(
                addr,
            ),
    ensures
        ({
            let firmware = assembly(records)->Ok_0;
            let segment = segments_of(records)[i];
            &&& firmware.start <= addr < firmware.start + firmware.data.len()
            &&& firmware.data[addr - firmware.start] == segment.bytes[addr - segment.address]
        }),
{
    let segments = segments_of(records);
    lemma_bounds(segments, i);
    lemma_byte_at(segments, i, addr);
}

/// An address of the image that no run of bytes covers holds the erased value.
pub proof fn law_gaps_are_erased(records: Seq<HexRecordView>, addr: int)
    requires
        assembly(records) matches Ok(firmware) && firmware.start <= addr < firmware.start
            + firmware.data.len(),
        forall|k: int|
            0 <= k < segments_of(records).len() ==> !(#[trigger] segments_of(records)[k]).covers(
                addr,
            ),
    ensures
        assembly(records)->Ok_0.data[addr - assembly(records)->Ok_0.start] == ERASED,
{
    lemma_erased_at(segments_of(records), addr);
}

/// An image spans from its lowest to its highest address, and never more than
/// the limit.
pub proof fn law_image_is_bounded(records: Seq<HexRecordView>)
    requires
        assembly(records) is Ok,
    ensures
        ({
            let firmware = assembly(records)->Ok_0;
            &&& 0 < firmware.data.len() <= MAX_IMAGE_SIZE
            &&& firmware.start == lowest(segments_of(records))
            &&& firmware.start + firmware.data.len() == highest(segments_of(records))
        }),
{
    let segments = segments_of(records);
    lemma_bounds(segments, 0);
    lemma_segments_filled(records, 0);
}

proof fn lemma_segments_filled(records: Seq<HexRecordView>, i: int)
    requires
        0 <= i < segments_of(records).len(),
    ensures
        segments_of(records)[i].bytes.len() > 0,
    decreases records.len(),
{
    if records.len() > 0 {
        let fewer = records.drop_last();
        if i < segments_of(fewer).len() {
            lemma_segments_filled(fewer, i);
        }
    }
}

/// Whether a record places bytes.
pub open spec fn places_bytes(record: HexRecordView) -> bool {
    record matches HexRecordView::Data { value, .. } && value.len() > 0
}

proof fn lemma_segments_none(records: Seq<HexRecordView>)
    ensures
        segments_of(records).len() == 0 <==> forall|i: int|
            0 <= i < records.len() ==> !places_bytes(#[trigger] records[i]),
    decreases records.len(),
{
    if records.len() > 0 {
        let fewer = records.drop_last();
        lemma_segments_none(fewer);
        assert(records.last() == records[records.len() - 1]);
        if segments_of(fewer).len() == 0 && !places_bytes(records.last()) {
            assert forall|i: int| 0 <= i < records.len() implies !places_bytes(
                #[trigger] records[i],
            ) by {
                if i < fewer.len() {
                    assert(fewer[i] == records[i]);
                }
            }
        }
        if forall|i: int| 0 <= i < records.len() ==> !places_bytes(#[trigger] records[i]) {
            assert forall|i: int| 0 <= i < fewer.len() implies !places_bytes(
                #[trigger] fewer[i],
            ) by {
                assert(fewer[i] == records[i]);
            }
        }
    }
}

/// Records make up no image for want of data exactly if none of them places a
/// byte.
pub proof fn law_data_is_needed(records: Seq<HexRecordView>)
    ensures
        assembly(records) == Err::<FirmwareView, HexError>(HexError::NoData) <==> forall|i: int|
            0 <= i < records.len() ==> !places_bytes(#[trigger] records[i]),
{
    lemma_segments_none(records);
}

} // verus!
