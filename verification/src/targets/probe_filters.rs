//! The central list of CMSIS-DAP probe vendors.
//!
//! Each entry of the `vendorIds` array of `probe-filters.json` is either a bare
//! hexadecimal string (`"0x03EB"`) or an object with such a string as `vid` and
//! an optional `$comment` that describes the vendor and its products.

use vstd::prelude::*;
use vstd::string::*;

use crate::error::Error;
use crate::json::{Json, json_field, json_of, json_read, jsons_of, read_json};
use crate::text::{chars_of, dec, int_value, lemma_int_bound, parse_int, push_dec, trim, trimmed};
use crate::util::has_hex_prefix;

verus! {

/// A known CMSIS-DAP probe vendor.
#[derive(Debug)]
pub struct ProbeFilter {
    /// USB vendor id.
    pub vid: u16,
    /// Optional description of the vendor and its products.
    pub comment: Option<String>,
}

impl Clone for ProbeFilter {
    fn clone(&self) -> (r: ProbeFilter)
        ensures
            r == *self,
    {
        ProbeFilter { vid: self.vid, comment: self.comment.clone() }
    }
}

/// What an entry of the list says.
pub struct FilterView {
    pub vid: nat,
    pub comment: Option<Seq<char>>,
}

impl View for ProbeFilter {
    type V = FilterView;

    open spec fn view(&self) -> FilterView {
        FilterView {
            vid: self.vid as nat,
            comment: match self.comment {
                Some(comment) => Some(comment@),
                None => None,
            },
        }
    }
}

/// What the entries of a list say.
pub open spec fn filter_views(filters: Seq<ProbeFilter>) -> Seq<FilterView> {
    Seq::new(filters.len(), |i: int| filters[i]@)
}

/// The vendor id that a text writes: hexadecimal behind `0x` or `0X`, of 16
/// bits; white space around it does not count.
pub open spec fn vid_of(text: Seq<char>) -> Option<nat> {
    let t = trimmed(text);
    if has_hex_prefix(t) {
        match int_value(t.skip(2), 16, 0xFFFF) {
            Ok(vid) => Some(vid),
            Err(_) => None,
        }
    } else {
        None
    }
}

/// The text that an object holds at a key.
pub open spec fn text_field(fields: Map<Seq<char>, Json>, key: Seq<char>) -> Option<Seq<char>> {
    if fields.contains_key(key) {
        match fields[key] {
            Json::Text(text) => Some(text),
            _ => None,
        }
    } else {
        None
    }
}

/// The vendor that an entry describes, where it is well formed.
pub open spec fn filter_of(entry: Json) -> Option<FilterView> {
    let (vid, comment) = match entry {
        Json::Text(text) => (Some(text), None),
        Json::Object(fields) => (text_field(fields, "vid"@), text_field(fields, "$comment"@)),
        _ => (None, None),
    };
    match vid {
        Some(text) => match vid_of(text) {
            Some(vid) => Some(FilterView { vid, comment }),
            None => None,
        },
        None => None,
    }
}

/// The vendors that the well-formed entries describe, in their order.
pub open spec fn filters_of(entries: Seq<Json>) -> Seq<FilterView>
    decreases entries.len(),
{
    if entries.len() == 0 {
        Seq::empty()
    } else {
        let before = filters_of(entries.drop_last());
        match filter_of(entries.last()) {
            Some(filter) => before.push(filter),
            None => before,
        }
    }
}

/// The vendors that a document lists in its `vendorIds` array; none where it has
/// no such array.
pub open spec fn listed(root: Json) -> Seq<FilterView> {
    match entries_of(root) {
        Some(entries) => filters_of(entries),
        None => Seq::empty(),
    }
}

/// Why an entry of the list is passed over.
#[derive(Debug)]
pub enum SkipReason {
    /// It is an object without a text as `vid`.
    MissingVid,
    /// It is neither a text nor an object.
    InvalidEntry,
    /// What it gives as vendor id is none.
    InvalidVid { vid: String },
}

/// What a [`SkipReason`] says.
pub enum SkipView {
    MissingVid,
    InvalidEntry,
    InvalidVid { vid: Seq<char> },
}

impl View for SkipReason {
    type V = SkipView;

    open spec fn view(&self) -> SkipView {
        match *self {
            SkipReason::MissingVid => SkipView::MissingVid,
            SkipReason::InvalidEntry => SkipView::InvalidEntry,
            SkipReason::InvalidVid { vid } => SkipView::InvalidVid { vid: vid@ },
        }
    }
}

/// An entry of the list that is passed over.
#[derive(Debug)]
pub struct SkippedEntry {
    /// Its place in the list, counted from 0.
    pub index: usize,
    /// Why it is passed over.
    pub reason: SkipReason,
}

/// The vendors of a list, and the entries that were passed over.
#[derive(Debug)]
pub struct FilterList {
    pub filters: Vec<ProbeFilter>,
    pub skipped: Vec<SkippedEntry>,
}

/// What the entries that were passed over say.
pub open spec fn skipped_views(skipped: Seq<SkippedEntry>) -> Seq<(nat, SkipView)> {
    Seq::new(skipped.len(), |i: int| (skipped[i].index as nat, skipped[i].reason@))
}

/// Why an entry is passed over, where it is.
pub open spec fn skip_of(entry: Json) -> Option<SkipView> {
    match entry {
        Json::Text(vid) => if vid_of(vid) is Some {
            None
        } else {
            Some(SkipView::InvalidVid { vid })
        },
        Json::Object(fields) => match text_field(fields, "vid"@) {
            Some(vid) => if vid_of(vid) is Some {
                None
            } else {
                Some(SkipView::InvalidVid { vid })
            },
            None => Some(SkipView::MissingVid),
        },
        _ => Some(SkipView::InvalidEntry),
    }
}

/// The entries that are passed over, with their places, in their order.
pub open spec fn skipped_of(entries: Seq<Json>) -> Seq<(nat, SkipView)>
    decreases entries.len(),
{
    if entries.len() == 0 {
        Seq::empty()
    } else {
        let before = skipped_of(entries.drop_last());
        match skip_of(entries.last()) {
            Some(reason) => before.push(((entries.len() - 1) as nat, reason)),
            None => before,
        }
    }
}

/// The entries of a document's `vendorIds` array, where it has one.
pub open spec fn entries_of(root: Json) -> Option<Seq<Json>> {
    match root {
        Json::Object(fields) => if fields.contains_key("vendorIds"@) {
            match fields["vendorIds"@] {
                Json::Array(entries) => Some(entries),
                _ => None,
            }
        } else {
            None
        },
        _ => None,
    }
}

impl SkippedEntry {
    /// What is said of the entry.
    pub open spec fn text(self) -> Seq<char> {
        match self.reason {
            SkipReason::MissingVid => "Skipping probe-filters entry without `vid`: number "@ + dec(
                self.index as nat,
            ),
            SkipReason::InvalidEntry => "Skipping invalid probe-filters entry: number "@ + dec(
                self.index as nat,
            ),
            SkipReason::InvalidVid { vid } =>
                "Skipping invalid vendor id in probe-filters.json: "@ + vid@,
        }
    }

    /// What is said of the entry.
    pub fn message(&self) -> (r: String)
        ensures
            r@ == self.text(),
    {
        match &self.reason {
            SkipReason::MissingVid => {
                let mut out = "Skipping probe-filters entry without `vid`: number ".to_owned();
                push_dec(&mut out, self.index as u64);
                out
            },
            SkipReason::InvalidEntry => {
                let mut out = "Skipping invalid probe-filters entry: number ".to_owned();
                push_dec(&mut out, self.index as u64);
                out
            },
            SkipReason::InvalidVid { vid } => {
                let mut out = "Skipping invalid vendor id in probe-filters.json: ".to_owned();
                out.append(vid.as_str());
                out
            },
        }
    }
}

/// Parses a vendor id, or gives nothing if it is malformed or out of range.
pub fn parse_vid(s: &str) -> (r: Option<u16>)
    ensures
        match r {
            Some(vid) => vid_of(s@) == Some(vid as nat),
            None => vid_of(s@) is None,
        },
{
    let chars = chars_of(trim(s));
    if chars.len() >= 2 && chars[0] == '0' && (chars[1] == 'x' || chars[1] == 'X') {
        match parse_int(&chars, 2, 16, 0xFFFF) {
            Ok(vid) => {
                proof {
                    lemma_int_bound(chars@.skip(2), 16, 0xFFFF);
                }
                Some(vid as u16)
            },
            Err(_) => None,
        }
    } else {
        None
    }
}

/// The text that a value holds at a key.
fn text_at(value: &serde_json::Value, key: &str) -> (r: Option<String>)
    requires
        json_of(*value) is Object,
    ensures
        match (r, text_field(json_of(*value)->Object_0, key@)) {
            (Some(s), Some(text)) => s@ == text,
            (None, None) => true,
            _ => false,
        },
{
    match json_field(value, key) {
        Some(found) => match found.as_str() {
            Some(s) => Some(s.to_owned()),
            None => None,
        },
        None => None,
    }
}

/// Reads one entry of the list, or says why it is passed over.
fn parse_entry(entry: &serde_json::Value) -> (r: Result<ProbeFilter, SkipReason>)
    ensures
        match r {
            Ok(filter) => {
                &&& filter_of(json_of(*entry)) == Some(filter@)
                &&& skip_of(json_of(*entry)) is None
            },
            Err(reason) => {
                &&& filter_of(json_of(*entry)) is None
                &&& skip_of(json_of(*entry)) == Some(reason@)
            },
        },
{
    let (vid, comment) = match entry.as_str() {
        Some(s) => (s.to_owned(), None),
        None => {
            if !entry.is_object() {
                return Err(SkipReason::InvalidEntry);
            }
            let comment = text_at(entry, "$comment");
            match text_at(entry, "vid") {
                Some(vid) => (vid, comment),
                None => return Err(SkipReason::MissingVid),
            }
        },
    };
    match parse_vid(vid.as_str()) {
        Some(vid) => Ok(ProbeFilter { vid, comment }),
        None => Err(SkipReason::InvalidVid { vid }),
    }
}

/// Reads the list that a document holds, where it holds one: its vendors, and the
/// entries that are not well formed.
pub fn list_from(root: &serde_json::Value) -> (r: Option<FilterList>)
    ensures
        match entries_of(json_of(*root)) {
            Some(entries) => r matches Some(list) && filter_views(list.filters@) == filters_of(
                entries,
            ) && skipped_views(list.skipped@) == skipped_of(entries),
            None => r is None,
        },
{
    let entries = match json_field(root, "vendorIds") {
        Some(found) => match found.as_array() {
            Some(entries) => entries,
            None => return None,
        },
        None => return None,
    };
    let mut filters: Vec<ProbeFilter> = Vec::new();
    let mut skipped: Vec<SkippedEntry> = Vec::new();
    assert(filter_views(filters@) =~= Seq::<FilterView>::empty());
    assert(skipped_views(skipped@) =~= Seq::<(nat, SkipView)>::empty());
    let ghost all = jsons_of(entries@);
    assert(all.take(0) =~= Seq::<Json>::empty());
    let mut i: usize = 0;
    while i < entries.len()
        invariant
            i <= entries@.len(),
            all == jsons_of(entries@),
            filter_views(filters@) == filters_of(all.take(i as int)),
            skipped_views(skipped@) == skipped_of(all.take(i as int)),
        decreases entries@.len() - i,
    {
        let ghost kept = filters@;
        let ghost passed = skipped@;
        assert(all.take(i as int + 1).drop_last() =~= all.take(i as int));
        match parse_entry(&entries[i]) {
            Ok(filter) => {
                filters.push(filter);
                assert(filter_views(filters@) =~= filter_views(kept).push(filter@));
            },
            Err(reason) => {
                skipped.push(SkippedEntry { index: i, reason });
                assert(skipped_views(skipped@) =~= skipped_views(passed).push(
                    (i as nat, reason@),
                ));
            },
        }
        i = i + 1;
    }
    assert(all.take(all.len() as int) =~= all);
    Some(FilterList { filters, skipped })
}

/// Reads the vendors that a document lists. Entries that are not well formed are
/// passed over.
pub fn filters_from(root: &serde_json::Value) -> (r: Vec<ProbeFilter>)
    ensures
        filter_views(r@) == listed(json_of(*root)),
{
    match list_from(root) {
        Some(list) => list.filters,
        None => {
            let none: Vec<ProbeFilter> = Vec::new();
            assert(filter_views(none@) =~= Seq::<FilterView>::empty());
            none
        },
    }
}

/// Parses `probe-filters.json` into its vendors and the entries that are passed
/// over; nothing where it has no `vendorIds` array.
pub fn parse_filter_list(json: &str) -> (r: Result<Option<FilterList>, Error>)
    ensures
        match json_read(json@) {
            Ok(root) => match entries_of(root) {
                Some(entries) => r matches Ok(Some(list)) && filter_views(list.filters@)
                    == filters_of(entries) && skipped_views(list.skipped@) == skipped_of(entries),
                None => r matches Ok(None),
            },
            Err(text) => r matches Err(Error::InvalidProbeFilters { reason }) && reason@ == text,
        },
{
    match read_json(json) {
        Ok(root) => Ok(list_from(&root)),
        Err(reason) => Err(Error::InvalidProbeFilters { reason }),
    }
}

/// Parses `probe-filters.json` into a list of vendors. Entries that are not well
/// formed are passed over rather than failing the whole list.
pub fn parse_probe_filters(json: &str) -> (r: Result<Vec<ProbeFilter>, Error>)
    ensures
        match json_read(json@) {
            Ok(root) => r matches Ok(filters) && filter_views(filters@) == listed(root),
            Err(text) => r matches Err(Error::InvalidProbeFilters { reason }) && reason@ == text,
        },
{
    match read_json(json) {
        Ok(root) => Ok(filters_from(&root)),
        Err(reason) => Err(Error::InvalidProbeFilters { reason }),
    }
}

/// An entry does not affect the others: what two lists describe together is what
/// each of them describes.
pub proof fn law_entries_are_independent(first: Seq<Json>, second: Seq<Json>)
    ensures
        filters_of(first + second) == filters_of(first) + filters_of(second),
    decreases second.len(),
{
    if second.len() == 0 {
        assert(first + second =~= first);
        assert(filters_of(first) + filters_of(second) =~= filters_of(first));
    } else {
        let fewer = second.drop_last();
        assert((first + second).drop_last() =~= first + fewer);
        assert((first + second).last() == second.last());
        law_entries_are_independent(first, fewer);
        assert(filters_of(first + second) =~= filters_of(first) + filters_of(second));
    }
}

/// Every entry counts once: as a vendor, or as passed over.
pub proof fn law_entries_are_accounted_for(entries: Seq<Json>)
    ensures
        filters_of(entries).len() + skipped_of(entries).len() == entries.len(),
        forall|i: int|
            0 <= i < entries.len() ==> (filter_of(#[trigger] entries[i]) is Some <==> skip_of(
                entries[i],
            ) is None),
    decreases entries.len(),
{
    if entries.len() > 0 {
        law_entries_are_accounted_for(entries.drop_last());
        assert(filter_of(entries.last()) is Some <==> skip_of(entries.last()) is None);
    }
}

} // verus!
