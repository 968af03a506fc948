//! What is read from documents: numbers, probe vendors, targets, and lists of them.

use vstd::prelude::*;
use vstd::string::*;

use crate::dap::arm::{Fault, Retry, verdict};
use crate::error::Error;
use crate::json::Json;
use crate::laws::text::{all_digits, law_numbers_count_in_places, places, unsigned};
use crate::targets::{TargetSummary, distinct, loaded_of, texts};
use crate::targets::definition::{TargetConfig, int_of, u64_of};
use crate::targets::probe_filters::{
    FilterView, SkipView, entries_of, filter_of, filters_of, law_entries_are_accounted_for, listed,
    skip_of, skipped_of, text_field, vid_of,
};
use crate::text::{IntError, trimmed};
use crate::util::{u64_error, u64_value};

verus! {

/// A vendor id is a number of 16 bits in hexadecimal behind `0x` or `0X`, with
/// white space around it or not: nothing else is one, and it is what its digits
/// count for.
pub proof fn law_vendor_ids_count_in_places(s: Seq<char>)
    ensures
        ({
            let t = trimmed(s);
            let digits = unsigned(t.skip(2));
            let prefixed = t.len() >= 2 && t[0] == '0' && (t[1] == 'x' || t[1] == 'X');
            &&& vid_of(s) is Some <==> prefixed && digits.len() > 0 && all_digits(digits, 16)
                && places(digits, 16) <= 0xFFFF
            &&& vid_of(s) matches Some(vid) ==> vid == places(digits, 16)
        }),
{
    law_numbers_count_in_places(trimmed(s).skip(2), 16, 0xFFFF);
}

/// An entry that is a text describes the vendor with that id and says nothing more;
/// one that is an object describes the vendor with the id at `vid`, with the text
/// at `$comment` where there is one. No other entry describes a vendor.
pub proof fn law_entries_describe_vendors(
    text: Seq<char>,
    comment: Seq<char>,
    fields: Map<Seq<char>, Json>,
    flag: bool,
    number: Option<u64>,
    items: Seq<Json>,
)
    requires
        !fields.contains_key("vid"@),
        !fields.contains_key("$comment"@),
    ensures
        ({
            let with_vid = fields.insert("vid"@, Json::Text(text));
            let with_both = with_vid.insert("$comment"@, Json::Text(comment));
            &&& match vid_of(text) {
                Some(vid) => {
                    &&& filter_of(Json::Text(text)) == Some(FilterView { vid, comment: None })
                    &&& filter_of(Json::Object(with_vid)) == Some(FilterView { vid, comment: None })
                    &&& filter_of(Json::Object(with_both)) == Some(
                        FilterView { vid, comment: Some(comment) },
                    )
                    &&& skip_of(Json::Text(text)) is None
                    &&& skip_of(Json::Object(with_vid)) is None
                    &&& skip_of(Json::Object(with_both)) is None
                },
                None => {
                    &&& filter_of(Json::Text(text)) is None
                    &&& filter_of(Json::Object(with_vid)) is None
                    &&& filter_of(Json::Object(with_both)) is None
                    &&& skip_of(Json::Text(text)) == Some(SkipView::InvalidVid { vid: text })
                    &&& skip_of(Json::Object(with_vid)) == Some(SkipView::InvalidVid { vid: text })
                    &&& skip_of(Json::Object(with_both)) == Some(SkipView::InvalidVid { vid: text })
                },
            }
            &&& filter_of(Json::Object(fields)) is None
            &&& skip_of(Json::Object(fields)) == Some(SkipView::MissingVid)
            &&& filter_of(Json::Null) is None && skip_of(Json::Null) == Some(SkipView::InvalidEntry)
            &&& filter_of(Json::Bool(flag)) is None && skip_of(Json::Bool(flag)) == Some(
                SkipView::InvalidEntry,
            )
            &&& filter_of(Json::Number(number)) is None && skip_of(Json::Number(number)) == Some(
                SkipView::InvalidEntry,
            )
            &&& filter_of(Json::Array(items)) is None && skip_of(Json::Array(items)) == Some(
                SkipView::InvalidEntry,
            )
        }),
{
    reveal_strlit("vid");
    reveal_strlit("$comment");
    assert("vid"@.len() != "$comment"@.len());
}

/// A vendor whose id or comment is no text has none.
pub proof fn law_fields_are_texts(fields: Map<Seq<char>, Json>, key: Seq<char>)
    ensures
        text_field(fields, key) is Some <==> fields.contains_key(key) && fields[key] is Text,
        text_field(fields, key) matches Some(text) ==> fields[key] == Json::Text(text),
{
}

/// The list of a document is the array at `vendorIds`, and there is none where that
/// is missing or no array.
pub proof fn law_list_stands_at_vendor_ids(root: Json, entries: Seq<Json>)
    ensures
        entries_of(root) == Some(entries) <==> root is Object && root->Object_0.contains_key(
            "vendorIds"@,
        ) && root->Object_0["vendorIds"@] == Json::Array(entries),
        entries_of(root) is None ==> listed(root).len() == 0,
        entries_of(root) == Some(entries) ==> listed(root) == filters_of(entries),
{
}

/// The number of entries among the first `n` that describe a vendor.
pub open spec fn described_before(entries: Seq<Json>, n: int) -> int
    decreases n,
{
    if n <= 0 {
        0
    } else {
        described_before(entries, n - 1) + if filter_of(entries[n - 1]) is Some {
            1int
        } else {
            0
        }
    }
}

/// Every entry that describes a vendor gives that vendor, in the order of the
/// entries, and every other is told with its place and the reason.
pub proof fn law_every_entry_is_kept_or_told(entries: Seq<Json>, i: int)
    requires
        0 <= i < entries.len(),
    ensures
        ({
            let kept = described_before(entries, i);
            let told = i - kept;
            &&& 0 <= kept <= i
            &&& filter_of(entries[i]) matches Some(filter) ==> kept < filters_of(entries).len()
                && filters_of(entries)[kept] == filter
            &&& skip_of(entries[i]) matches Some(reason) ==> told < skipped_of(entries).len()
                && skipped_of(entries)[told] == (i as nat, reason)
        }),
    decreases entries.len(),
{
    let fewer = entries.drop_last();
    let last = entries.len() - 1;
    lemma_described_before(entries, fewer, i);
    lemma_described_before(entries, fewer, last);
    lemma_counts(fewer);
    assert(filter_of(entries.last()) is Some <==> skip_of(entries.last()) is None);
    if i < last {
        assert(fewer[i] == entries[i]);
        law_every_entry_is_kept_or_told(fewer, i);
    }
}

proof fn lemma_described_before(entries: Seq<Json>, fewer: Seq<Json>, n: int)
    requires
        entries.len() > 0,
        fewer == entries.drop_last(),
        n <= fewer.len(),
    ensures
        described_before(entries, n) == described_before(fewer, n),
        n >= 0 ==> 0 <= described_before(entries, n) <= n,
    decreases n,
{
    if n > 0 {
        lemma_described_before(entries, fewer, n - 1);
    }
}

proof fn lemma_counts(entries: Seq<Json>)
    ensures
        filters_of(entries).len() == described_before(entries, entries.len() as int),
        skipped_of(entries).len() == entries.len() - filters_of(entries).len(),
    decreases entries.len(),
{
    law_entries_are_accounted_for(entries);
    if entries.len() > 0 {
        let fewer = entries.drop_last();
        lemma_counts(fewer);
        lemma_described_before(entries, fewer, entries.len() - 1);
    }
}

/// The targets that could be loaded are listed in their order, and no other: what
/// two lists give together is what each of them gives.
pub proof fn law_loaded_targets_are_listed(
    first: Seq<Result<TargetConfig, Error>>,
    second: Seq<Result<TargetConfig, Error>>,
    target: TargetConfig,
    e: Error,
)
    ensures
        loaded_of(seq![Ok::<TargetConfig, Error>(target)]) == seq![target],
        loaded_of(seq![Err::<TargetConfig, Error>(e)]) == Seq::<TargetConfig>::empty(),
        loaded_of(first + second) == loaded_of(first) + loaded_of(second),
    decreases second.len(),
{
    reveal_with_fuel(loaded_of, 2);
    assert(seq![Ok::<TargetConfig, Error>(target)].drop_last() =~= seq![]);
    assert(seq![Err::<TargetConfig, Error>(e)].drop_last() =~= seq![]);
    assert(loaded_of(seq![Ok::<TargetConfig, Error>(target)]) =~= seq![target]);
    assert(loaded_of(seq![Err::<TargetConfig, Error>(e)]) =~= seq![]);
    if second.len() == 0 {
        assert(first + second =~= first);
        assert(loaded_of(first) + loaded_of(second) =~= loaded_of(first));
    } else {
        let fewer = second.drop_last();
        assert((first + second).drop_last() =~= first + fewer);
        law_loaded_targets_are_listed(first, fewer, target, e);
        assert(loaded_of(first + second) =~= loaded_of(first) + loaded_of(second));
    }
}

/// A summary says of a target what its definition says; a definition without a
/// description gives an empty one.
pub proof fn law_summaries_say_what_targets_say(summary: TargetSummary, target: TargetConfig)
    requires
        summary.summarizes(target),
    ensures
        summary.id@ == target.id@,
        summary.name@ == target.name@,
        summary.capabilities@ == target.capabilities@,
        target.description matches Some(description) ==> summary.description@ == description@,
        target.description is None ==> summary.description@.len() == 0,
{
}

/// Ids that come later do not move those that came before.
pub proof fn law_index_keeps_order(first: Seq<String>, second: Seq<String>)
    ensures
        distinct(first).is_prefix_of(distinct(first + second)),
        texts(first + second) == texts(first) + texts(second),
        forall|i: int| 0 <= i < first.len() ==> #[trigger] texts(first)[i] == first[i]@,
    decreases second.len(),
{
    let all = first + second;
    assert(texts(all) =~= texts(first) + texts(second));
    if second.len() == 0 {
        assert(all =~= first);
    } else {
        let fewer = second.drop_last();
        assert(all.drop_last() =~= first + fewer);
        law_index_keeps_order(first, fewer);
        let before = distinct(first + fewer);
        assert(distinct(first) =~= before.take(distinct(first).len() as int));
        assert(distinct(first) =~= distinct(all).take(distinct(first).len() as int));
    }
}

/// A document is an unsigned integer where it is a number of 64 bits, or a text
/// that writes one; no other document is.
pub proof fn law_documents_hold_integers(
    document: Json,
    text: Seq<char>,
    s: Seq<char>,
    n: u64,
    max: nat,
)
    ensures
        u64_of(Json::Number(Some(n)), text) == Ok::<nat, Seq<char>>(n as nat),
        u64_of(Json::Text(s), text) is Ok <==> u64_value(s) is Ok,
        u64_value(s) matches Ok(v) ==> u64_of(Json::Text(s), text) == Ok::<nat, Seq<char>>(v),
        u64_of(document, text) is Ok ==> document is Number || document is Text,
        document == Json::Number(None) ==> u64_of(document, text) is Err,
        int_of(document, text, max) is Ok <==> u64_of(document, text) is Ok && u64_of(
            document,
            text,
        )->Ok_0 <= max,
        int_of(document, text, max) is Ok ==> int_of(document, text, max) == u64_of(
            document,
            text,
        ),
{
}

/// What is said of a document that holds no integer ends with how it is written; of
/// a text, it quotes the text without the white space around it.
pub proof fn law_wrong_integers_are_quoted(
    document: Json,
    text: Seq<char>,
    s: Seq<char>,
    e: IntError,
)
    ensures
        !(document is Text) && u64_of(document, text) is Err ==> text.is_suffix_of(
            u64_of(document, text)->Err_0,
        ),
        u64_value(s) is Err ==> u64_of(Json::Text(s), text) == Err::<nat, Seq<char>>(
            u64_error(s, u64_value(s)->Err_0),
        ),
        u64_error(s, e) == (if trimmed(s).len() >= 2 && trimmed(s)[0] == '0' && (trimmed(s)[1]
            == 'x' || trimmed(s)[1] == 'X') {
            "invalid hex '"@
        } else {
            "invalid integer '"@
        }) + trimmed(s) + "': "@ + e.text(),
{
    if !(document is Text) && u64_of(document, text) is Err {
        let said = u64_of(document, text)->Err_0;
        assert(said.skip(said.len() - text.len()) =~= text);
    }
}

/// A transfer that failed for a reason which may pass is tried again after 50
/// milliseconds, two times at most; one that failed for any other reason is not.
pub proof fn law_transient_faults_are_retried(attempt: nat, fault: Fault)
    ensures
        fault == Fault::Other && attempt < 2 ==> verdict(attempt, fault) == Retry::After(50),
        fault != Fault::Other || attempt >= 2 ==> verdict(attempt, fault) == Retry::GiveUp,
{
}

} // verus!
