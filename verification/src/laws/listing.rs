//! What the listings show of the probes and targets that they list.

use vstd::prelude::*;
use vstd::string::*;

use crate::dap::{ProbeInfo, SelectorView, law_selector_selects, selector_of, selector_text};
use crate::laws::text::{all_digits, law_hexadecimals_are_wide, letter_value, places};
use crate::ops::{probe_line, probe_lines, target_lines, targets_lines, vendor_note, vendor_of};
use crate::targets::TargetSummary;
use crate::targets::probe_filters::ProbeFilter;
use crate::text::{
    dec, digits, hex04, joined, lemma_split_none, lemma_split_once, split_once, trimmed,
};

verus! {

/// What stands in front of the ids in the line of probe `i`.
pub open spec fn line_head(i: nat, probe: ProbeInfo) -> Seq<char> {
    "  "@ + dec(i) + ": "@ + probe.identifier@ + " ("@
}

/// What a line shows of a serial number.
pub open spec fn serial_shown(probe: ProbeInfo) -> Seq<char> {
    match probe.serial_number {
        Some(serial) => serial@,
        None => seq!['-'],
    }
}

/// The text in the brackets behind a probe's identifier selects exactly that
/// probe's vendor and product: read as a selector it gives the two ids, and it
/// writes both in four lower-case digits around a colon. Behind the brackets
/// stand the serial number and what is known of the vendor.
pub proof fn law_probe_line_selects(i: nat, probe: ProbeInfo, filters: Seq<ProbeFilter>)
    ensures
        ({
            let line = probe_line(i, probe, filters);
            let head = line_head(i, probe);
            let tail = line.skip(head.len() as int);
            &&& line.take(head.len() as int) == head
            &&& tail.len() > 9
            &&& tail[4] == ':'
            &&& tail[9] == ')'
            &&& places(tail.take(4), 16) == probe.vendor_id
            &&& places(tail.subrange(5, 9), 16) == probe.product_id
            &&& all_digits(tail.take(4), 16)
            &&& all_digits(tail.subrange(5, 9), 16)
            &&& split_once(tail, ')') matches Some((ids, rest)) && selector_of(ids) == Ok::<
                SelectorView,
                Seq<char>,
            >(
                SelectorView {
                    vendor_id: probe.vendor_id as nat,
                    product_id: probe.product_id as nat,
                    interface: None,
                    serial_number: None,
                },
            ) && rest == " serial="@ + serial_shown(probe) + vendor_note(filters, probe.vendor_id)
        }),
{
    reveal_strlit(":");
    reveal_strlit(") serial=");
    reveal_strlit(" serial=");
    reveal_strlit("-");
    assert("-"@ =~= seq!['-']);
    let line = probe_line(i, probe, filters);
    let head = line_head(i, probe);
    let vendor = hex04(probe.vendor_id as nat);
    let product = hex04(probe.product_id as nat);
    let note = vendor_note(filters, probe.vendor_id);
    let rest = " serial="@ + serial_shown(probe) + note;
    let ids = vendor + ":"@ + product;
    lemma_four_digits(probe.vendor_id);
    lemma_four_digits(probe.product_id);
    let tail = line.skip(head.len() as int);
    assert(line =~= head + (ids + seq![')'] + rest));
    assert(line.take(head.len() as int) =~= head);
    assert(tail =~= ids + seq![')'] + rest);
    assert(tail.take(4) =~= vendor);
    assert(tail.subrange(5, 9) =~= product);
    assert(ids =~= selector_text(probe.vendor_id as nat, probe.product_id as nat, None));
    law_selector_selects(probe.vendor_id as nat, probe.product_id as nat, None);
    assert forall|k: int| 0 <= k < ids.len() implies #[trigger] ids[k] != ')' by {
        if k < 4 {
            assert(ids[k] == vendor[k]);
            assert(letter_value(vendor[k]) < 16);
        } else if k > 4 {
            assert(ids[k] == product[k - 5]);
            assert(letter_value(product[k - 5]) < 16);
        }
    }
    lemma_split_once(ids, ')', rest);
}

/// An id of 16 bits is written in four digits.
proof fn lemma_four_digits(id: u16)
    ensures
        hex04(id as nat).len() == 4,
        all_digits(hex04(id as nat), 16),
        places(hex04(id as nat), 16) == id,
{
    law_hexadecimals_are_wide(id as nat);
    let n = id as nat;
    reveal_with_fuel(digits, 5);
    assert(digits(n, 16, false).len() <= 4);
}

/// The line of a probe ends with what its vendor's first filter says, and with
/// nothing where no filter has the vendor.
pub proof fn law_first_filter_names_vendor(filters: Seq<ProbeFilter>, vid: u16, k: int)
    requires
        0 <= k <= filters.len(),
        forall|j: int| 0 <= j < k ==> (#[trigger] filters[j]).vid != vid,
        k < filters.len() ==> filters[k].vid == vid,
    ensures
        k == filters.len() ==> vendor_note(filters, vid).len() == 0,
        k < filters.len() ==> vendor_note(filters, vid) == (match filters[k].comment {
            Some(comment) => "  ["@ + vendor_of(comment@) + "]"@,
            None => "  [known CMSIS-DAP vendor]"@,
        }),
    decreases filters.len(),
{
    if filters.len() > 0 && k > 0 {
        assert(filters[0].vid != vid);
        let rest = filters.drop_first();
        assert forall|j: int| 0 <= j < k - 1 implies (#[trigger] rest[j]).vid != vid by {
            assert(rest[j] == filters[j + 1]);
        }
        law_first_filter_names_vendor(rest, vid, k - 1);
    }
}

/// A vendor's name is what a comment holds in front of its first em dash, or the
/// whole comment where it holds none, without white space at the ends.
pub proof fn law_vendor_stands_before_dash(front: Seq<char>, back: Seq<char>)
    requires
        !front.contains('\u{2014}'),
    ensures
        vendor_of(front) == trimmed(front),
        vendor_of(front + seq!['\u{2014}'] + back) == trimmed(front),
{
    assert forall|i: int| 0 <= i < front.len() implies #[trigger] front[i] != '\u{2014}' by {
        assert(front.contains(front[i]));
    }
    lemma_split_none(front, '\u{2014}');
    lemma_split_once(front, '\u{2014}', back);
}

/// Every connected probe has a line of its own, in their order and counted from
/// zero. Where there is none, a line says so.
pub proof fn law_every_probe_has_a_line(probes: Seq<ProbeInfo>, filters: Seq<ProbeFilter>, i: int)
    ensures
        probe_lines(probes, filters)[0] == "Connected probes:"@,
        probes.len() == 0 ==> probe_lines(probes, filters) == seq![
            "Connected probes:"@,
            "  (none found)"@,
        ],
        probes.len() > 0 ==> probe_lines(probes, filters).len() == 1 + probes.len(),
        0 <= i < probes.len() ==> probe_lines(probes, filters)[1 + i] == probe_line(
            i as nat,
            probes[i],
            filters,
        ),
{
    let lines = probe_lines(probes, filters);
    if probes.len() == 0 {
        assert(lines =~= seq!["Connected probes:"@, "  (none found)"@]);
    }
}

/// The number of targets among the first `n` that have a description.
pub open spec fn described(targets: Seq<TargetSummary>, n: int) -> int
    decreases n,
{
    if n <= 0 {
        0
    } else {
        described(targets, n - 1) + if targets[n - 1].description@.len() == 0 {
            0int
        } else {
            1
        }
    }
}

/// Every target has a line with its id, its name and its capabilities, in the
/// order of the targets, and a second line where it has a description.
pub proof fn law_every_target_has_a_line(targets: Seq<TargetSummary>, i: int)
    requires
        0 <= i < targets.len(),
    ensures
        ({
            let lines = targets_lines(targets);
            let place = 2 + i + described(targets, i);
            &&& lines.len() == 2 + targets.len() + described(targets, targets.len() as int)
            &&& lines[0].len() == 0
            &&& lines[1] == "Available targets:"@
            &&& 2 <= place < lines.len()
            &&& lines[place] == "  "@ + targets[i].id@ + " \u{2014} "@ + targets[i].name@ + " ["@
                + joined(targets[i].capabilities@, ", "@) + "]"@
            &&& targets[i].description@.len() > 0 ==> place + 1 < lines.len() && lines[place + 1]
                == "       "@ + targets[i].description@
        }),
    decreases targets.len(),
{
    let last = targets.len() - 1;
    let fewer = targets.drop_last();
    lemma_lines(targets);
    lemma_described(targets, fewer, last);
    lemma_described(targets, fewer, i);
    assert(targets_lines(targets) == targets_lines(fewer) + target_lines(targets.last()));
    lemma_lines(fewer);
    if i < last {
        law_every_target_has_a_line(fewer, i);
    }
}

proof fn lemma_described(targets: Seq<TargetSummary>, fewer: Seq<TargetSummary>, n: int)
    requires
        fewer == targets.drop_last(),
        n <= fewer.len(),
        targets.len() > 0,
    ensures
        described(targets, n) == described(fewer, n) >= 0,
    decreases n,
{
    if n > 0 {
        lemma_described(targets, fewer, n - 1);
    }
}

proof fn lemma_lines(targets: Seq<TargetSummary>)
    ensures
        targets_lines(targets).len() == 2 + targets.len() + described(
            targets,
            targets.len() as int,
        ),
        targets_lines(targets).len() >= 2,
        targets_lines(targets)[0].len() == 0,
        targets_lines(targets)[1] == "Available targets:"@,
    decreases targets.len(),
{
    if targets.len() > 0 {
        let fewer = targets.drop_last();
        lemma_lines(fewer);
        lemma_described(targets, fewer, targets.len() - 1);
    }
}

} // verus!
