//! What is said of values is what they hold.

use vstd::prelude::*;
use vstd::string::*;

use crate::dap::ProbeSelector;
use crate::error::{Controller, Error};
use crate::hex::{Segment, segment_views};
use crate::json::{json_of, jsons_of};
use crate::platform::{PlatformHandler, Progress};
use crate::platform::nordic::NordicHandler;
use crate::rtt::{Rtt, RttView, bytes_result, session_result};
use crate::targets::definition::FlashController;
use crate::targets::probe_filters::{
    ProbeFilter, SkipReason, SkipView, SkippedEntry, filter_views, skipped_views,
};

verus! {

/// What a transfer gave is what is said of its result.
pub proof fn law_results_keep_values(
    bytes: Result<Vec<u8>, Error>,
    session: Result<Rtt, Error>,
)
    ensures
        match bytes {
            Ok(list) => bytes_result(bytes) == Ok::<Seq<u8>, Error>(list@),
            Err(e) => bytes_result(bytes) == Err::<Seq<u8>, Error>(e),
        },
        match session {
            Ok(rtt) => session_result(session) == Ok::<RttView, Error>(rtt@),
            Err(e) => session_result(session) == Err::<RttView, Error>(e),
        },
{
}

/// What is said of lists says it of each item, in their order.
pub proof fn law_lists_keep_items(
    values: Seq<serde_json::Value>,
    filters: Seq<ProbeFilter>,
    skipped: Seq<SkippedEntry>,
    i: int,
)
    ensures
        jsons_of(values).len() == values.len(),
        0 <= i < values.len() ==> jsons_of(values)[i] == json_of(values[i]),
        filter_views(filters).len() == filters.len(),
        0 <= i < filters.len() ==> filter_views(filters)[i].vid == filters[i].vid,
        0 <= i < filters.len() ==> match filters[i].comment {
            Some(comment) => filter_views(filters)[i].comment == Some(comment@),
            None => filter_views(filters)[i].comment is None,
        },
        skipped_views(skipped).len() == skipped.len(),
        0 <= i < skipped.len() ==> skipped_views(skipped)[i].0 == skipped[i].index,
        0 <= i < skipped.len() ==> match skipped[i].reason {
            SkipReason::MissingVid => skipped_views(skipped)[i].1 == SkipView::MissingVid,
            SkipReason::InvalidEntry => skipped_views(skipped)[i].1 == SkipView::InvalidEntry,
            SkipReason::InvalidVid { vid } => skipped_views(skipped)[i].1 == (
            SkipView::InvalidVid { vid: vid@ }),
        },
{
}

/// What is said of segments says it of each, in their order.
pub proof fn law_segments_keep_bytes(segments: Seq<Segment>, i: int)
    ensures
        segment_views(segments).len() == segments.len(),
        0 <= i < segments.len() ==> segment_views(segments)[i].address == segments[i].address,
        0 <= i < segments.len() ==> segment_views(segments)[i].bytes == segments[i].bytes@,
{
}

/// What is said of a selector is what it selects by.
pub proof fn law_selectors_keep_parts(selector: ProbeSelector)
    ensures
        selector@.vendor_id == selector.vendor_id,
        selector@.product_id == selector.product_id,
        match selector.interface {
            Some(n) => selector@.interface == Some(n as nat),
            None => selector@.interface is None,
        },
        match selector.serial_number {
            Some(serial) => selector@.serial_number == Some(serial@),
            None => selector@.serial_number is None,
        },
{
}

/// A report of progress is one between 0 and 100 percent.
pub proof fn law_progress_is_bounded(progress: Progress)
    ensures
        progress.sound() <==> progress.from <= progress.to && progress.to <= 100 && progress.done
            <= progress.total && progress.total > 0,
{
}

/// The registers that programming needs can be addressed exactly if their
/// addresses lie in memory.
pub proof fn law_registers_fit_in_memory(handler: NordicHandler)
    ensures
        handler.config().flash_controller is None ==> handler.registers_fit(),
        handler.config().flash_controller matches Some(fc) ==> {
            &&& fc.kind@ == "nvmc"@ ==> (handler.registers_fit() <==> fc.base + 0x504 <= u64::MAX)
            &&& fc.kind@ == "rramc"@ ==> (handler.registers_fit() <==> (fc.registers matches Some(
                regs,
            ) ==> fc.base + regs.config.offset <= u64::MAX && fc.base + regs.ready.offset
                <= u64::MAX))
            &&& fc.kind@ != "nvmc"@ && fc.kind@ != "rramc"@ ==> handler.registers_fit()
        },
{
    reveal_strlit("nvmc");
    reveal_strlit("rramc");
    assert("nvmc"@.len() == 4 && "rramc"@.len() == 5);
}

/// A flash controller is known by two types, and by no other.
pub proof fn law_controllers_have_types(kind: Seq<char>)
    ensures
        FlashController::controller_of(kind) == Some(Controller::Rramc) <==> kind == "rramc"@,
        FlashController::controller_of(kind) == Some(Controller::Nvmc) <==> kind == "nvmc"@,
        FlashController::controller_of(kind) is None <==> kind != "rramc"@ && kind != "nvmc"@,
{
    reveal_strlit("nvmc");
    reveal_strlit("rramc");
    assert("nvmc"@.len() == 4 && "rramc"@.len() == 5);
}

} // verus!
