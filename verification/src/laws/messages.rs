//! What is said of errors and warnings: the names and numbers in a message are
//! those of the error.

use vstd::prelude::*;
use vstd::string::*;

use crate::error::{Controller, Error};
use crate::hex::HexError;
use crate::json::Json;
use crate::laws::text::{
    all_digits, law_decimals_are_plain, law_hexadecimals_are_wide,
    law_numbers_are_written_in_digits, places,
};
use crate::platform::{Phase, Warning};
use crate::targets::definition::{int_of, u64_of};
use crate::targets::probe_filters::{SkipReason, SkippedEntry};
use crate::text::{IntError, dec, hex08, joined, padded};

verus! {

/// Whether `digits` write `n` in decimal.
pub open spec fn writes(digits: Seq<char>, n: int) -> bool {
    &&& digits.len() > 0
    &&& all_digits(digits, 10)
    &&& places(digits, 10) == n
    &&& digits.len() > 1 ==> digits[0] != '0'
}

/// Whether `digits` write `n` in upper-case hexadecimal of at least `width` digits.
pub open spec fn writes_hex(digits: Seq<char>, n: int, width: int) -> bool {
    &&& digits.len() >= width
    &&& digits.len() > width ==> digits[0] != '0'
    &&& all_digits(digits, 16)
    &&& places(digits, 16) == n
    &&& forall|i: int|
        0 <= i < digits.len() ==> !('a' as int <= #[trigger] digits[i] as int <= 'f' as int)
}

/// Whether a message is a number in decimal between two texts.
pub open spec fn number_in(
    message: Seq<char>,
    before: Seq<char>,
    n: int,
    after: Seq<char>,
) -> bool {
    exists|digits: Seq<char>| #[trigger] writes(digits, n) && message == before + digits + after
}

/// Whether a message is an address in hexadecimal between two texts.
pub open spec fn address_in(
    message: Seq<char>,
    before: Seq<char>,
    n: int,
    after: Seq<char>,
) -> bool {
    exists|digits: Seq<char>|
        #[trigger] writes_hex(digits, n, 8) && message == before + digits + after
}

proof fn lemma_number_in(before: Seq<char>, n: nat, after: Seq<char>)
    ensures
        number_in(before + dec(n) + after, before, n as int, after),
{
    law_decimals_are_plain(n);
    assert(writes(dec(n), n as int));
}

proof fn lemma_address_in(before: Seq<char>, n: nat, after: Seq<char>)
    ensures
        address_in(before + hex08(n) + after, before, n as int, after),
{
    law_hexadecimals_are_wide(n);
    assert(writes_hex(hex08(n), n as int, 8));
}

/// The numbers in the message of an error are those of the error.
pub proof fn law_errors_show_their_numbers(e: Error)
    ensures
        e matches Error::VerificationFailed { mismatches } ==> number_in(
            e.text(),
            "Verification failed: "@,
            mismatches as int,
            " byte mismatch(es)"@,
        ),
        e matches Error::NoUpBuffer { channel } ==> number_in(
            e.text(),
            "RTT up-buffer "@,
            channel as int,
            " does not exist"@,
        ),
        e matches Error::NoDownBuffer { channel } ==> number_in(
            e.text(),
            "RTT down-buffer "@,
            channel as int,
            " does not exist"@,
        ),
        e matches Error::FlashWrite { addr, .. } ==> address_in(
            e.text(),
            "Flash write failed at 0x"@,
            addr as int,
            seq![],
        ),
        e matches Error::VerifyRead { addr, .. } ==> address_in(
            e.text(),
            "Verify read failed at 0x"@,
            addr as int,
            seq![],
        ),
        e matches Error::ImplausibleBufferCounts { up, down } ==> counts_in(
            e.text(),
            up as int,
            down as int,
        ),
        e matches Error::Hex(HexError::SpanTooLarge { min, max }) ==> min <= max ==> span_in(
            e.text(),
            min as int,
            max as int,
        ),
{
    match e {
        Error::VerificationFailed { mismatches } => {
            lemma_number_in("Verification failed: "@, mismatches as nat, " byte mismatch(es)"@);
        },
        Error::NoUpBuffer { channel } => {
            lemma_number_in("RTT up-buffer "@, channel as nat, " does not exist"@);
        },
        Error::NoDownBuffer { channel } => {
            lemma_number_in("RTT down-buffer "@, channel as nat, " does not exist"@);
        },
        Error::FlashWrite { addr, .. } => {
            lemma_address_in("Flash write failed at 0x"@, addr as nat, seq![]);
            assert(e.text() =~= "Flash write failed at 0x"@ + hex08(addr as nat) + seq![]);
        },
        Error::VerifyRead { addr, .. } => {
            lemma_address_in("Verify read failed at 0x"@, addr as nat, seq![]);
            assert(e.text() =~= "Verify read failed at 0x"@ + hex08(addr as nat) + seq![]);
        },
        Error::ImplausibleBufferCounts { up, down } => {
            law_decimals_are_plain(up as nat);
            law_decimals_are_plain(down as nat);
            assert(writes(dec(up as nat), up as int) && writes(dec(down as nat), down as int));
        },
        Error::Hex(HexError::SpanTooLarge { min, max }) => {
            if min <= max {
                law_spans_are_told(min, max);
            }
        },
        _ => {},
    }
}

/// Whether a message shows two counts of buffers.
pub open spec fn counts_in(message: Seq<char>, up: int, down: int) -> bool {
    exists|a: Seq<char>, b: Seq<char>|
        #[trigger] writes(a, up) && #[trigger] writes(b, down) && message
            == "Implausible RTT buffer counts (up="@ + a + ", down="@ + b + "); aborting"@
}

/// Whether a message shows the span of an image.
pub open spec fn span_in(message: Seq<char>, min: int, max: int) -> bool {
    exists|a: Seq<char>, b: Seq<char>, n: Seq<char>, limit: Seq<char>|
        #[trigger] writes_hex(a, min, 8) && #[trigger] writes_hex(b, max, 8) && #[trigger] writes(
            n,
            max - min,
        ) && #[trigger] writes(limit, 268_435_456) && message == "HEX file spans 0x"@ + a + "..0x"@
            + b + " ("@ + n + " bytes), exceeding the "@ + limit
            + " byte limit; the file is likely sparse or corrupt"@
}

/// An image that is too large is told with its first address, the one behind its
/// last, the number of bytes in between and the limit of 256 MiB.
pub proof fn law_spans_are_told(min: u64, max: u64)
    requires
        min <= max,
    ensures
        span_in((HexError::SpanTooLarge { min, max }).text(), min as int, max as int),
{
    let size = (max - min) as nat;
    law_hexadecimals_are_wide(min as nat);
    law_hexadecimals_are_wide(max as nat);
    law_decimals_are_plain(size);
    law_decimals_are_plain(268_435_456);
    assert(writes_hex(hex08(min as nat), min as int, 8));
    assert(writes_hex(hex08(max as nat), max as int, 8));
    assert(writes(dec(size), max - min));
    assert(writes(dec(268_435_456), 268_435_456));
}

/// The names in the message of an error are those of the error.
pub proof fn law_errors_show_their_names(e: Error)
    ensures
        e matches Error::MissingCtrlAp { target } ==> e.text() == "target '"@ + target@
            + "' has no ctrlAp definition"@,
        e matches Error::MissingEraseAllStatus { target } ==> e.text() == "target '"@ + target@
            + "' has no eraseAllStatus definition"@,
        e matches Error::MissingFlashController { target } ==> e.text() == "target '"@ + target@
            + "' has no flashController definition"@,
        e matches Error::UnsupportedFlashController { target } ==> e.text()
            == "Unsupported flash controller type for target '"@ + target@ + "'"@,
        e matches Error::NoHandler { platform } ==> e.text()
            == "No platform handler registered for platform: "@ + platform@,
        e matches Error::ReadFirmware { path, .. } ==> e.text() == "Failed to read firmware file "@
            + path@,
        e matches Error::UnknownTarget { id, .. } ==> e.text() == "Unknown target: "@ + id@,
        e matches Error::InvalidTarget { id, .. } ==> e.text()
            == "Failed to parse target definition: "@ + id@,
        e matches Error::InvalidSelector { selector, .. } ==> e.text()
            == "Invalid --probe selector: "@ + selector@,
        e matches Error::Unsupported { target, capability, capabilities } ==> e.text()
            == "Target '"@ + target@ + "' does not support '"@ + capability@ + "' (capabilities: "@
            + joined(capabilities@, ", "@) + ")"@,
        e matches Error::ConfigWrite { controller, .. } ==> e.text() == (match controller {
            Controller::Rramc => "Failed to write "@ + "RRAMC"@ + " CONFIG"@,
            Controller::Nvmc => "Failed to write "@ + "NVMC"@ + " CONFIG"@,
        }),
        e matches Error::NotReady { controller } ==> e.text() == (match controller {
            Controller::Rramc => "RRAMC"@ + " did not report ready within the timeout"@,
            Controller::Nvmc => "NVMC"@ + " did not report ready within the timeout"@,
        }),
        e matches Error::Transfer(source) ==> e.text() == source.message@,
{
    reveal_strlit("");
    assert(""@ =~= Seq::<char>::empty());
    match e {
        Error::NoHandler { platform } => {
            assert(e.text() =~= "No platform handler registered for platform: "@ + platform@);
        },
        Error::ReadFirmware { path, .. } => {
            assert(e.text() =~= "Failed to read firmware file "@ + path@);
        },
        Error::UnknownTarget { id, .. } => {
            assert(e.text() =~= "Unknown target: "@ + id@);
        },
        Error::InvalidTarget { id, .. } => {
            assert(e.text() =~= "Failed to parse target definition: "@ + id@);
        },
        Error::InvalidSelector { selector, .. } => {
            assert(e.text() =~= "Invalid --probe selector: "@ + selector@);
        },
        Error::NotReady { controller } => {
            assert(e.text() =~= controller.text() + " did not report ready within the timeout"@);
        },
        _ => {},
    }
}

/// What an error was caused by stands behind a colon, and an error without a cause
/// ends with itself.
pub proof fn law_causes_are_told(e: Error)
    ensures
        e matches Error::ConfigWrite { source, .. } ==> e.full_text() == e.text() + ": "@
            + source.message@,
        e matches Error::FlashWrite { source, .. } ==> e.full_text() == e.text() + ": "@
            + source.message@,
        e matches Error::VerifyRead { source, .. } ==> e.full_text() == e.text() + ": "@
            + source.message@,
        e matches Error::ReconnectAfterRecovery { source } ==> e.full_text() == e.text() + ": "@
            + source.message@,
        e matches Error::ReconnectAfterReset { source } ==> e.full_text() == e.text() + ": "@
            + source.message@,
        e matches Error::ReadFirmware { reason, .. } ==> e.full_text() == e.text() + ": "@
            + reason@,
        e matches Error::Hex(HexError::Record { reason }) ==> e.full_text() == e.text() + ": "@
            + reason@,
        e matches Error::InvalidSelector { reason, .. } ==> e.full_text() == e.text() + ": "@
            + reason@,
        e matches Error::InvalidProbeFilters { reason } ==> e.full_text() == e.text() + ": "@
            + reason@,
        e matches Error::UnknownTarget { reason, .. } ==> e.full_text() == e.text() + ": "@
            + reason@,
        e matches Error::InvalidTarget { reason, .. } ==> e.full_text() == e.text() + ": "@
            + reason@,
        e matches Error::InvalidIndex { reason } ==> e.full_text() == e.text() + ": "@ + reason@,
        e is Transfer || e is VerificationFailed || e is Unsupported || e is NoHandler || e
            is EraseFailed || e is StillLocked || e is NotReady || e is ControlBlockNotFound || e
            is RttOutOfRange || e is NoProbes ==> e.full_text() == e.text(),
{
}

/// The numbers and names in a warning are those of what it warns of.
pub proof fn law_warnings_show_their_numbers(w: Warning)
    ensures
        w matches Warning::UnexpectedIdr { expected, .. } ==> address_in(
            w.text(),
            "Unexpected CTRL-AP IDR (expected 0x"@,
            expected as int,
            ")"@,
        ),
        w matches Warning::FlushFailed { addr, source } ==> address_in(
            w.text(),
            "Flash flush read-back failed at 0x"@,
            addr as int,
            ": "@ + source.message@,
        ),
        w matches Warning::Mismatch { addr, wanted, actual } ==> mismatch_in(
            w.text(),
            addr as int,
            wanted as int,
            actual as int,
        ),
        w matches Warning::ReconnectFailed { source } ==> w.text() == "Reconnect warning: "@
            + source.message@,
        w matches Warning::UnlockReconnectFailed { source } ==> w.text()
            == "Reinitialize during unlock retry failed: "@ + source.message@,
        w matches Warning::ConfigUnread { source } ==> w.text()
            == "Could not read back RRAMC CONFIG: "@ + source.message@,
{
    match w {
        Warning::UnexpectedIdr { expected, .. } => {
            lemma_address_in("Unexpected CTRL-AP IDR (expected 0x"@, expected as nat, ")"@);
        },
        Warning::FlushFailed { addr, source } => {
            let before = "Flash flush read-back failed at 0x"@;
            lemma_address_in(before, addr as nat, ": "@ + source.message@);
            assert(w.text() =~= before + hex08(addr as nat) + (": "@ + source.message@));
        },
        Warning::Mismatch { addr, wanted, actual } => {
            law_hexadecimals_are_wide(addr as nat);
            law_numbers_are_written_in_digits(wanted as nat, 16, true, 2);
            law_numbers_are_written_in_digits(actual as nat, 16, true, 2);
            let a = padded(wanted as nat, 16, true, 2);
            let b = padded(actual as nat, 16, true, 2);
            assert(writes_hex(hex08(addr as nat), addr as int, 8));
            assert(writes_hex(a, wanted as int, 2) && writes_hex(b, actual as int, 2));
        },
        _ => {},
    }
}

/// Whether a message shows a byte that differs: its address, the byte wanted and
/// the byte found.
pub open spec fn mismatch_in(message: Seq<char>, addr: int, wanted: int, actual: int) -> bool {
    exists|a: Seq<char>, b: Seq<char>, c: Seq<char>|
        #[trigger] writes_hex(a, addr, 8) && #[trigger] writes_hex(b, wanted, 2)
            && #[trigger] writes_hex(c, actual, 2) && message == "Verify mismatch at 0x"@ + a
            + ": expected 0x"@ + b + ", got 0x"@ + c
}

/// An entry that is passed over is told by its place, or by the id that is none.
pub proof fn law_skipped_entries_are_told(entry: SkippedEntry)
    ensures
        entry.reason is MissingVid ==> number_in(
            entry.text(),
            "Skipping probe-filters entry without `vid`: number "@,
            entry.index as int,
            seq![],
        ),
        entry.reason is InvalidEntry ==> number_in(
            entry.text(),
            "Skipping invalid probe-filters entry: number "@,
            entry.index as int,
            seq![],
        ),
        entry.reason matches SkipReason::InvalidVid { vid } ==> entry.text()
            == "Skipping invalid vendor id in probe-filters.json: "@ + vid@,
{
    let n = entry.index as nat;
    match entry.reason {
        SkipReason::MissingVid => {
            let before = "Skipping probe-filters entry without `vid`: number "@;
            lemma_number_in(before, n, seq![]);
            assert(entry.text() =~= before + dec(n) + seq![]);
        },
        SkipReason::InvalidEntry => {
            let before = "Skipping invalid probe-filters entry: number "@;
            lemma_number_in(before, n, seq![]);
            assert(entry.text() =~= before + dec(n) + seq![]);
        },
        _ => {},
    }
}

/// The three operations that report progress are told apart by their names.
pub proof fn law_phases_have_names(phase: Phase)
    ensures
        phase == Phase::Recover <==> phase.text() == "recover"@,
        phase == Phase::Flash <==> phase.text() == "flash"@,
        phase == Phase::Verify <==> phase.text() == "verify"@,
{
    reveal_strlit("recover");
    reveal_strlit("flash");
    reveal_strlit("verify");
    assert("recover"@.len() == 7 && "flash"@.len() == 5 && "verify"@.len() == 6);
}

/// What is said of errors without names and numbers.
pub proof fn law_plain_errors_are_told(e: Error)
    ensures
        e is MissingRegisters ==> e.text() == "RRAMC requires a registers definition"@,
        e is EraseFailed ==> e.text() == "Both mass erase and fallback erase failed"@,
        e is StillLocked ==> e.text() == "Device still appears locked after mass erase"@,
        e is ReconnectAfterRecovery ==> e.text() == "Reconnect after recovery failed"@,
        e is ReconnectAfterReset ==> e.text() == "Reconnect after reset failed"@,
        e is ControlBlockNotFound ==> e.text() == "RTT control block not found in scan range"@,
        e is InvalidProbeFilters ==> e.text() == "probe-filters.json is not valid JSON"@,
        e is InvalidIndex ==> e.text() == "Failed to parse index.json"@,
        e is NoProbes ==> e.text()
            == "No debug probes found. Connect a CMSIS-DAP probe and try again."@,
        e matches Error::Hex(HexError::NoData) ==> e.text() == "No data found in HEX file"@,
        e matches Error::Hex(HexError::Record { .. }) ==> e.text()
            == "Failed to parse Intel HEX record"@,
{
}

/// What is said of warnings without names and numbers, and of text that is no
/// number.
pub proof fn law_plain_warnings_are_told(w: Warning, e: IntError)
    ensures
        w is IdrUnread ==> w.text()
            == "Could not read CTRL-AP IDR; attempting mass erase anyway"@,
        w is EraseRetried ==> w.text()
            == "Mass erase failed; attempting fallback (reinit + retry)..."@,
        w is LockUnread ==> w.text()
            == "Could not read ERASEPROTECTSTATUS; unable to confirm unlock"@,
        w is MaybeLocked ==> w.text() == "Device may still be locked; retrying..."@,
        w is WriteNotEnabled ==> w.text() == "RRAMC WEN bit not set"@,
        e is Empty ==> e.text() == "cannot parse integer from empty string"@,
        e is InvalidDigit ==> e.text() == "invalid digit found in string"@,
        e is Overflow ==> e.text() == "number too large to fit in target type"@,
{
}

/// A number that is too large for its field is told.
pub proof fn law_large_fields_are_told(document: Json, text: Seq<char>, max: nat)
    requires
        u64_of(document, text) matches Ok(n) && n > max,
    ensures
        int_of(document, text, max) is Err,
        number_in(
            int_of(document, text, max)->Err_0,
            "value "@,
            u64_of(document, text)->Ok_0 as int,
            " out of range: out of range integral type conversion attempted"@,
        ),
{
    lemma_number_in(
        "value "@,
        u64_of(document, text)->Ok_0,
        " out of range: out of range integral type conversion attempted"@,
    );
}

} // verus!
