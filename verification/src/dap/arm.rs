//! When a transfer of an Access Port register is tried again.
//!
//! Only transfers that a flaky wire may have spoiled are tried again. A failure
//! that another attempt cannot mend (a bad address, the wrong kind of Access
//! Port) surfaces at once.

use vstd::prelude::*;

verus! {

/// Number of attempts for a single transfer.
pub const RETRY_COUNT: usize = 3;

/// Delay between attempts, in milliseconds.
pub const RETRY_DELAY: u64 = 50;

/// What kind of failure ended a transfer.
#[derive(Clone, Copy, Debug, PartialEq, Eq, Structural)]
pub enum Fault {
    /// The operation needs another architecture.
    ArchitectureRequired,
    /// The address does not fit in 32 bits.
    AddressOutOf32BitAddressSpace,
    /// The target is no ARM device.
    NoArmTarget,
    /// The probe has to be attached anew.
    ReAttachRequired,
    /// A permission is missing.
    MissingPermissions,
    /// The address is not aligned.
    MemoryNotAligned,
    /// The address lies outside the Access Port.
    OutOfBounds,
    /// The transfer width is not supported.
    UnsupportedTransferWidth,
    /// There is no such Access Port.
    ApDoesNotExist,
    /// The Access Port has the wrong version.
    WrongApVersion,
    /// The Access Port has the wrong type.
    WrongApType,
    /// Any other failure.
    Other,
}

/// What to do after an attempt that failed.
#[derive(Clone, Copy, Debug, PartialEq, Eq, Structural)]
pub enum Retry {
    /// Wait for this many milliseconds, and try again.
    After(u64),
    /// Report the failure.
    GiveUp,
}

/// Tells whether a failure is plausibly transient, so that another attempt may
/// succeed.
pub fn is_transient(fault: Fault) -> (r: bool)
    ensures
        r == (fault == Fault::Other),
{
    match fault {
        Fault::Other => true,
        _ => false,
    }
}

/// What follows when attempt number `attempt`, counted from 0, fails.
pub open spec fn verdict(attempt: nat, fault: Fault) -> Retry {
    if fault == Fault::Other && attempt + 1 < RETRY_COUNT {
        Retry::After(RETRY_DELAY)
    } else {
        Retry::GiveUp
    }
}

/// Decides what follows when attempt number `attempt`, counted from 0, fails.
pub fn with_retry(attempt: usize, fault: Fault) -> (r: Retry)
    ensures
        r == verdict(attempt as nat, fault),
{
    if is_transient(fault) && attempt < RETRY_COUNT - 1 {
        Retry::After(RETRY_DELAY)
    } else {
        Retry::GiveUp
    }
}

/// The number of attempts that are made from attempt number `attempt` on, where
/// the attempt with number `k` meets `outcomes[k]`: a failure, or success.
pub open spec fn attempts(outcomes: spec_fn(nat) -> Option<Fault>, attempt: nat) -> nat
    decreases RETRY_COUNT - attempt,
{
    match outcomes(attempt) {
        None => 1,
        Some(fault) => if verdict(attempt, fault) == Retry::GiveUp {
            1
        } else {
            1 + attempts(outcomes, attempt + 1)
        },
    }
}

/// A transfer is attempted three times at most. It is attempted more than once
/// only where the first failure is transient, and three times only where the
/// first two are.
pub proof fn law_attempts(outcomes: spec_fn(nat) -> Option<Fault>)
    ensures
        1 <= attempts(outcomes, 0) <= RETRY_COUNT,
        attempts(outcomes, 0) > 1 <==> outcomes(0) == Some(Fault::Other),
        attempts(outcomes, 0) > 2 <==> outcomes(0) == Some(Fault::Other) && outcomes(1) == Some(
            Fault::Other,
        ),
{
    reveal_with_fuel(attempts, 4);
}

} // verus!
