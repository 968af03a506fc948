//! What a target definition holds.

use vstd::prelude::*;
use vstd::string::*;

use crate::error::Controller;
use crate::json::{Json, json_of, json_text, write_json};
use crate::text::{dec, push_dec, same_text};
use crate::util::{parse_u64_maybe_hex, u64_error, u64_value};

verus! {

/// Top-level target MCU definition.
#[derive(Debug)]
pub struct TargetConfig {
    /// Canonical target id, for example `nordic/nrf54/nrf54l15`.
    pub id: String,
    /// Human-readable name, for example `nRF54L15`.
    pub name: String,
    /// Platform handler key, for example `nordic`.
    pub platform: String,
    /// CPU core identifier, for example `cortex-m33`.
    pub cpu: Option<String>,
    /// Expected CPU TAP id, for information.
    pub cputapid: Option<String>,
    /// Control Access Port configuration (Nordic).
    pub ctrl_ap: Option<CtrlAp>,
    /// Codes of the ERASEALLSTATUS register (Nordic).
    pub erase_all_status: Option<EraseAllStatus>,
    /// Flash controller configuration.
    pub flash_controller: Option<FlashController>,
    /// Flash memory region.
    pub flash: Option<MemoryRegion>,
    /// SRAM region, the default area of an RTT scan.
    pub sram: Option<SramRegion>,
    /// Supported capabilities, for example `recover` or `flash`.
    pub capabilities: Vec<String>,
    /// Free-form description.
    pub description: Option<String>,
}

/// Nordic Control Access Port configuration.
#[derive(Clone, Copy, Debug)]
pub struct CtrlAp {
    /// AP index of the CTRL-AP.
    pub num: u8,
    /// Expected CTRL-AP IDR value.
    pub idr: u32,
}

/// What the values of the ERASEALLSTATUS register mean.
#[derive(Clone, Copy, Debug)]
pub struct EraseAllStatus {
    pub ready: u32,
    pub ready_to_reset: u32,
    pub busy: u32,
    pub error: u32,
}

/// Flash controller description (RRAMC for nRF54, NVMC for nRF52).
#[derive(Debug)]
pub struct FlashController {
    /// Controller type: `rramc` or `nvmc`.
    pub kind: String,
    /// Controller register base address.
    pub base: u64,
    /// Named register offsets.
    pub registers: Option<FlashRegisters>,
}

/// RRAMC register set.
#[derive(Clone, Copy, Debug)]
pub struct FlashRegisters {
    pub config: ConfigRegister,
    pub ready: OffsetRegister,
    pub ready_next: Option<OffsetRegister>,
}

/// A configuration register with an enable value.
#[derive(Clone, Copy, Debug)]
pub struct ConfigRegister {
    pub offset: u64,
    pub enable_value: u32,
}

/// A register addressed by its offset alone.
#[derive(Clone, Copy, Debug)]
pub struct OffsetRegister {
    pub offset: u64,
}

/// A flash memory region.
#[derive(Clone, Copy, Debug)]
pub struct MemoryRegion {
    pub address: u64,
    pub size: u64,
}

/// An SRAM region with an optional debugger work area size.
#[derive(Clone, Copy, Debug)]
pub struct SramRegion {
    pub address: u64,
    pub work_area_size: Option<u64>,
}

impl TargetConfig {
    /// Whether the target lists the capability.
    pub open spec fn lists(self, capability: Seq<char>) -> bool {
        exists|i: int|
            0 <= i < self.capabilities@.len() && #[trigger] self.capabilities@[i]@ == capability
    }

    /// Whether two definitions say the same.
    pub open spec fn same(self, other: TargetConfig) -> bool {
        &&& self.id == other.id
        &&& self.name == other.name
        &&& self.platform == other.platform
        &&& self.cpu == other.cpu
        &&& self.cputapid == other.cputapid
        &&& self.ctrl_ap == other.ctrl_ap
        &&& self.erase_all_status == other.erase_all_status
        &&& self.flash_controller == other.flash_controller
        &&& self.flash == other.flash
        &&& self.sram == other.sram
        &&& self.capabilities@ == other.capabilities@
        &&& self.description == other.description
    }

    /// Tells whether the target advertises the given capability.
    pub fn has_capability(&self, capability: &str) -> (r: bool)
        ensures
            r == self.lists(capability@),
    {
        let wanted = capability.to_owned();
        let mut i: usize = 0;
        while i < self.capabilities.len()
            invariant
                i <= self.capabilities@.len(),
                wanted@ == capability@,
                forall|k: int| 0 <= k < i ==> #[trigger] self.capabilities@[k]@ != capability@,
            decreases self.capabilities@.len() - i,
        {
            if self.capabilities[i] == wanted {
                assert(self.capabilities@[i as int]@ == capability@);
                return true;
            }
            i = i + 1;
        }
        false
    }
}

impl FlashController {
    /// The controller that a type names, where this crate can program it.
    pub open spec fn controller_of(kind: Seq<char>) -> Option<Controller> {
        if kind == "rramc"@ {
            Some(Controller::Rramc)
        } else if kind == "nvmc"@ {
            Some(Controller::Nvmc)
        } else {
            None
        }
    }

    /// The controller that the type names, where this crate can program it.
    pub fn controller(&self) -> (r: Option<Controller>)
        ensures
            r == FlashController::controller_of(self.kind@),
    {
        if same_text(self.kind.as_str(), "rramc") {
            Some(Controller::Rramc)
        } else if same_text(self.kind.as_str(), "nvmc") {
            Some(Controller::Nvmc)
        } else {
            None
        }
    }
}

impl Clone for FlashController {
    fn clone(&self) -> (r: Self)
        ensures
            r == *self,
    {
        FlashController { kind: self.kind.clone(), base: self.base, registers: self.registers }
    }
}

impl Clone for TargetConfig {
    fn clone(&self) -> (r: Self)
        ensures
            r.same(*self),
    {
        let capabilities = self.capabilities.clone();
        assert(capabilities@ =~= self.capabilities@);
        TargetConfig {
            id: self.id.clone(),
            name: self.name.clone(),
            platform: self.platform.clone(),
            cpu: self.cpu.clone(),
            cputapid: self.cputapid.clone(),
            ctrl_ap: self.ctrl_ap,
            erase_all_status: self.erase_all_status,
            flash_controller: self.flash_controller.clone(),
            flash: self.flash,
            sram: self.sram,
            capabilities,
            description: self.description.clone(),
        }
    }
}

/// The unsigned integer that a document holds as a number or as a decimal or
/// hexadecimal text, or what is said of one that holds none. `text` is how the
/// document is written.
pub open spec fn u64_of(document: Json, text: Seq<char>) -> Result<nat, Seq<char>> {
    match document {
        Json::Text(s) => match u64_value(s) {
            Ok(n) => Ok(n),
            Err(e) => Err(u64_error(s, e)),
        },
        Json::Number(Some(n)) => Ok(n as nat),
        Json::Number(None) => Err("expected an unsigned integer, got "@ + text),
        _ => Err("expected string or number, got "@ + text),
    }
}

/// The unsigned integer of at most `max` that a document holds, or what is said
/// of one that holds none.
pub open spec fn int_of(document: Json, text: Seq<char>, max: nat) -> Result<nat, Seq<char>> {
    match u64_of(document, text) {
        Ok(n) => if n <= max {
            Ok(n)
        } else {
            Err(
                "value "@ + dec(n)
                    + " out of range: out of range integral type conversion attempted"@,
            )
        },
        Err(e) => Err(e),
    }
}

/// Coerces a JSON value into a `u64`, from a number or from a decimal or
/// hexadecimal text.
pub fn value_to_u64(value: &serde_json::Value) -> (r: Result<u64, String>)
    ensures
        match r {
            Ok(n) => u64_of(json_of(*value), json_text(*value)) == Ok::<nat, Seq<char>>(n as nat),
            Err(e) => u64_of(json_of(*value), json_text(*value)) == Err::<nat, Seq<char>>(e@),
        },
{
    if let Some(s) = value.as_str() {
        return parse_u64_maybe_hex(s);
    }
    let mut message = "expected string or number, got ".to_owned();
    if value.is_number() {
        match value.as_u64() {
            Some(n) => return Ok(n),
            None => {
                message = "expected an unsigned integer, got ".to_owned();
            },
        }
    }
    message.append(write_json(value).as_str());
    Err(message)
}

/// Reads an integer of at most `max`, which may be encoded as a JSON number or as
/// a decimal or hexadecimal text.
pub fn de_int(value: &serde_json::Value, max: u64) -> (r: Result<u64, String>)
    ensures
        match r {
            Ok(n) => int_of(json_of(*value), json_text(*value), max as nat) == Ok::<
                nat,
                Seq<char>,
            >(n as nat),
            Err(e) => int_of(json_of(*value), json_text(*value), max as nat) == Err::<
                nat,
                Seq<char>,
            >(e@),
        },
{
    let n: u64 = match value_to_u64(value) {
        Ok(n) => n,
        Err(e) => return Err(e),
    };
    if n <= max {
        Ok(n)
    } else {
        let mut message = "value ".to_owned();
        push_dec(&mut message, n);
        message.append(" out of range: out of range integral type conversion attempted");
        Err(message)
    }
}

/// Like [`de_int`], for a field that may be null.
pub fn de_int_opt(value: &serde_json::Value, max: u64) -> (r: Result<Option<u64>, String>)
    ensures
        match r {
            Ok(None) => json_of(*value) is Null,
            Ok(Some(n)) => {
                &&& json_of(*value) !is Null
                &&& int_of(json_of(*value), json_text(*value), max as nat) == Ok::<
                    nat,
                    Seq<char>,
                >(n as nat)
            },
            Err(e) => {
                &&& json_of(*value) !is Null
                &&& int_of(json_of(*value), json_text(*value), max as nat) == Err::<
                    nat,
                    Seq<char>,
                >(e@)
            },
        },
{
    if value.is_null() {
        return Ok(None);
    }
    match de_int(value, max) {
        Ok(n) => Ok(Some(n)),
        Err(e) => Err(e),
    }
}

} // verus!
