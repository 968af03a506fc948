//! Debug probes: what is known of them, and which one to open.

pub mod arm;
pub mod io;
pub mod memory;
pub mod run;

use vstd::prelude::*;
use vstd::string::*;

use crate::error::Error;
use crate::text::{
    IntError, digit_of, hex04, int_value, law_number_reads_back, lemma_split_none, lemma_split_once,
    push_padded, split_once,
};

verus! {

/// Options controlling probe selection and configuration.
#[derive(Debug)]
pub struct ProbeOptions {
    /// Optional probe selector, for example `2886:000c` or `vid:pid:serial`.
    pub selector: Option<String>,
    /// Optional SWD clock speed in kHz.
    pub speed_khz: Option<u32>,
}

impl Clone for ProbeOptions {
    fn clone(&self) -> (r: ProbeOptions)
        ensures
            r == *self,
    {
        ProbeOptions { selector: self.selector.clone(), speed_khz: self.speed_khz }
    }
}

impl Default for ProbeOptions {
    fn default() -> (r: ProbeOptions)
        ensures
            r == (ProbeOptions { selector: None, speed_khz: None }),
    {
        ProbeOptions { selector: None, speed_khz: None }
    }
}

/// A connected debug probe.
#[derive(Debug)]
pub struct ProbeInfo {
    /// The name of the probe.
    pub identifier: String,
    /// The USB vendor id.
    pub vendor_id: u16,
    /// The USB product id.
    pub product_id: u16,
    /// The serial number, where the probe has one.
    pub serial_number: Option<String>,
}

/// Which probe to open.
#[derive(Debug)]
pub struct ProbeSelector {
    /// The USB vendor id.
    pub vendor_id: u16,
    /// The USB product id.
    pub product_id: u16,
    /// The USB interface, where it matters.
    pub interface: Option<u8>,
    /// The serial number, where it matters.
    pub serial_number: Option<String>,
}

/// What a selector says.
pub struct SelectorView {
    pub vendor_id: nat,
    pub product_id: nat,
    pub interface: Option<nat>,
    pub serial_number: Option<Seq<char>>,
}

impl View for ProbeSelector {
    type V = SelectorView;

    open spec fn view(&self) -> SelectorView {
        SelectorView {
            vendor_id: self.vendor_id as nat,
            product_id: self.product_id as nat,
            interface: match self.interface {
                Some(n) => Some(n as nat),
                None => None,
            },
            serial_number: match self.serial_number {
                Some(serial) => Some(serial@),
                None => None,
            },
        }
    }
}

/// What `probe_rs` says of a text that is not made of the parts of a selector.
pub open spec fn format_complaint() -> Seq<char> {
    "The format of the selector is invalid. Please use a string in the form `VID:PID<-Interface>:<Serial>`, where Serial  and Interface are optional."@
}

/// What `probe_rs` says of a part of a selector that is no number.
pub open spec fn number_complaint(e: IntError) -> Seq<char> {
    "Could not parse VID or PID: "@ + e.text()
}

/// The selector that a text writes as `VID:PID`, with an optional `-INTERFACE`
/// behind it and an optional `:SERIAL` behind that: the ids in hexadecimal, the
/// interface in decimal, and the serial number as it stands. For any other text,
/// what is said of it: the interface is looked at first, then the vendor.
pub open spec fn selector_of(text: Seq<char>) -> Result<SelectorView, Seq<char>> {
    match split_once(text, ':') {
        None => Err(format_complaint()),
        Some((vendor, rest)) => {
            let (product, serial_number) = match split_once(rest, ':') {
                Some((product, serial)) => (product, Some(serial)),
                None => (rest, None),
            };
            let (id, number) = match split_once(product, '-') {
                Some((id, number)) => (id, number),
                None => (product, Seq::empty()),
            };
            let interface = if number.len() == 0 {
                Ok(None)
            } else {
                match int_value(number, 10, 0xFF) {
                    Ok(n) => Ok(Some(n)),
                    Err(e) => Err(e),
                }
            };
            match (interface, int_value(vendor, 16, 0xFFFF), int_value(id, 16, 0xFFFF)) {
                (Err(e), _, _) => Err(number_complaint(e)),
                (_, Err(e), _) => Err(number_complaint(e)),
                (_, _, Err(e)) => Err(number_complaint(e)),
                (Ok(interface), Ok(vendor_id), Ok(product_id)) => Ok(
                    SelectorView { vendor_id, product_id, interface, serial_number },
                ),
            }
        },
    }
}

/// Reads a selector with `probe_rs::probe::DebugProbeSelector`'s `from_str`. It
/// splits the text at the first two colons and the product at its first hyphen,
/// reads the interface, unless it is empty, as decimal `u8` and the ids as
/// hexadecimal `u16`, in that order, and keeps the serial number. Its error is
/// told in one of two ways, which show whether a part is missing or no number.
#[verifier::external_body]
fn parse_selector(text: &str) -> (r: Result<ProbeSelector, String>)
    ensures
        match r {
            Ok(selector) => selector_of(text@) == Ok::<SelectorView, Seq<char>>(selector@),
            Err(reason) => selector_of(text@) == Err::<SelectorView, Seq<char>>(reason@),
        },
{
    match text.parse::<probe_rs::probe::DebugProbeSelector>() {
        Ok(selector) => Ok(
            ProbeSelector {
                vendor_id: selector.vendor_id,
                product_id: selector.product_id,
                interface: selector.interface,
                serial_number: selector.serial_number,
            },
        ),
        Err(e) => Err(e.to_string()),
    }
}

/// The selector of a probe: `vid:pid` or `vid:pid:serial`, in hexadecimal.
pub open spec fn selector_text(
    vendor_id: nat,
    product_id: nat,
    serial_number: Option<String>,
) -> Seq<char> {
    hex04(vendor_id) + ":"@ + hex04(product_id) + match serial_number {
        Some(serial) => ":"@ + serial@,
        None => Seq::empty(),
    }
}

/// Builds the selector of a probe.
pub fn selector_string(info: &ProbeInfo) -> (r: String)
    ensures
        r@ == selector_text(info.vendor_id as nat, info.product_id as nat, info.serial_number),
{
    let mut out = String::new();
    push_padded(&mut out, info.vendor_id as u64, 16, false, 4);
    out.append(":");
    push_padded(&mut out, info.product_id as u64, 16, false, 4);
    if let Some(serial) = &info.serial_number {
        out.append(":");
        out.append(serial.as_str());
    }
    assert(out@ =~= selector_text(
        info.vendor_id as nat,
        info.product_id as nat,
        info.serial_number,
    ));
    out
}

/// The selector that is built for a probe is well formed, and selects that
/// probe's ids and serial number.
pub proof fn law_selector_selects(
    vendor_id: nat,
    product_id: nat,
    serial_number: Option<String>,
)
    requires
        vendor_id <= 0xFFFF,
        product_id <= 0xFFFF,
    ensures
        selector_of(selector_text(vendor_id, product_id, serial_number)) == Ok::<
            SelectorView,
            Seq<char>,
        >(
            SelectorView {
                vendor_id,
                product_id,
                interface: None,
                serial_number: match serial_number {
                    Some(serial) => Some(serial@),
                    None => None,
                },
            },
        ),
{
    reveal_strlit(":");
    assert(":"@ =~= seq![':']);
    let vendor = hex04(vendor_id);
    let product = hex04(product_id);
    law_number_reads_back(vendor_id, 16, false, 4, 0xFFFF);
    law_number_reads_back(product_id, 16, false, 4, 0xFFFF);
    assert(digit_of(':', 16) is None && digit_of('-', 16) is None);
    lemma_split_none(product, '-');
    let text = selector_text(vendor_id, product_id, serial_number);
    match serial_number {
        Some(serial) => {
            let rest = product + seq![':'] + serial@;
            assert(text =~= vendor + seq![':'] + rest);
            lemma_split_once(vendor, ':', rest);
            lemma_split_once(product, ':', serial@);
        },
        None => {
            assert(text =~= vendor + seq![':'] + product);
            lemma_split_once(vendor, ':', product);
            lemma_split_none(product, ':');
        },
    }
}

/// Chooses the probe to open: the one that the options select, else the first of
/// those that are connected.
pub fn choose_probe(options: &ProbeOptions, probes: &Vec<ProbeInfo>) -> (r: Result<
    ProbeSelector,
    Error,
>)
    ensures
        match options.selector {
            Some(text) => match selector_of(text@) {
                Ok(view) => r matches Ok(selector) && selector@ == view,
                Err(why) => r matches Err(Error::InvalidSelector { selector, reason }) && selector
                    == text && reason@ == why,
            },
            None => if probes@.len() == 0 {
                r matches Err(Error::NoProbes)
            } else {
                r matches Ok(selector) && selector@ == (SelectorView {
                    vendor_id: probes@[0].vendor_id as nat,
                    product_id: probes@[0].product_id as nat,
                    interface: None,
                    serial_number: match probes@[0].serial_number {
                        Some(serial) => Some(serial@),
                        None => None,
                    },
                })
            },
        },
{
    let text = match &options.selector {
        Some(text) => text.clone(),
        None => {
            if probes.len() == 0 {
                return Err(Error::NoProbes);
            }
            proof {
                law_selector_selects(
                    probes@[0].vendor_id as nat,
                    probes@[0].product_id as nat,
                    probes@[0].serial_number,
                );
            }
            selector_string(&probes[0])
        },
    };
    match parse_selector(text.as_str()) {
        Ok(selector) => Ok(selector),
        Err(reason) => Err(Error::InvalidSelector { selector: text, reason }),
    }
}

} // verus!
