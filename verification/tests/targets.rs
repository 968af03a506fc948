//! Target definitions, the list of targets and the list of probe vendors.

use freeocd::error::Error;
use freeocd::targets::definition::{
    de_int, de_int_opt, value_to_u64, ConfigRegister, CtrlAp, EraseAllStatus, FlashController,
    FlashRegisters, MemoryRegion, OffsetRegister, SramRegion, TargetConfig,
};
use freeocd::targets::probe_filters::{
    filters_from, list_from, parse_filter_list, parse_probe_filters, parse_vid,
};
use freeocd::targets::{
    asset_path, list_targets, load_index, load_probe_filters, load_target, AssetError,
};
use serde_json::Value;

fn value(json: &str) -> Value {
    serde_json::from_str(json).expect("valid JSON")
}

fn strings(items: &[&str]) -> Vec<String> {
    items.iter().map(|s| s.to_string()).collect()
}

fn bare_target(id: &str, platform: &str) -> TargetConfig {
    TargetConfig {
        id: id.to_string(),
        name: id.to_uppercase(),
        platform: platform.to_string(),
        cpu: None,
        cputapid: None,
        ctrl_ap: None,
        erase_all_status: None,
        flash_controller: None,
        flash: None,
        sram: None,
        capabilities: vec![],
        description: None,
    }
}

fn text(v: &Value) -> String {
    v.as_str().expect("a string").to_string()
}

fn int64(v: &Value) -> u64 {
    de_int(v, u64::MAX).expect("an integer")
}

fn int32(v: &Value) -> u32 {
    de_int(v, u64::from(u32::MAX)).expect("an integer of 32 bits") as u32
}

/// Builds a definition from its JSON, with every integer read by the library.
fn definition(v: &Value) -> TargetConfig {
    TargetConfig {
        id: text(&v["id"]),
        name: text(&v["name"]),
        platform: text(&v["platform"]),
        cpu: Some(text(&v["cpu"])),
        cputapid: Some(text(&v["cputapid"])),
        ctrl_ap: Some(CtrlAp {
            num: de_int(&v["ctrlAp"]["num"], u64::from(u8::MAX)).expect("a byte") as u8,
            idr: int32(&v["ctrlAp"]["idr"]),
        }),
        erase_all_status: Some(EraseAllStatus {
            ready: int32(&v["eraseAllStatus"]["ready"]),
            ready_to_reset: int32(&v["eraseAllStatus"]["readyToReset"]),
            busy: int32(&v["eraseAllStatus"]["busy"]),
            error: int32(&v["eraseAllStatus"]["error"]),
        }),
        flash_controller: Some(FlashController {
            kind: text(&v["flashController"]["type"]),
            base: int64(&v["flashController"]["base"]),
            registers: Some(FlashRegisters {
                config: ConfigRegister {
                    offset: int64(&v["flashController"]["registers"]["config"]["offset"]),
                    enable_value: int32(&v["flashController"]["registers"]["config"]["enableValue"]),
                },
                ready: OffsetRegister {
                    offset: int64(&v["flashController"]["registers"]["ready"]["offset"]),
                },
                ready_next: Some(OffsetRegister {
                    offset: int64(&v["flashController"]["registers"]["readyNext"]["offset"]),
                }),
            }),
        }),
        flash: Some(MemoryRegion {
            address: int64(&v["flash"]["address"]),
            size: int64(&v["flash"]["size"]),
        }),
        sram: Some(SramRegion {
            address: int64(&v["sram"]["address"]),
            work_area_size: de_int_opt(&v["sram"]["workAreaSize"], u64::MAX).expect("an integer"),
        }),
        capabilities: v["capabilities"]
            .as_array()
            .expect("a list")
            .iter()
            .map(text)
            .collect(),
        description: Some(text(&v["description"])),
    }
}

const NRF54L15: &str = r#"{
    "id": "nordic/nrf54/nrf54l15",
    "name": "nRF54L15",
    "platform": "nordic",
    "cpu": "cortex-m33",
    "cputapid": "0x6ba02477",
    "ctrlAp": { "num": 2, "idr": "0x32880000" },
    "eraseAllStatus": { "ready": 0, "readyToReset": 1, "busy": 2, "error": 3 },
    "flashController": {
        "type": "rramc",
        "base": "0x5004B000",
        "registers": {
            "config": { "offset": "0x500", "enableValue": "0x101" },
            "ready": { "offset": "0x400" },
            "readyNext": { "offset": "0x404" }
        }
    },
    "flash": { "address": "0x00000000", "size": "0x0017D000" },
    "sram": { "address": "0x20000000", "workAreaSize": "0x4000" },
    "capabilities": ["recover", "flash", "verify", "rtt"],
    "description": "Nordic nRF54L15 (Cortex-M33, RRAMC)"
}"#;

/// A full nRF54L15 definition is read, decoding hex-string fields into integers
/// across the nested CTRL-AP / flash-controller / SRAM blocks.
#[test]
fn parses_nrf54l15_definition() {
    let cfg = definition(&value(NRF54L15));
    let ctrl = cfg.ctrl_ap.as_ref().unwrap();
    assert_eq!(ctrl.num, 2);
    assert_eq!(ctrl.idr, 0x3288_0000);

    let fc = cfg.flash_controller.as_ref().unwrap();
    assert_eq!(fc.kind, "rramc");
    assert_eq!(fc.base, 0x5004_B000);
    let regs = fc.registers.as_ref().unwrap();
    assert_eq!(regs.config.offset, 0x500);
    assert_eq!(regs.config.enable_value, 0x101);

    assert_eq!(cfg.sram.as_ref().unwrap().address, 0x2000_0000);
    assert_eq!(cfg.sram.as_ref().unwrap().work_area_size, Some(0x4000));
    assert!(cfg.has_capability("rtt"));
    assert!(!cfg.has_capability("RTT"));
    assert!(!cfg.has_capability(""));
}

/// The list of targets includes the nRF54L15 target id.
#[test]
fn embedded_index_lists_nrf54l15() {
    let ids = load_index(strings(&["nordic/nrf54/nrf54l15"]));
    assert!(ids.iter().any(|id| id == "nordic/nrf54/nrf54l15"));
}

/// The nRF54L15 definition loads and exposes its Nordic CTRL-AP block.
#[test]
fn embedded_target_loads() {
    let id = "nordic/nrf54/nrf54l15";
    let cfg = load_target(id, Ok(definition(&value(NRF54L15)))).expect("target loads");
    assert_eq!(cfg.platform, "nordic");
    assert!(cfg.ctrl_ap.is_some());
}

/// Valid bare-string and object entries are kept; entries without a usable
/// `vid` are skipped rather than failing the whole parse.
#[test]
fn parses_mixed_entries() {
    let json = r#"{
        "vendorIds": [
            "0x0D28",
            { "vid": "0x2886", "$comment": "SeeedStudio — XIAO" },
            { "$comment": "missing vid" },
            "not-a-vid"
        ]
    }"#;
    let filters = parse_probe_filters(json).unwrap();
    assert_eq!(filters.len(), 2);
    assert_eq!(filters[0].vid, 0x0D28);
    assert_eq!(filters[1].vid, 0x2886);
    assert!(filters[1].comment.as_deref().unwrap().contains("XIAO"));
    assert_eq!(filters[0].comment, None);
}

#[test]
fn filters_that_are_no_list_are_none() {
    for json in ["{}", "[]", "null", "3", r#"{ "vendorIds": "0x0D28" }"#] {
        assert!(filters_from(&value(json)).is_empty());
        assert!(parse_probe_filters(json).expect("valid JSON").is_empty());
    }
    // Entries of other kinds are passed over, and a comment that is no text is
    // left out.
    let mixed = value(r#"{ "vendorIds": [ 3, null, [], { "vid": 4 }, { "vid": "0x1", "$comment": 5 } ] }"#);
    let filters = filters_from(&mixed);
    assert_eq!(filters.len(), 1);
    assert_eq!(filters[0].vid, 1);
    assert_eq!(filters[0].comment, None);
}

#[test]
fn filters_that_are_no_json_are_an_error() {
    let err = parse_probe_filters("{").expect_err("not JSON");
    assert_eq!(err.message(), "probe-filters.json is not valid JSON");
    assert_eq!(
        err.full_message(),
        "probe-filters.json is not valid JSON: EOF while parsing an object at line 1 column 1"
    );
    assert!(load_probe_filters(Ok("{".to_string())).is_empty());
    assert!(load_probe_filters(Err("missing".to_string())).is_empty());
}

#[test]
fn vendor_ids_are_hexadecimal_of_16_bits() {
    assert_eq!(parse_vid("0x2886"), Some(0x2886));
    assert_eq!(parse_vid(" 0X0d28\n"), Some(0x0D28));
    assert_eq!(parse_vid("0xFFFF"), Some(0xFFFF));
    assert_eq!(parse_vid("0x10000"), None);
    assert_eq!(parse_vid("2886"), None);
    assert_eq!(parse_vid("0x"), None);
    assert_eq!(parse_vid("0x28G6"), None);
    assert_eq!(parse_vid(""), None);
}

#[test]
fn index_keeps_each_id_once_in_order() {
    assert_eq!(
        load_index(strings(&["b", "", "a", "b", "c", "a", ""])),
        strings(&["b", "a", "c"])
    );
    assert!(load_index(vec![]).is_empty());
}

#[test]
fn asset_path_is_the_id_with_a_suffix() {
    assert_eq!(asset_path("nordic/nrf54/nrf54l15"), "nordic/nrf54/nrf54l15.json");
}

#[test]
fn target_that_cannot_be_had_is_named() {
    let missing = AssetError::Missing { reason: "Embedded asset not found: x.json".to_string() };
    let err = load_target("x", Err(missing)).expect_err("no such target");
    assert_eq!(err.message(), "Unknown target: x");
    assert_eq!(err.full_message(), "Unknown target: x: Embedded asset not found: x.json");
    assert!(matches!(err, Error::UnknownTarget { .. }));

    let malformed = AssetError::Malformed { reason: "missing field `id`".to_string() };
    let err = load_target("x", Err(malformed)).expect_err("malformed");
    assert_eq!(err.full_message(), "Failed to parse target definition: x: missing field `id`");
    assert!(matches!(err, Error::InvalidTarget { .. }));

    let err = Error::InvalidIndex { reason: "why".to_string() };
    assert_eq!(err.full_message(), "Failed to parse index.json: why");
}

#[test]
fn targets_that_fail_to_load_are_passed_over() {
    let mut described = bare_target("b", "nordic");
    described.description = Some("a board".to_string());
    described.capabilities = strings(&["flash"]);
    let loaded = vec![
        Ok(bare_target("a", "nordic")),
        Err(Error::UnknownTarget { id: "x".to_string(), reason: String::new() }),
        Ok(described),
    ];
    let summaries = list_targets(loaded);
    assert_eq!(summaries.len(), 2);
    assert_eq!(summaries[0].id, "a");
    assert_eq!(summaries[0].name, "A");
    assert_eq!(summaries[0].description, "");
    assert_eq!(summaries[1].id, "b");
    assert_eq!(summaries[1].description, "a board");
    assert_eq!(summaries[1].capabilities, strings(&["flash"]));
}

#[test]
fn integers_are_numbers_or_texts() {
    assert_eq!(value_to_u64(&value("42")), Ok(42));
    assert_eq!(value_to_u64(&value("18446744073709551615")), Ok(u64::MAX));
    assert_eq!(value_to_u64(&value("\"0x5004B000\"")), Ok(0x5004_B000));
    assert_eq!(value_to_u64(&value("\" 7 \"")), Ok(7));
    assert_eq!(
        value_to_u64(&value("-1")),
        Err("expected an unsigned integer, got -1".to_string())
    );
    assert_eq!(
        value_to_u64(&value("1.5")),
        Err("expected an unsigned integer, got 1.5".to_string())
    );
    assert_eq!(
        value_to_u64(&value("[1,true]")),
        Err("expected string or number, got [1,true]".to_string())
    );
    assert_eq!(
        value_to_u64(&value("null")),
        Err("expected string or number, got null".to_string())
    );
    assert_eq!(
        value_to_u64(&value("\"0xZZ\"")),
        Err("invalid hex '0xZZ': invalid digit found in string".to_string())
    );
}

#[test]
fn integers_out_of_range_are_refused() {
    assert_eq!(de_int(&value("255"), 255), Ok(255));
    assert_eq!(
        de_int(&value("\"0x100\""), 255),
        Err("value 256 out of range: out of range integral type conversion attempted".to_string())
    );
    assert_eq!(de_int(&value("true"), 255), Err("expected string or number, got true".to_string()));
    assert_eq!(de_int_opt(&value("null"), 255), Ok(None));
    assert_eq!(de_int_opt(&value("\"0x10\""), 255), Ok(Some(16)));
    assert_eq!(
        de_int_opt(&value("256"), 255),
        Err("value 256 out of range: out of range integral type conversion attempted".to_string())
    );
}

#[test]
fn definition_and_its_copy_say_the_same() {
    let cfg = definition(&value(NRF54L15));
    let copy = cfg.clone();
    assert_eq!(copy.id, cfg.id);
    assert_eq!(copy.capabilities, cfg.capabilities);
    assert_eq!(copy.description, cfg.description);
    assert_eq!(copy.flash_controller.unwrap().kind, "rramc");
    assert_eq!(copy.sram.unwrap().work_area_size, Some(0x4000));
}

#[test]
fn entries_do_not_affect_each_other() {
    let vids = |list: &str| -> Vec<u16> {
        let root = value(&format!("{{ \"vendorIds\": [{list}] }}"));
        filters_from(&root).iter().map(|f| f.vid).collect()
    };
    assert_eq!(vids("\"0x1\", 7, \"0x2\""), vec![1, 2]);
    assert_eq!(vids("\"nope\", \"0x3\""), vec![3]);
    assert_eq!(vids("\"0x1\", 7, \"0x2\", \"nope\", \"0x3\""), vec![1, 2, 3]);
}

#[test]
fn summaries_can_be_copied() {
    let summaries = list_targets(vec![Ok(bare_target("a", "nordic"))]);
    let copy = summaries[0].clone();
    assert_eq!((copy.id.as_str(), copy.name.as_str()), ("a", "A"));
    assert!(copy.capabilities.is_empty());
}

#[test]
fn entries_that_are_passed_over_are_told() {
    let json = r#"{ "vendorIds": [ "0x0D28", { "$comment": "missing vid" }, "not-a-vid", 7,
                                    { "vid": "0x2886" }, { "vid": "12" } ] }"#;
    let list = parse_filter_list(json).expect("valid JSON").expect("a list");
    assert_eq!(list.filters.len(), 2);
    let told: Vec<String> = list.skipped.iter().map(|entry| entry.message()).collect();
    assert_eq!(
        told,
        vec![
            "Skipping probe-filters entry without `vid`: number 1",
            "Skipping invalid vendor id in probe-filters.json: not-a-vid",
            "Skipping invalid probe-filters entry: number 3",
            "Skipping invalid vendor id in probe-filters.json: 12",
        ]
    );
    assert_eq!(list.skipped[3].index, 5);
    assert!(list_from(&value("{}")).is_none());
    assert!(list_from(&value(r#"{ "vendorIds": 3 }"#)).is_none());
    assert!(parse_filter_list("{").is_err());
}
