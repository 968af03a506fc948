//! JSON documents, as `serde_json` reads them.
//!
//! A `serde_json::Value` holds a document; [`Json`] is what it holds. The items
//! below state of `serde_json` what the rest of the crate relies on.

use vstd::prelude::*;

verus! {

/// A JSON document.
pub enum Json {
    Null,
    Bool(bool),
    /// A number, with its value where it is an unsigned integer of 64 bits.
    Number(Option<u64>),
    Text(Seq<char>),
    Array(Seq<Json>),
    Object(Map<Seq<char>, Json>),
}

/// `serde_json::Value`: a JSON document.
#[verifier::external_type_specification]
#[verifier::external_body]
pub struct ExValue(serde_json::Value);

/// The document that a value holds.
pub uninterp spec fn json_of(value: serde_json::Value) -> Json;

/// The documents that values hold.
pub open spec fn jsons_of(values: Seq<serde_json::Value>) -> Seq<Json> {
    Seq::new(values.len(), |i: int| json_of(values[i]))
}

/// What `serde_json` reads from a text: a document, or what is wrong with it.
pub uninterp spec fn json_read(text: Seq<char>) -> Result<Json, Seq<char>>;

/// What `serde_json` writes for a value.
pub uninterp spec fn json_text(value: serde_json::Value) -> Seq<char>;

/// `serde_json::Value::as_array` gives the items of an array, and nothing for
/// any other document.
pub assume_specification[ serde_json::Value::as_array ](value: &serde_json::Value) -> (r: Option<
    &Vec<serde_json::Value>,
>)
    ensures
        match json_of(*value) {
            Json::Array(items) => r matches Some(list) && jsons_of(list@) == items,
            _ => r is None,
        },
;

/// `serde_json::Value::as_str` gives the characters of a text, and nothing for
/// any other document.
pub assume_specification[ serde_json::Value::as_str ](value: &serde_json::Value) -> (r: Option<
    &str,
>)
    ensures
        match json_of(*value) {
            Json::Text(text) => r matches Some(s) && s@ == text,
            _ => r is None,
        },
;

/// `serde_json::Value::is_object` tells whether the document is an object.
pub assume_specification[ serde_json::Value::is_object ](value: &serde_json::Value) -> (r: bool)
    ensures
        r == (json_of(*value) is Object),
;

/// `serde_json::Value::is_number` tells whether the document is a number.
pub assume_specification[ serde_json::Value::is_number ](value: &serde_json::Value) -> (r: bool)
    ensures
        r == (json_of(*value) is Number),
;

/// `serde_json::Value::is_null` tells whether the document is null.
pub assume_specification[ serde_json::Value::is_null ](value: &serde_json::Value) -> (r: bool)
    ensures
        r == (json_of(*value) is Null),
;

/// `serde_json::Value::as_u64` gives the value of a number that is an unsigned
/// integer of 64 bits, and nothing for any other document.
pub assume_specification[ serde_json::Value::as_u64 ](value: &serde_json::Value) -> (r: Option<u64>)
    ensures
        r == (match json_of(*value) {
            Json::Number(n) => n,
            _ => None,
        }),
;

/// Looks a key up with `serde_json::Value::get`, which gives the document at the
/// key of an object that has it, and nothing for any other document.
#[verifier::external_body]
pub(crate) fn json_field<'a>(value: &'a serde_json::Value, key: &str) -> (r: Option<
    &'a serde_json::Value,
>)
    ensures
        match json_of(*value) {
            Json::Object(fields) => match r {
                Some(found) => fields.contains_key(key@) && fields[key@] == json_of(*found),
                None => !fields.contains_key(key@),
            },
            _ => r is None,
        },
{
    value.get(key)
}

/// Reads a document with `serde_json::from_str`. The result is given a name.
#[verifier::external_body]
pub(crate) fn read_json(text: &str) -> (r: Result<serde_json::Value, String>)
    ensures
        match r {
            Ok(value) => json_read(text@) == Ok::<Json, Seq<char>>(json_of(value)),
            Err(reason) => json_read(text@) == Err::<Json, Seq<char>>(reason@),
        },
{
    serde_json::from_str(text).map_err(|e| e.to_string())
}

/// Writes a document with the `Display` of `serde_json::Value`. The result is
/// given a name.
#[verifier::external_body]
pub(crate) fn write_json(value: &serde_json::Value) -> (r: String)
    ensures
        r@ == json_text(*value),
{
    value.to_string()
}

} // verus!
