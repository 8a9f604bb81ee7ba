//! Trusted boundary to the JSON parser: serde_json's value type held
//! opaquely, and thin wrappers over the accessors the decoder uses.
//! Nothing is assumed about what a parsed value contains; the decoder
//! hands plain values to the verified reducer, which is specified for
//! every value they might take.

use vstd::prelude::*;

verus! {

/// serde_json's dynamic JSON value, carried opaquely.
#[verifier::external_type_specification]
#[verifier::external_body]
pub struct ExValue(serde_json::Value);

/// Relies on serde_json::from_str: parses one JSON text; a malformed
/// text yields nothing.
#[verifier::external_body]
pub fn parse_json(text: &str) -> (r: Option<serde_json::Value>) {
    serde_json::from_str(text).ok()
}

/// Relies on serde_json::Value::get with a string index: the member of
/// a JSON object under the given key, when the value is an object that
/// has it.
#[verifier::external_body]
pub fn get_field<'a>(v: &'a serde_json::Value, key: &str) -> (r: Option<&'a serde_json::Value>) {
    v.get(key)
}

/// Relies on serde_json::Value::as_str: the text of a JSON string
/// value, and nothing for any other kind of value.
#[verifier::external_body]
pub fn as_str_value(v: &serde_json::Value) -> (r: Option<String>) {
    v.as_str().map(|s| s.to_string())
}

/// Relies on serde_json::Value::as_bool: the value of a JSON boolean,
/// and nothing for any other kind of value.
#[verifier::external_body]
pub fn as_bool_value(v: &serde_json::Value) -> (r: Option<bool>) {
    v.as_bool()
}

/// Relies on serde_json::Value::as_array: the elements of a JSON
/// array, and nothing for any other kind of value.
#[verifier::external_body]
pub fn as_array_value<'a>(v: &'a serde_json::Value) -> (r: Option<&'a Vec<serde_json::Value>>) {
    v.as_array()
}

} // verus!
