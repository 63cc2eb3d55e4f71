//! Values of JSON.
use vstd::prelude::*;

use crate::number::signed_digits;

verus! {

/// A value of JSON.
#[verifier::external_type_specification]
#[verifier::external_body]
pub struct ExJsonValue(serde_json::Value);

/// What a value of JSON holds. A number stands as it is written.
pub ghost enum JsonData {
    Null,
    Bool(bool),
    Number(Seq<char>),
    Text(Seq<char>),
    Array(Seq<JsonData>),
    Object(Map<Seq<char>, JsonData>),
}

/// What the value holds.
pub uninterp spec fn json_data(value: serde_json::Value) -> JsonData;

/// The value as compact JSON text, the keys of an object in their order.
pub uninterp spec fn json_text(data: JsonData) -> Seq<char>;

/// `serde_json::Value::as_str` gives the text if the value is a text, and
/// nothing else.
pub assume_specification[ serde_json::Value::as_str ](value: &serde_json::Value) -> (r: Option<
    &str,
>)
    ensures
        match r {
            Some(s) => json_data(*value) == JsonData::Text(s@),
            None => !(json_data(*value) is Text),
        },
;

/// `serde_json::Value::is_object` tells objects from other values.
pub assume_specification[ serde_json::Value::is_object ](value: &serde_json::Value) -> (r: bool)
    ensures
        r == (json_data(*value) is Object),
;

/// `serde_json::Value::as_i64` gives the number if it is a whole number in the
/// range of `i64`, which is written in its digits, and nothing else.
pub assume_specification[ serde_json::Value::as_i64 ](value: &serde_json::Value) -> (r: Option<i64>)
    ensures
        match r {
            Some(n) => json_data(*value) == JsonData::Number(signed_digits(n as int)),
            None => forall|n: i64|
                json_data(*value) != JsonData::Number(#[trigger] signed_digits(n as int)),
        },
;

/// `serde_json::Value::as_array` gives the items if the value is an array, and
/// nothing else.
pub assume_specification[ serde_json::Value::as_array ](value: &serde_json::Value) -> (r: Option<
    &Vec<serde_json::Value>,
>)
    ensures
        match r {
            Some(items) => json_data(*value) == JsonData::Array(
                items@.map_values(|item: serde_json::Value| json_data(item)),
            ),
            None => !(json_data(*value) is Array),
        },
;

/// `serde_json::Value::get` with a text as the index gives the value under
/// that key of an object; nothing if there is none, or if it is no object.
#[verifier::external_body]
pub(crate) fn json_entry<'a>(value: &'a serde_json::Value, key: &str) -> (r: Option<
    &'a serde_json::Value,
>)
    ensures
        match r {
            Some(entry) => {
                &&& json_data(*value) matches JsonData::Object(entries)
                &&& entries.dom().contains(key@)
                &&& json_data(*entry) == entries[key@]
            },
            None => json_data(*value) matches JsonData::Object(entries) ==> !entries.dom().contains(
                key@,
            ),
        },
{
    value.get(key)
}

/// What `serde_json::from_slice` makes of the bytes, if they are JSON.
pub uninterp spec fn json_parsed(bytes: Seq<u8>) -> Option<JsonData>;

/// Parses the bytes with `serde_json::from_slice`. Claimed: what comes out
/// depends on the bytes alone.
#[verifier::external_body]
pub(crate) fn parse_json(bytes: &[u8]) -> (r: Option<serde_json::Value>)
    ensures
        match r {
            Some(value) => json_parsed(bytes@) == Some(json_data(value)),
            None => json_parsed(bytes@) is None,
        },
{
    serde_json::from_slice(bytes).ok()
}

/// The `Display` of `serde_json::Value` writes the value as compact JSON.
/// Claimed: the text depends on what the value holds alone, and only an
/// object without entries is written as two braces.
#[verifier::external_body]
pub(crate) fn json_display(value: &serde_json::Value) -> (r: String)
    ensures
        r@ == json_text(json_data(*value)),
        r@ == "{}"@ <==> json_data(*value) == JsonData::Object(Map::empty()),
{
    value.to_string()
}

} // verus!
