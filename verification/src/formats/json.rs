//! JSON input, read by `serde_json`.
use vstd::prelude::*;
use crate::error::{ErrV, PickError};
use crate::value::{value_result, Json, NumView, JsonNumber, JsonValue, wf_json};

verus! {

#[verifier::external_type_specification]
#[verifier::external_body]
pub struct ExSerdeJsonValue(serde_json::Value);

#[verifier::external_type_specification]
#[verifier::external_body]
pub struct ExSerdeJsonNumber(serde_json::Number);

/// What `serde_json::from_str::<serde_json::Value>` makes of a text: the value,
/// or the error's message.
pub uninterp spec fn json_decode(text: Seq<char>) -> Result<Json, Seq<char>>;

/// What `serde_json::Number::from_str` makes of a number text.
pub uninterp spec fn json_number_of(text: Seq<char>) -> Option<NumView>;

/// A number of `serde_json` as a library number: integers as such, a float by
/// its `Display` text.
#[verifier::external_body]
fn number_from_serde(n: &serde_json::Number) -> JsonNumber {
    if let Some(u) = n.as_u64() {
        JsonNumber::PosInt(u)
    } else if let Some(i) = n.as_i64() {
        JsonNumber::NegInt(i)
    } else {
        JsonNumber::Float(n.to_string())
    }
}

/// A value of `serde_json` as a library value, one for one; object entries come
/// in the map's iteration order.
#[verifier::external_body]
fn value_from_serde(v: &serde_json::Value) -> JsonValue {
    match v {
        serde_json::Value::Null => JsonValue::Null,
        serde_json::Value::Bool(b) => JsonValue::Bool(*b),
        serde_json::Value::Number(n) => JsonValue::Number(number_from_serde(n)),
        serde_json::Value::String(s) => JsonValue::String(s.clone()),
        serde_json::Value::Array(a) => JsonValue::Array(a.iter().map(value_from_serde).collect()),
        serde_json::Value::Object(m) => JsonValue::Object(
            m.iter().map(|(k, x)| (k.clone(), value_from_serde(x))).collect(),
        ),
    }
}

/// `serde_json::from_str` into a `serde_json::Value`.  The crate's map is a
/// `BTreeMap` (its `preserve_order` feature is off), so every object comes out
/// with its keys in increasing order, each once.
#[verifier::external_body]
pub(crate) fn serde_json_from_str(input: &str) -> (r: Result<JsonValue, String>)
    ensures
        match json_decode(input@) {
            Ok(v) => r matches Ok(x) && x@ == v,
            Err(m) => r matches Err(x) && x@ == m,
        },
        r matches Ok(x) ==> wf_json(x@),
{
    match serde_json::from_str::<serde_json::Value>(input) {
        Ok(v) => Ok(value_from_serde(&v)),
        Err(e) => Err(e.to_string()),
    }
}

/// `serde_json::Number::from_str`: a number text in JSON's grammar.
#[verifier::external_body]
pub(crate) fn serde_number_from_str(text: &str) -> (r: Option<JsonNumber>)
    ensures
        match json_number_of(text@) {
            Some(n) => r matches Some(x) && x@ == n,
            None => r is None,
        },
{
    match text.parse::<serde_json::Number>() {
        Ok(n) => Some(number_from_serde(&n)),
        Err(_) => None,
    }
}

pub open spec fn spec_parse(input: Seq<char>) -> Result<Json, ErrV> {
    match json_decode(input) {
        Ok(v) => Ok(v),
        Err(m) => Err(ErrV::ParseError("JSON"@, m)),
    }
}

/// Parse JSON text.
pub fn parse(input: &str) -> (r: Result<JsonValue, PickError>)
    ensures
        value_result(r) == spec_parse(input@),
        r matches Ok(v) ==> wf_json(v@),
{
    match serde_json_from_str(input) {
        Ok(v) => Ok(v),
        Err(m) => Err(PickError::ParseError("JSON".to_owned(), m)),
    }
}

} // verus!
