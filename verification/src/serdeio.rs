//! The JSON chunk's text codec. Parsing and minified encoding are done by the
//! serde_json crate; the document model is converted to and from its tree at
//! this boundary.

use vstd::prelude::*;
use crate::json::Json;
use crate::json::JsonView;

verus! {

#[verifier::external_type_specification]
#[verifier::external_body]
pub struct ExValue(serde_json::Value);

#[verifier::external_type_specification]
#[verifier::external_body]
pub struct ExError(serde_json::Error);

/// What parsing a byte sequence as JSON yields: the document when the bytes
/// are well-formed RFC 8259 JSON, nothing otherwise. The result depends on
/// the bytes alone.
pub uninterp spec fn json_parsed(bytes: Seq<u8>) -> Option<JsonView>;

/// The minified encoding of a document whose number texts came from parsing
/// or from the library's own formatter. The result depends on the document
/// alone.
pub uninterp spec fn json_min_bytes(j: JsonView) -> Seq<u8>;

/// Relies on serde_json's `Value` tree: converts it entry for entry into the
/// library's document model, numbers carried as their literal text.
#[verifier::external_body]
fn value_to_json(v: serde_json::Value) -> Json {
    match v {
        serde_json::Value::Null => Json::Null,
        serde_json::Value::Bool(b) => Json::Bool(b),
        serde_json::Value::Number(n) => Json::Num(n.as_str().to_string()),
        serde_json::Value::String(s) => Json::Str(s),
        serde_json::Value::Array(a) => Json::Arr(a.into_iter().map(value_to_json).collect()),
        serde_json::Value::Object(m) => Json::Obj(
            m.into_iter().map(|(k, x)| (k, value_to_json(x))).collect(),
        ),
    }
}

/// Relies on serde_json's `Value` tree: converts the library's document model
/// into it entry for entry, numbers from their literal text.
#[verifier::external_body]
fn json_to_value(j: &Json) -> serde_json::Value {
    match j {
        Json::Null => serde_json::Value::Null,
        Json::Bool(b) => serde_json::Value::Bool(*b),
        Json::Num(s) => serde_json::Value::Number(
            serde_json::Number::from_string_unchecked(s.clone()),
        ),
        Json::Str(s) => serde_json::Value::String(s.clone()),
        Json::Arr(a) => serde_json::Value::Array(a.iter().map(json_to_value).collect()),
        Json::Obj(m) => serde_json::Value::Object(
            m.iter().map(|(k, x)| (k.clone(), json_to_value(x))).collect(),
        ),
    }
}

/// Relies on serde_json::from_slice: parses the bytes as RFC 8259 JSON,
/// object key order kept; whether and what it parses is a function of the
/// bytes alone.
#[verifier::external_body]
pub fn json_from_bytes(b: &[u8]) -> (r: Result<Json, serde_json::Error>)
    ensures
        r is Ok <==> json_parsed(b@) is Some,
        r is Ok ==> Some(r->Ok_0@) == json_parsed(b@),
{
    match serde_json::from_slice::<serde_json::Value>(b) {
        Ok(v) => Ok(value_to_json(v)),
        Err(e) => Err(e),
    }
}

/// Relies on serde_json's `Value` serialization: the minified RFC 8259
/// encoding of the document, object key order and number texts kept, a
/// function of the document alone.
#[verifier::external_body]
pub fn json_to_bytes(j: &Json) -> (r: Vec<u8>)
    ensures
        r@ == json_min_bytes(j@),
{
    json_to_value(j).to_string().into_bytes()
}

} // verus!
