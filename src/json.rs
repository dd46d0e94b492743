//! JSON values as plain data, read with serde_json.
use vstd::prelude::*;

verus! {

#[verifier::external_type_specification]
#[verifier::external_body]
pub struct ExJsonValue(serde_json::Value);

#[verifier::external_type_specification]
#[verifier::external_body]
pub struct ExJsonError(serde_json::Error);

/// A JSON value. An object lists its members in the order in which they are
/// iterated, each key once.
#[derive(Debug)]
pub enum Json {
    Null,
    Bool(bool),
    /// A number, as written back by serde_json.
    Number(String),
    Str(String),
    Array(Vec<Json>),
    Object(Vec<(String, Json)>),
}

/// The value that serde_json reads from text holding one JSON document, if
/// the text holds one.
pub uninterp spec fn json_of_text(s: Seq<char>) -> Option<Json>;

/// Relies on `serde_json::from_str` into a `serde_json::Value`: it succeeds
/// exactly on text that is one JSON document, and what it reads depends on
/// the text alone.
#[verifier::external_body]
pub(crate) fn parse_json(s: &str) -> (r: Result<Json, serde_json::Error>)
    ensures
        match r {
            Ok(v) => json_of_text(s@) == Some(v),
            Err(_) => json_of_text(s@) is None,
        },
{
    match serde_json::from_str::<serde_json::Value>(s) {
        Ok(v) => Ok(json_from_value(&v)),
        Err(e) => Err(e),
    }
}

/// Copies a `serde_json::Value` into a `Json`, variant for variant, relying on
/// `serde_json::Map::iter` for an object's members and on the `Display` of
/// `serde_json::Number` for a number's text.
#[verifier::external_body]
fn json_from_value(v: &serde_json::Value) -> Json {
    match v {
        serde_json::Value::Null => Json::Null,
        serde_json::Value::Bool(b) => Json::Bool(*b),
        serde_json::Value::Number(n) => Json::Number(n.to_string()),
        serde_json::Value::String(s) => Json::Str(s.clone()),
        serde_json::Value::Array(a) => Json::Array(a.iter().map(json_from_value).collect()),
        serde_json::Value::Object(m) => Json::Object(
            m.iter().map(|(k, x)| (k.clone(), json_from_value(x))).collect(),
        ),
    }
}

} // verus!
