//! JSON documents as text: read and written by serde_json.

use crate::errors::Error;
use crate::json::{Json, JsonView, Number};
use crate::text::owned;
use vstd::prelude::*;

verus! {

/// A JSON value as serde_json holds it.
#[verifier::external_type_specification]
#[verifier::external_body]
pub struct ExValue(serde_json::Value);

/// The document that serde_json reads from a text; none where the text is
/// no JSON. The members of each object stand in the order in which
/// serde_json keeps them, and a number that is no whole number stands as
/// serde_json writes it.
pub uninterp spec fn json_of_text(text: Seq<char>) -> Option<JsonView>;

/// The text by which serde_json writes a document.
pub uninterp spec fn text_of_json(doc: JsonView) -> Seq<char>;

/// Turns a value of serde_json that is a number into a number of a
/// document: it is told apart by `Value::as_u64` and `Value::as_i64`, and
/// one that is neither is taken as `Value::to_string` writes it. Nothing is
/// claimed of the result by itself.
#[verifier::external_body]
fn from_number(v: &serde_json::Value) -> (r: Number) {
    match (v.as_u64(), v.as_i64()) {
        (Some(u), _) => Number::PosInt(u),
        (None, Some(i)) => Number::NegInt(i),
        (None, None) => Number::Float(v.to_string()),
    }
}

/// Turns a value of serde_json into a document, part by part. Nothing is
/// claimed of the result by itself.
#[verifier::external_body]
fn from_value(v: &serde_json::Value) -> (r: Json) {
    match v {
        serde_json::Value::Null => Json::Null,
        serde_json::Value::Bool(b) => Json::Bool(*b),
        serde_json::Value::Number(_) => Json::Number(from_number(v)),
        serde_json::Value::String(s) => Json::String(s.clone()),
        serde_json::Value::Array(a) => Json::Array(a.iter().map(from_value).collect()),
        serde_json::Value::Object(o) => {
            Json::Object(o.iter().map(|(k, v)| (k.clone(), from_value(v))).collect())
        },
    }
}

/// Turns a number of a document into a value of serde_json, by
/// `Value::from` for a whole number; the text of another is read by
/// `serde_json::from_str`, and a text that it cannot read becomes `null`.
/// Nothing is claimed of the result by itself.
#[verifier::external_body]
fn number_value(n: &Number) -> (r: serde_json::Value) {
    match n {
        Number::PosInt(u) => serde_json::Value::from(*u),
        Number::NegInt(i) => serde_json::Value::from(*i),
        Number::Float(t) => serde_json::from_str(t).unwrap_or_default(),
    }
}

/// Turns a document into a value of serde_json, part by part. Nothing is
/// claimed of the result by itself.
#[verifier::external_body]
fn to_value(v: &Json) -> (r: serde_json::Value) {
    match v {
        Json::Null => serde_json::Value::Null,
        Json::Bool(b) => serde_json::Value::Bool(*b),
        Json::Number(n) => number_value(n),
        Json::String(s) => serde_json::Value::String(s.clone()),
        Json::Array(a) => serde_json::Value::Array(a.iter().map(to_value).collect()),
        Json::Object(o) => {
            serde_json::Value::Object(o.iter().map(|(k, v)| (k.clone(), to_value(v))).collect())
        },
    }
}

/// Calls `serde_json::from_str` for a value, and turns the value into a
/// document, or its failure into the words of the failure. The claim is that
/// what is read is a matter of the text alone.
#[verifier::external_body]
fn read_text(text: &str) -> (r: Result<Json, String>)
    ensures
        match r {
            Ok(v) => json_of_text(text@) == Some(v@),
            Err(_) => json_of_text(text@) is None,
        },
{
    match serde_json::from_str::<serde_json::Value>(text) {
        Ok(v) => Ok(from_value(&v)),
        Err(e) => Err(e.to_string()),
    }
}

/// Turns a document into a value, and calls `serde_json::Value::to_string`.
/// The claim is that what is written is a matter of the document alone.
#[verifier::external_body]
fn write_text(doc: &Json) -> (r: String)
    ensures
        r@ == text_of_json(doc@),
{
    to_value(doc).to_string()
}

/// Reads a document from its text. A text that is no JSON is refused,
/// and so is one from which a document comes that is not laid out as this
/// crate keeps documents.
pub fn parse_json(text: &str) -> (r: Result<Json, Error>)
    ensures
        match r {
            Ok(v) => json_of_text(text@) == Some(v@) && v.wf(),
            Err(e) => e is JsonError && (json_of_text(text@) matches Some(v) ==> !crate::json::wf_json(
                v,
            )),
        },
{
    match read_text(text) {
        Ok(v) => {
            if v.well_formed() {
                Ok(v)
            } else {
                Err(Error::JsonError(owned("the members of an object are not in order")))
            }
        },
        Err(words) => Err(Error::JsonError(words)),
    }
}

/// Writes a document as text.
pub fn print_json(doc: &Json) -> (r: String)
    ensures
        r@ == text_of_json(doc@),
{
    write_text(doc)
}

} // verus!
