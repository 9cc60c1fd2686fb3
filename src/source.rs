use vstd::prelude::*;

use crate::error::LookupError;

verus! {

#[verifier::external_type_specification]
#[verifier::external_body]
pub struct ExJsonValue(serde_json::Value);

#[verifier::external_type_specification]
#[verifier::external_body]
pub struct ExJsonError(serde_json::Error);

/// The JSON document that `serde_json` reads from a text, if the text is one.
pub uninterp spec fn json_document(text: Seq<char>) -> Option<serde_json::Value>;

/// The value stored under a key of a JSON object; none for another kind of value.
pub uninterp spec fn json_member(doc: serde_json::Value, key: Seq<char>) -> Option<serde_json::Value>;

/// Whether a JSON value is an object.
pub uninterp spec fn json_is_object(v: serde_json::Value) -> bool;

/// The integer that a JSON value holds, if it is a number that fits in `i64`.
pub uninterp spec fn json_integer(v: serde_json::Value) -> Option<i64>;

/// Relies on `serde_json::from_str::<Value>`: it succeeds exactly on the texts
/// that hold one JSON value, and the value depends on the text alone.
#[verifier::external_body]
fn parse_document(text: &str) -> (r: Result<serde_json::Value, serde_json::Error>)
    ensures
        r is Ok <==> json_document(text@) is Some,
        r is Ok ==> json_document(text@) == Some(r->Ok_0),
{
    serde_json::from_str::<serde_json::Value>(text)
}

/// Relies on `serde_json::Value::get` with a string index: the member of an
/// object under that key, or none.
#[verifier::external_body]
fn member<'a>(doc: &'a serde_json::Value, key: &str) -> (r: Option<&'a serde_json::Value>)
    ensures
        r is Some <==> json_member(*doc, key@) is Some,
        r is Some ==> json_member(*doc, key@) == Some(*r->0),
{
    doc.get(key)
}

/// Relies on `serde_json::Value::is_object`.
#[verifier::external_body]
fn is_object(v: &serde_json::Value) -> (r: bool)
    ensures
        r == json_is_object(*v),
{
    v.is_object()
}

/// Relies on `serde_json::Value::as_i64`.
#[verifier::external_body]
fn integer_of(v: &serde_json::Value) -> (r: Option<i64>)
    ensures
        r == json_integer(*v),
{
    v.as_i64()
}

/// What a lookup found as the member under a key of an object: `NotFound` for
/// no member, `Malformed` for a member that holds no integer.
pub open spec fn member_answer(found: Option<serde_json::Value>) -> Result<i64, LookupError> {
    match found {
        None => Err(LookupError::NotFound),
        Some(v) => match json_integer(v) {
            Some(n) => Ok(n),
            None => Err(LookupError::Malformed),
        },
    }
}

/// What a lookup of `key` in a parsed dataset answers: `Malformed` for a
/// document that is not an object, else the answer for its member under `key`.
pub open spec fn document_answer(doc: serde_json::Value, key: Seq<char>) -> Result<i64, LookupError> {
    if json_is_object(doc) {
        member_answer(json_member(doc, key))
    } else {
        Err(LookupError::Malformed)
    }
}

/// What a lookup of `key` in the dataset text answers: `Malformed` for a text
/// that is no JSON document, else the answer of the document.
pub open spec fn dataset_answer(text: Seq<char>, key: Seq<char>) -> Result<i64, LookupError> {
    match json_document(text) {
        None => Err(LookupError::Malformed),
        Some(doc) => document_answer(doc, key),
    }
}

/// Reads the integer under `key` in a parsed dataset document, which must be
/// an object mapping keys to integers.
pub fn read_member(doc: &serde_json::Value, key: &str) -> (r: Result<i64, LookupError>)
    ensures
        r == document_answer(*doc, key@),
{
    if !is_object(doc) {
        return Err(LookupError::Malformed);
    }
    match member(doc, key) {
        None => Err(LookupError::NotFound),
        Some(v) => match integer_of(v) {
            Some(n) => Ok(n),
            None => Err(LookupError::Malformed),
        },
    }
}

/// Looks `key` up in the dataset text, parsing the whole text on every call.
pub fn lookup_in_text(text: &str, key: &str) -> (r: Result<i64, LookupError>)
    ensures
        r == dataset_answer(text@, key@),
{
    match parse_document(text) {
        Ok(doc) => read_member(&doc, key),
        Err(_) => Err(LookupError::Malformed),
    }
}

/// The answer of the data source to a lookup whose dataset could be read or
/// not: a read failure is `IoError`, else the lookup in the text read.
pub fn lookup_in_read(read: Option<&str>, key: &str) -> (r: Result<i64, LookupError>)
    ensures
        read is None ==> r == Err::<i64, LookupError>(LookupError::IoError),
        read is Some ==> r == dataset_answer(read->0@, key@),
{
    match read {
        None => Err(LookupError::IoError),
        Some(text) => lookup_in_text(text, key),
    }
}

} // verus!
