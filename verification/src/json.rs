//! JSON documents as plain values.
//!
//! Reading the text of a document is left to `serde_json`; what it finds is
//! handed on as a `Json` tree, which the rest of the library takes apart.

use vstd::prelude::*;

verus! {

/// The error with which `serde_json` refuses a text.
#[verifier::external_type_specification]
#[verifier::external_body]
pub struct ExJsonError(serde_json::Error);

/// A JSON value as `serde_json` holds it.
#[verifier::external_type_specification]
#[verifier::external_body]
pub struct ExJsonValue(serde_json::Value);

/// A JSON value.
#[derive(Debug)]
pub enum Json {
    Null,
    Bool(bool),
    /// A number, with the integer it stands for where it is written as one
    /// and fits in 64 bits with a sign.
    Number(Option<i64>),
    Text(String),
    Array(Vec<Json>),
    /// The members of an object, each with its key.
    Object(Vec<(String, Json)>),
}

/// The document that a text holds, or `None` for a text that is no JSON
/// document.
pub uninterp spec fn json_document(text: Seq<char>) -> Option<Json>;

/// What a value of `serde_json` holds.
pub uninterp spec fn json_of_value(value: serde_json::Value) -> Json;

/// Calls `serde_json::from_str` for a `serde_json::Value`. What is claimed:
/// whether the text is accepted, and the value found in it, depend on the
/// text alone.
#[verifier::external_body]
fn read_value(text: &str) -> (read: Result<serde_json::Value, serde_json::Error>)
    ensures
        read is Ok <==> json_document(text@) is Some,
        read matches Ok(value) ==> json_document(text@) == Some(json_of_value(value)),
{
    serde_json::from_str::<serde_json::Value>(text)
}

/// Moves a value of `serde_json` into a `Json`, variant by variant; of a
/// number it keeps what `serde_json::Number::as_i64` returns. What is
/// claimed: the result depends on the value alone.
#[verifier::external_body]
fn json_from_value(value: serde_json::Value) -> (json: Json)
    ensures
        json == json_of_value(value),
{
    match value {
        serde_json::Value::Null => Json::Null,
        serde_json::Value::Bool(flag) => Json::Bool(flag),
        serde_json::Value::Number(number) => Json::Number(number.as_i64()),
        serde_json::Value::String(text) => Json::Text(text),
        serde_json::Value::Array(items) => Json::Array(
            items.into_iter().map(json_from_value).collect(),
        ),
        serde_json::Value::Object(members) => Json::Object(
            members.into_iter().map(|(key, value)| (key, json_from_value(value))).collect(),
        ),
    }
}

/// Reads a JSON document from its text.
pub fn parse_json(text: &str) -> (parsed: Result<Json, serde_json::Error>)
    ensures
        parsed is Ok <==> json_document(text@) is Some,
        parsed matches Ok(json) ==> json_document(text@) == Some(json),
{
    match read_value(text) {
        Ok(value) => Ok(json_from_value(value)),
        Err(error) => Err(error),
    }
}

/// The value of the first member with the key `name`.
pub open spec fn member(members: Seq<(String, Json)>, name: Seq<char>) -> Option<Json>
    decreases members.len(),
{
    if members.len() == 0 {
        None
    } else if members[0].0@ == name {
        Some(members[0].1)
    } else {
        member(members.drop_first(), name)
    }
}

/// Looks up the first member with the key `name`.
pub fn find_member<'a>(members: &'a Vec<(String, Json)>, name: &str) -> (found: Option<&'a Json>)
    ensures
        match found {
            Some(json) => member(members@, name@) == Some(*json),
            None => member(members@, name@) is None,
        },
{
    let wanted = name.to_owned();
    let mut at: usize = 0;
    assert(members@.skip(0) =~= members@);
    while at < members.len()
        invariant
            at <= members.len(),
            wanted@ == name@,
            member(members@, name@) == member(members@.skip(at as int), name@),
        decreases members.len() - at,
    {
        assert(members@.skip(at as int).drop_first() =~= members@.skip(at + 1));
        if members[at].0 == wanted {
            return Some(&members[at].1);
        }
        at += 1;
    }
    None
}

} // verus!
