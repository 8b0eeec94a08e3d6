//! The calls into serde_json. What serde_json returns is named here, not
//! restated: each name stands for what serde_json computes from the text.
use vstd::prelude::*;
use crate::models::opt_text;
use crate::text::texts;

verus! {

/// What `serde_json::from_str::<Vec<String>>` gives for `text`: the strings
/// of a JSON array of strings, or none where it returns an error.
pub uninterp spec fn json_string_array(text: Seq<char>) -> Option<Seq<Seq<char>>>;

/// Whether `serde_json::from_str::<serde_json::Value>` accepts `text` as a
/// JSON document.
pub uninterp spec fn json_document(text: Seq<char>) -> bool;

/// The string that `text`, read as a JSON document by
/// `serde_json::from_str::<serde_json::Value>`, holds under `key` (through
/// `Value::get` and `Value::as_str`): none when `text` is no JSON document,
/// is no object, lacks `key`, or holds something other than a string there.
pub uninterp spec fn json_string_member(text: Seq<char>, key: Seq<char>) -> Option<Seq<char>>;

/// Calls `serde_json::from_str::<Vec<String>>`; an error becomes `None`.
/// Claims only that the result is the one `json_string_array` names.
#[verifier::external_body]
pub(crate) fn parse_string_array(text: &str) -> (res: Option<Vec<String>>)
    ensures
        match res {
            Some(v) => json_string_array(text@) == Some(texts(v@)),
            None => json_string_array(text@) is None,
        },
{
    serde_json::from_str::<Vec<String>>(text).ok()
}

/// Calls `serde_json::from_str::<serde_json::Value>` and tells whether it
/// succeeded. Claims only that the answer is the one `json_document` names.
#[verifier::external_body]
pub(crate) fn is_json_document(text: &str) -> (res: bool)
    ensures
        res == json_document(text@),
{
    serde_json::from_str::<serde_json::Value>(text).is_ok()
}

/// Calls `serde_json::from_str::<serde_json::Value>`, then `Value::get` with
/// `key` and `Value::as_str` on what it finds. Claims that the result is the
/// one `json_string_member` names, and, as the source shows (a parse error
/// gives `None`), that there is one only for a JSON document.
#[verifier::external_body]
pub(crate) fn string_member(text: &str, key: &str) -> (res: Option<String>)
    ensures
        opt_text(res) == json_string_member(text@, key@),
        res is Some ==> json_document(text@),
{
    let value = match serde_json::from_str::<serde_json::Value>(text) {
        Ok(v) => v,
        Err(_) => return None,
    };
    match value.get(key) {
        Some(serde_json::Value::String(s)) => Some(s.clone()),
        _ => None,
    }
}

} // verus!
