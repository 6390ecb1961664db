//! The structured values that flow through the pipeline are `serde_json`
//! values, opaque to the proofs. What this library relies on from
//! `serde_json` is gathered here.

use vstd::prelude::*;

verus! {

#[verifier::external_type_specification]
#[verifier::external_body]
pub struct ExValue(serde_json::Value);

/// The value that `serde_json` parses from `text`, if `text` is valid JSON.
pub uninterp spec fn parsed_json(text: Seq<char>) -> Option<serde_json::Value>;

/// The JSON string value holding the characters `s`.
pub uninterp spec fn string_json(s: Seq<char>) -> serde_json::Value;

/// The member of object `v` under `key`; `None` when `v` is no object or lacks it.
pub uninterp spec fn json_member(v: serde_json::Value, key: Seq<char>) -> Option<serde_json::Value>;

/// The elements of `v` when it is an array.
pub uninterp spec fn json_elements(v: serde_json::Value) -> Option<Seq<serde_json::Value>>;

/// The characters of `v` when it is a string.
pub uninterp spec fn json_text(v: serde_json::Value) -> Option<Seq<char>>;

/// Relies on `serde_json::from_str::<Value>`: the parsed value, or `None` on a syntax error.
#[verifier::external_body]
pub fn parse_json(text: &str) -> (r: Option<serde_json::Value>)
    ensures
        r == parsed_json(text@),
{
    serde_json::from_str::<serde_json::Value>(text).ok()
}

/// Relies on the `serde_json::Value::String` constructor.
#[verifier::external_body]
pub fn string_value(s: String) -> (r: serde_json::Value)
    ensures
        r == string_json(s@),
{
    serde_json::Value::String(s)
}

/// Relies on `serde_json::Value::get` with a string key.
#[verifier::external_body]
pub fn member(v: &serde_json::Value, key: &str) -> (r: Option<serde_json::Value>)
    ensures
        r == json_member(*v, key@),
{
    v.get(key).cloned()
}

/// Relies on `serde_json::Value::as_array`.
#[verifier::external_body]
pub fn elements(v: &serde_json::Value) -> (r: Option<Vec<serde_json::Value>>)
    ensures
        match r {
            Some(a) => json_elements(*v) == Some(a@),
            None => json_elements(*v) is None,
        },
{
    v.as_array().cloned()
}

/// Relies on `serde_json::Value::as_str`.
#[verifier::external_body]
pub fn text_of(v: &serde_json::Value) -> (r: Option<String>)
    ensures
        match r {
            Some(s) => json_text(*v) == Some(s@),
            None => json_text(*v) is None,
        },
{
    v.as_str().map(String::from)
}

/// The completion text of a chat-completion response:
/// `response.choices[0].message.content`, when each step is present and the
/// last one is a string.
pub open spec fn completion_of(response: serde_json::Value) -> Option<Seq<char>> {
    match json_member(response, seq!['c', 'h', 'o', 'i', 'c', 'e', 's']) {
        Some(choices) => match json_elements(choices) {
            Some(items) => if items.len() > 0 {
                match json_member(items[0], seq!['m', 'e', 's', 's', 'a', 'g', 'e']) {
                    Some(message) => match json_member(message, seq!['c', 'o', 'n', 't', 'e', 'n', 't']) {
                        Some(content) => json_text(content),
                        None => None,
                    },
                    None => None,
                }
            } else {
                None
            },
            None => None,
        },
        None => None,
    }
}

/// Extracts the completion text of a chat-completion response.
pub fn completion_text(response: &serde_json::Value) -> (r: Option<String>)
    ensures
        match r {
            Some(s) => completion_of(*response) == Some(s@),
            None => completion_of(*response) is None,
        },
{
    proof {
        reveal_strlit("choices");
        reveal_strlit("message");
        reveal_strlit("content");
    }
    assert("choices"@ =~= seq!['c', 'h', 'o', 'i', 'c', 'e', 's']);
    assert("message"@ =~= seq!['m', 'e', 's', 's', 'a', 'g', 'e']);
    assert("content"@ =~= seq!['c', 'o', 'n', 't', 'e', 'n', 't']);
    let choices = match member(response, "choices") {
        Some(c) => c,
        None => return None,
    };
    let items = match elements(&choices) {
        Some(a) => a,
        None => return None,
    };
    if items.len() == 0 {
        return None;
    }
    let message = match member(&items[0], "message") {
        Some(m) => m,
        None => return None,
    };
    let content = match member(&message, "content") {
        Some(c) => c,
        None => return None,
    };
    text_of(&content)
}

} // verus!
