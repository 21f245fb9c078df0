//! The JSON document model the browser works on, and how its scalars and
//! keys are written as JSON text.
use vstd::prelude::*;
use vstd::string::StringExecFns;

verus! {

broadcast use vstd::string::group_string_axioms;

/// A parsed JSON document. Object members keep the order in which the parser
/// handed them out; a number keeps the text that JSON serialisation gives it.
#[derive(Debug)]
pub enum JsonValue {
    Null,
    Bool(bool),
    Number(String),
    String(String),
    Array(Vec<JsonValue>),
    Object(Vec<(String, JsonValue)>),
}

/// Whether a value is an object or an array.
pub open spec fn is_container(v: JsonValue) -> bool {
    v is Array || v is Object
}

/// Whether every object in `v` has pairwise distinct keys, as every object
/// that a JSON parser builds into a map has.
pub open spec fn keys_distinct(v: JsonValue) -> bool
    decreases v,
{
    match v {
        JsonValue::Object(m) => members_distinct(m@),
        JsonValue::Array(a) => elements_distinct(a@),
        _ => true,
    }
}

/// Whether the given members have pairwise distinct keys and every value has
/// `keys_distinct`.
pub open spec fn members_distinct(items: Seq<(String, JsonValue)>) -> bool
    decreases items,
{
    if items.len() == 0 {
        true
    } else {
        &&& members_distinct(items.drop_last())
        &&& keys_distinct(items.last().1)
        &&& forall|j: int| 0 <= j < items.len() - 1 ==> (#[trigger] items[j]).0@ != items.last().0@
    }
}

/// Whether every given element has `keys_distinct`.
pub open spec fn elements_distinct(items: Seq<JsonValue>) -> bool
    decreases items,
{
    if items.len() == 0 {
        true
    } else {
        elements_distinct(items.drop_last()) && keys_distinct(items.last())
    }
}

/// The lower-case hexadecimal digit of a number below sixteen.
pub open spec fn hex_digit(d: u32) -> char {
    if d < 10 {
        (('0' as u32) + d) as char
    } else {
        (('a' as u32) + d - 10) as char
    }
}

/// How JSON serialisation writes one character inside a string: quote and
/// backslash get a backslash, the control characters with a short escape get
/// it, the other control characters below 0x20 become `\u00XX`, and every
/// other character stands for itself.
pub open spec fn json_escape_char(c: char) -> Seq<char> {
    let u = c as u32;
    if c == '"' {
        seq!['\\', '"']
    } else if c == '\\' {
        seq!['\\', '\\']
    } else if u == 0x08 {
        seq!['\\', 'b']
    } else if u == 0x09 {
        seq!['\\', 't']
    } else if u == 0x0a {
        seq!['\\', 'n']
    } else if u == 0x0c {
        seq!['\\', 'f']
    } else if u == 0x0d {
        seq!['\\', 'r']
    } else if u < 0x20 {
        seq!['\\', 'u', '0', '0', hex_digit(u / 16), hex_digit(u % 16)]
    } else {
        seq![c]
    }
}

/// `s` with every character escaped as `json_escape_char` writes it.
pub open spec fn json_escape(s: Seq<char>) -> Seq<char>
    decreases s.len(),
{
    if s.len() == 0 {
        Seq::empty()
    } else {
        json_escape(s.drop_last()) + json_escape_char(s.last())
    }
}

/// `s` written as a JSON string literal.
pub open spec fn json_string(s: Seq<char>) -> Seq<char> {
    seq!['"'] + json_escape(s) + seq!['"']
}

/// The JSON text of a scalar value (the text of a container is not used).
pub open spec fn scalar_text(v: JsonValue) -> Seq<char> {
    match v {
        JsonValue::Null => seq!['n', 'u', 'l', 'l'],
        JsonValue::Bool(b) => if b {
            seq!['t', 'r', 'u', 'e']
        } else {
            seq!['f', 'a', 'l', 's', 'e']
        },
        JsonValue::Number(t) => t@,
        JsonValue::String(s) => json_string(s@),
        _ => Seq::empty(),
    }
}

/// `s` as a JSON string literal.
/// Calls `serde_json::to_string` on a `&str`. Its source writes `"`, then each
/// run of characters that need no escape as they are and each character that
/// does as `json_escape_char` shows (serde_json's `ESCAPE` table and
/// `write_char_escape`), then `"`. Writing into a `Vec<u8>` cannot fail, so
/// the call always returns `Ok`.
#[verifier::external_body]
pub(crate) fn json_quote(s: &str) -> (res: String)
    ensures
        res@ == json_string(s@),
{
    serde_json::to_string(s).unwrap()
}

/// The JSON text of a scalar value; empty for an object or an array.
pub fn scalar_json_text(v: &JsonValue) -> (res: String)
    ensures
        res@ == scalar_text(*v),
{
    match v {
        JsonValue::Null => {
            let s = String::from_str("null");
            proof {
                reveal_strlit("null");
            }
            s
        },
        JsonValue::Bool(b) => {
            if *b {
                let s = String::from_str("true");
                proof {
                    reveal_strlit("true");
                }
                s
            } else {
                let s = String::from_str("false");
                proof {
                    reveal_strlit("false");
                }
                s
            }
        },
        JsonValue::Number(t) => t.clone(),
        JsonValue::String(s) => json_quote(s.as_str()),
        _ => String::new(),
    }
}

// ---------------------------------------------------------------------------
// Reading a document
// ---------------------------------------------------------------------------

/// serde_json's document type, which the parse below reads into.
#[verifier::external_type_specification]
#[verifier::external_body]
pub struct ExValue(serde_json::Value);

/// The document serde_json reads from `text` (`serde_json::from_str` into a
/// `serde_json::Value`), in the library's model; `None` when `text` is not
/// one JSON value.
pub uninterp spec fn parsed_document(text: Seq<char>) -> Option<JsonValue>;

/// Calls `serde_json::from_str::<serde_json::Value>` on `text` and gives the
/// document in the library's model (see `model_of`), or `None` when the call
/// returns an error. The result is claimed to depend on `text` alone, and
/// every object in it to have distinct keys: serde_json reads an object into
/// its `Map` (a `BTreeMap` under the default features), which holds a key at
/// most once.
#[verifier::external_body]
fn parse_json(text: &str) -> (res: Option<JsonValue>)
    ensures
        res == parsed_document(text@),
        res matches Some(v) ==> keys_distinct(v),
{
    match serde_json::from_str::<serde_json::Value>(text) {
        Ok(v) => Some(model_of(&v)),
        Err(_) => None,
    }
}

/// The conversion `parse_json` applies to serde_json's value, one variant
/// for one: a number becomes the text its `Display` writes (the text JSON
/// serialisation writes), an object's members come in the order its `Map`
/// hands them out. Nothing is claimed of it on its own: `parse_json` names
/// the result of the parse and this conversion together.
#[verifier::external_body]
fn model_of(v: &serde_json::Value) -> JsonValue {
    match v {
        serde_json::Value::Null => JsonValue::Null,
        serde_json::Value::Bool(b) => JsonValue::Bool(*b),
        serde_json::Value::Number(n) => JsonValue::Number(n.to_string()),
        serde_json::Value::String(t) => JsonValue::String(t.clone()),
        serde_json::Value::Array(a) => JsonValue::Array(a.iter().map(model_of).collect()),
        serde_json::Value::Object(m) => JsonValue::Object(m.iter().map(|(k, x)| (k.clone(), model_of(x))).collect()),
    }
}

/// Reads a JSON document from `text`: the document serde_json reads, in the
/// library's model, or `None` when `text` is not valid JSON. Every object of
/// a document read this way has distinct keys.
pub fn parse_document(text: &str) -> (res: Option<JsonValue>)
    ensures
        res == parsed_document(text@),
        res matches Some(v) ==> keys_distinct(v),
{
    parse_json(text)
}

} // verus!
