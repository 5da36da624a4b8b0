//! A plain model of JSON documents, and the parser that produces it.

use vstd::prelude::*;

verus! {

/// A JSON value as the account logic reads it.
///
/// Integers that fit in an `i64` are held as `Int`; every other number is
/// kept as its JSON text in `Number`. An object keeps its members in order.
#[derive(Debug)]
pub enum JsonValue {
    Null,
    Bool(bool),
    Int(i64),
    Number(String),
    Str(String),
    Array(Vec<JsonValue>),
    Object(Vec<(String, JsonValue)>),
}

/// Names the value that serde_json reads from a text, or `None` when the text
/// is not a JSON document.
pub uninterp spec fn json_parse(text: Seq<char>) -> Option<JsonValue>;

/// Relies on `serde_json::from_str::<serde_json::Value>`: it succeeds exactly on
/// JSON documents and its value depends on the text alone. The error's message
/// is carried over as a string.
#[verifier::external_body]
pub(crate) fn parse_json(text: &str) -> (r: Result<JsonValue, String>)
    ensures
        match r {
            Ok(v) => json_parse(text@) == Some(v),
            Err(_) => json_parse(text@) is None,
        },
{
    match serde_json::from_str::<serde_json::Value>(text) {
        Ok(v) => Ok(from_serde_value(v)),
        Err(e) => Err(e.to_string()),
    }
}

#[verifier::external_type_specification]
#[verifier::external_body]
pub struct ExSerdeValue(serde_json::Value);

/// Converts a `serde_json::Value` into the library's model, variant by variant;
/// a number becomes `Int` when `serde_json::Number::as_i64` gives one.
#[verifier::external_body]
fn from_serde_value(v: serde_json::Value) -> JsonValue {
    match v {
        serde_json::Value::Null => JsonValue::Null,
        serde_json::Value::Bool(b) => JsonValue::Bool(b),
        serde_json::Value::Number(n) => match n.as_i64() {
            Some(i) => JsonValue::Int(i),
            None => JsonValue::Number(n.to_string()),
        },
        serde_json::Value::String(s) => JsonValue::Str(s),
        serde_json::Value::Array(a) => JsonValue::Array(a.into_iter().map(from_serde_value).collect()),
        serde_json::Value::Object(m) => JsonValue::Object(m.into_iter().map(|(k, x)| (k, from_serde_value(x))).collect()),
    }
}

/// The first member of `fields` named `key`, if any.
pub open spec fn lookup(fields: Seq<(String, JsonValue)>, key: Seq<char>) -> Option<JsonValue>
    decreases fields.len(),
{
    if fields.len() == 0 {
        None
    } else if fields[0].0@ == key {
        Some(fields[0].1)
    } else {
        lookup(fields.drop_first(), key)
    }
}

/// A member that must be a string.
pub open spec fn as_string(o: Option<JsonValue>) -> Option<String> {
    match o {
        Some(JsonValue::Str(s)) => Some(s),
        _ => None,
    }
}

/// A member that may be absent or null, and is otherwise a string.
pub open spec fn as_opt_string(o: Option<JsonValue>) -> Option<Option<String>> {
    match o {
        None => Some(None),
        Some(JsonValue::Null) => Some(None),
        Some(JsonValue::Str(s)) => Some(Some(s)),
        _ => None,
    }
}

/// A member that must be an integer within `i64`.
pub open spec fn as_i64(o: Option<JsonValue>) -> Option<i64> {
    match o {
        Some(JsonValue::Int(i)) => Some(i),
        _ => None,
    }
}

/// A member that must be an integer within `i32`.
pub open spec fn as_i32(o: Option<JsonValue>) -> Option<i32> {
    match o {
        Some(JsonValue::Int(i)) => if i32::MIN <= i <= i32::MAX {
            Some(i as i32)
        } else {
            None
        },
        _ => None,
    }
}

/// A member that may be absent or null, and is otherwise an integer within `i64`.
pub open spec fn as_opt_i64(o: Option<JsonValue>) -> Option<Option<i64>> {
    match o {
        None => Some(None),
        Some(JsonValue::Null) => Some(None),
        Some(JsonValue::Int(i)) => Some(Some(i)),
        _ => None,
    }
}

/// Index of the first member of `fields` named `key`.
pub fn find_member(fields: &Vec<(String, JsonValue)>, key: &String) -> (r: Option<usize>)
    ensures
        match r {
            Some(i) => i < fields@.len() && fields@[i as int].0@ == key@
                && lookup(fields@, key@) == Some(fields@[i as int].1),
            None => lookup(fields@, key@) is None,
        },
{
    let mut i: usize = 0;
    assert(fields@.subrange(0, fields@.len() as int) =~= fields@);
    while i < fields.len()
        invariant
            i <= fields@.len(),
            lookup(fields@, key@) == lookup(fields@.subrange(i as int, fields@.len() as int), key@),
        decreases fields@.len() - i,
    {
        let ghost rest = fields@.subrange(i as int, fields@.len() as int);
        assert(rest.drop_first() =~= fields@.subrange(i + 1, fields@.len() as int));
        if fields[i].0 == *key {
            return Some(i);
        }
        i = i + 1;
    }
    assert(fields@.subrange(i as int, fields@.len() as int).len() == 0);
    None
}

/// The member named `key`, when it is a string.
pub fn member_string(fields: &Vec<(String, JsonValue)>, key: &String) -> (r: Option<String>)
    ensures
        r == as_string(lookup(fields@, key@)),
{
    match find_member(fields, key) {
        Some(i) => match &fields[i].1 {
            JsonValue::Str(s) => Some(s.clone()),
            _ => None,
        },
        None => None,
    }
}

/// The member named `key`, when it is absent, null or a string.
pub fn member_opt_string(fields: &Vec<(String, JsonValue)>, key: &String) -> (r: Option<Option<String>>)
    ensures
        r == as_opt_string(lookup(fields@, key@)),
{
    match find_member(fields, key) {
        Some(i) => match &fields[i].1 {
            JsonValue::Null => Some(None),
            JsonValue::Str(s) => Some(Some(s.clone())),
            _ => None,
        },
        None => Some(None),
    }
}

/// The member named `key`, when it is an integer within `i64`.
pub fn member_i64(fields: &Vec<(String, JsonValue)>, key: &String) -> (r: Option<i64>)
    ensures
        r == as_i64(lookup(fields@, key@)),
{
    match find_member(fields, key) {
        Some(i) => match &fields[i].1 {
            JsonValue::Int(n) => Some(*n),
            _ => None,
        },
        None => None,
    }
}

/// The member named `key`, when it is an integer within `i32`.
pub fn member_i32(fields: &Vec<(String, JsonValue)>, key: &String) -> (r: Option<i32>)
    ensures
        r == as_i32(lookup(fields@, key@)),
{
    match find_member(fields, key) {
        Some(i) => match &fields[i].1 {
            JsonValue::Int(n) => if i32::MIN as i64 <= *n && *n <= i32::MAX as i64 {
                Some(*n as i32)
            } else {
                None
            },
            _ => None,
        },
        None => None,
    }
}

/// The member named `key`, when it is absent, null or an integer within `i64`.
pub fn member_opt_i64(fields: &Vec<(String, JsonValue)>, key: &String) -> (r: Option<Option<i64>>)
    ensures
        r == as_opt_i64(lookup(fields@, key@)),
{
    match find_member(fields, key) {
        Some(i) => match &fields[i].1 {
            JsonValue::Null => Some(None),
            JsonValue::Int(n) => Some(Some(*n)),
            _ => None,
        },
        None => Some(None),
    }
}

} // verus!
