//! JSON as the language server writes it: a parsed value, and reading the
//! fields of one the way the protocol's messages are read.

use vstd::prelude::*;

use crate::text::{chars_of, same_as, string_of};

verus! {

#[verifier::external_type_specification]
#[verifier::external_body]
pub struct ExSerdeJsonValue(serde_json::Value);

/// A JSON value. A number keeps what it is as an `i64` and as a `u64`, each
/// where it is one; an object keeps each key once, in the order of
/// `serde_json`'s map: sorted by key, a repeated key holding its last value.
#[derive(Debug)]
pub enum JsonValue {
    Null,
    Bool(bool),
    Num(Option<i64>, Option<u64>),
    Str(String),
    Array(Vec<JsonValue>),
    Object(Vec<(String, JsonValue)>),
}

/// The value `serde_json` reads from `bytes`, or `None` where they are not
/// JSON.
pub uninterp spec fn json_of(bytes: Seq<u8>) -> Option<JsonValue>;

/// `serde_json::from_slice` into a `serde_json::Value`. What it reads is a
/// function of the bytes alone, named `json_of`: `None` where they are not
/// JSON. Nothing more is claimed of the parse.
#[verifier::external_body]
pub(crate) fn parse_json(body: &[u8]) -> (r: Option<JsonValue>)
    ensures
        r == json_of(body@),
{
    match serde_json::from_slice::<serde_json::Value>(body) {
        Ok(v) => Some(converted(v)),
        Err(_) => None,
    }
}

/// A `serde_json::Value` as a `JsonValue`, variant for variant; the number's
/// `as_i64` and `as_u64`, the map's fields in its own (sorted) order. `parse_json`
/// hands what it reads through this.
#[verifier::external_body]
fn converted(v: serde_json::Value) -> JsonValue {
    match v {
        serde_json::Value::Null => JsonValue::Null,
        serde_json::Value::Bool(b) => JsonValue::Bool(b),
        serde_json::Value::Number(n) => JsonValue::Num(n.as_i64(), n.as_u64()),
        serde_json::Value::String(s) => JsonValue::Str(s),
        serde_json::Value::Array(a) => JsonValue::Array(a.into_iter().map(converted).collect()),
        serde_json::Value::Object(o) => JsonValue::Object(
            o.into_iter().map(|(k, v)| (k, converted(v))).collect(),
        ),
    }
}

// ------------------------------------------------------------------ reading

/// The value of the first field named `key`.
pub open spec fn entry_of(es: Seq<(String, JsonValue)>, key: Seq<char>) -> Option<JsonValue>
    decreases es.len(),
{
    if es.len() == 0 {
        None
    } else if es[0].0@ == key {
        Some(es[0].1)
    } else {
        entry_of(es.drop_first(), key)
    }
}

/// `v[key]`, where a value that is not there is `None`, as is any field of
/// one that is not an object.
pub open spec fn field(v: Option<JsonValue>, key: Seq<char>) -> Option<JsonValue> {
    match v {
        Some(JsonValue::Object(es)) => entry_of(es@, key),
        _ => None,
    }
}

pub open spec fn str_spec(v: Option<JsonValue>) -> Option<Seq<char>> {
    match v {
        Some(JsonValue::Str(s)) => Some(s@),
        _ => None,
    }
}

/// `as_str`, or the empty text.
pub open spec fn str_or_empty(v: Option<JsonValue>) -> Seq<char> {
    match str_spec(v) {
        Some(s) => s,
        None => Seq::empty(),
    }
}

pub open spec fn u64_spec(v: Option<JsonValue>) -> Option<u64> {
    match v {
        Some(JsonValue::Num(_, u)) => u,
        _ => None,
    }
}

pub open spec fn i64_spec(v: Option<JsonValue>) -> Option<i64> {
    match v {
        Some(JsonValue::Num(i, _)) => i,
        _ => None,
    }
}

pub open spec fn deref<'a>(v: Option<&'a JsonValue>) -> Option<JsonValue> {
    match v {
        Some(x) => Some(*x),
        None => None,
    }
}

/// `v[key]`.
pub fn get<'a>(v: Option<&'a JsonValue>, key: &str) -> (r: Option<&'a JsonValue>)
    ensures
        deref(r) == field(deref(v), key@),
{
    let es = match v {
        Some(JsonValue::Object(es)) => es,
        _ => {
            return None;
        },
    };
    let mut k: usize = 0;
    assert(es@.skip(0) =~= es@);
    while k < es.len()
        invariant
            k <= es@.len(),
            v == Some(&JsonValue::Object(*es)),
            entry_of(es@, key@) == entry_of(es@.skip(k as int), key@),
        decreases es@.len() - k,
    {
        let name = chars_of(es[k].0.as_str());
        assert(es@.skip(k as int)[0] == es@[k as int]);
        assert(es@.skip(k as int).drop_first() =~= es@.skip(k + 1));
        if same_as(name.as_slice(), key) {
            return Some(&es[k].1);
        }
        k += 1;
    }
    assert(es@.skip(k as int) =~= Seq::<(String, JsonValue)>::empty());
    None
}

/// `as_str`, copied out.
pub fn str_of(v: Option<&JsonValue>) -> (r: Option<String>)
    ensures
        match r {
            Some(s) => str_spec(deref(v)) == Some(s@),
            None => str_spec(deref(v)) is None,
        },
{
    match v {
        Some(JsonValue::Str(s)) => {
            let cs = chars_of(s.as_str());
            Some(string_of(cs.as_slice()))
        },
        _ => None,
    }
}

pub fn u64_of(v: Option<&JsonValue>) -> (r: Option<u64>)
    ensures
        r == u64_spec(deref(v)),
{
    match v {
        Some(JsonValue::Num(_, u)) => *u,
        _ => None,
    }
}

pub fn i64_of(v: Option<&JsonValue>) -> (r: Option<i64>)
    ensures
        r == i64_spec(deref(v)),
{
    match v {
        Some(JsonValue::Num(i, _)) => *i,
        _ => None,
    }
}

} // verus!
