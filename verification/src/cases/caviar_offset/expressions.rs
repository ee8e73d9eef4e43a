use vstd::prelude::*;
use crate::cases::caviar_offset::analysis::CaviarAnalysis;
use crate::cases::caviar_offset::parse::{denotes, parse, read_all, tokens};
use crate::ematch::Pattern;

verus! {

/// A JSON value, with numbers kept as their text.
pub enum JsonValue {
    Null,
    Bool(bool),
    Number(String),
    Str(String),
    Array(Vec<JsonValue>),
    Object(Vec<(String, JsonValue)>),
}

#[verifier::external_type_specification]
#[verifier::external_body]
pub struct ExJsonValue(serde_json::Value);

/// The JSON value that the bytes hold, as `serde_json` reads it (objects
/// with their fields in the order that `serde_json` keeps); `None` where
/// they hold none.
pub uninterp spec fn json_of(bytes: Seq<u8>) -> Option<JsonValue>;

/// Copies a `serde_json` value, field for field.
#[verifier::external_body]
fn json_from_value(v: serde_json::Value) -> (res: JsonValue) {
    match v {
        serde_json::Value::Null => JsonValue::Null,
        serde_json::Value::Bool(b) => JsonValue::Bool(b),
        serde_json::Value::Number(n) => JsonValue::Number(n.to_string()),
        serde_json::Value::String(s) => JsonValue::Str(s),
        serde_json::Value::Array(a) => JsonValue::Array(a.into_iter().map(json_from_value).collect()),
        serde_json::Value::Object(o) => JsonValue::Object(o.into_iter().map(|(k, x)| (k, json_from_value(x))).collect()),
    }
}

/// `serde_json::from_slice` into a `serde_json::Value`, copied into a
/// `JsonValue`; `None` where `serde_json` reports an error. The contract
/// names the result `json_of(bytes)`: what the bytes hold is not stated
/// here.
#[verifier::external_body]
fn parse_json(bytes: &[u8]) -> (res: Option<JsonValue>)
    ensures
        res == json_of(bytes@),
{
    match serde_json::from_slice::<serde_json::Value>(bytes) {
        Ok(v) => Some(json_from_value(v)),
        Err(_) => None,
    }
}

/// The value of the first field named `key`.
pub open spec fn field_of(fields: Seq<(String, JsonValue)>, key: Seq<char>) -> Option<JsonValue>
    decreases fields.len(),
{
    if fields.len() == 0 {
        None
    } else if fields[0].0@ == key {
        Some(fields[0].1)
    } else {
        field_of(fields.drop_first(), key)
    }
}

/// `v[name]`: the field `name` of an object, and nothing of anything else.
pub open spec fn index_spec(v: Option<JsonValue>, name: Seq<char>) -> Option<JsonValue> {
    match v {
        Some(JsonValue::Object(fields)) => field_of(fields@, name),
        _ => None,
    }
}

/// The text at `v["expression"][name]`, where that is a string.
pub open spec fn expression_text(v: JsonValue, name: Seq<char>) -> Option<Seq<char>> {
    match index_spec(index_spec(Some(v), "expression"@), name) {
        Some(JsonValue::Str(s)) => Some(s@),
        _ => None,
    }
}

/// Entry `v` holds a start and an end expression that both read.
pub open spec fn entry_reads(v: JsonValue) -> bool {
    &&& expression_text(v, "start"@) matches Some(s) && read_all(tokens(s)) is Some
    &&& expression_text(v, "end"@) matches Some(e) && read_all(tokens(e)) is Some
}

/// What `expression_pairs` gives for `v`: `None` unless `v` is an array
/// whose every entry reads; otherwise, in order, the start and end
/// expressions of each entry.
pub open spec fn pairs_post(
    v: JsonValue,
    res: Option<Seq<(Pattern<CaviarAnalysis>, Pattern<CaviarAnalysis>)>>,
) -> bool {
    match v {
        JsonValue::Array(items) => match res {
            None => exists|i: int| 0 <= i < items@.len() && !#[trigger] entry_reads(items@[i]),
            Some(ps) => ps.len() == items@.len() && forall|i: int|
                0 <= i < items@.len() ==> #[trigger] entry_reads(items@[i]) && denotes(
                    ps[i].0,
                    read_all(tokens(expression_text(items@[i], "start"@)->Some_0))->Some_0,
                ) && denotes(
                    ps[i].1,
                    read_all(tokens(expression_text(items@[i], "end"@)->Some_0))->Some_0,
                ),
        },
        _ => res is None,
    }
}

/// The field named `key`, as `field_of` says.
fn get_field<'a>(fields: &'a Vec<(String, JsonValue)>, key: &String) -> (res: Option<&'a JsonValue>)
    ensures
        match res {
            Some(r) => field_of(fields@, key@) == Some(*r),
            None => field_of(fields@, key@) is None,
        },
{
    let mut i: usize = 0;
    proof {
        assert(fields@.skip(0) =~= fields@);
    }
    while i < fields.len()
        invariant
            i <= fields@.len(),
            field_of(fields@, key@) == field_of(fields@.skip(i as int), key@),
        decreases fields.len() - i,
    {
        proof {
            assert(fields@.skip(i as int).drop_first() =~= fields@.skip(i + 1));
        }
        if fields[i].0 == *key {
            return Some(&fields[i].1);
        }
        i += 1;
    }
    None
}

/// `v["expression"][name]`, where that is a string.
fn expression_str<'a>(v: &'a JsonValue, name: &String) -> (res: Option<&'a String>)
    requires
        name@ == "start"@ || name@ == "end"@,
    ensures
        match res {
            Some(s) => expression_text(*v, name@) == Some(s@),
            None => expression_text(*v, name@) is None,
        },
{
    let expr = "expression".to_owned();
    proof {
        reveal_strlit("expression");
    }
    let e = match v {
        JsonValue::Object(fields) => get_field(fields, &expr),
        _ => None,
    };
    match e {
        Some(JsonValue::Object(fields)) => match get_field(fields, name) {
            Some(JsonValue::Str(s)) => Some(s),
            _ => None,
        },
        _ => None,
    }
}

/// The start and end expressions of each entry of the array `v`: `None`
/// where `v` is not an array or some entry lacks a start or an end string
/// that reads as an expression.
pub fn expression_pairs(v: &JsonValue) -> (res: Option<Vec<(Pattern<CaviarAnalysis>, Pattern<CaviarAnalysis>)>>)
    ensures
        pairs_post(*v, match res {
            Some(ps) => Some(ps@),
            None => None,
        }),
{
    let items = match v {
        JsonValue::Array(items) => items,
        _ => {
            return None;
        },
    };
    let start = "start".to_owned();
    let end = "end".to_owned();
    proof {
        reveal_strlit("start");
        reveal_strlit("end");
    }
    let mut out: Vec<(Pattern<CaviarAnalysis>, Pattern<CaviarAnalysis>)> = Vec::new();
    let mut i: usize = 0;
    proof {
        assert(*v == JsonValue::Array(*items));
    }
    while i < items.len()
        invariant
            i <= items@.len(),
            start@ == "start"@,
            end@ == "end"@,
            *v == JsonValue::Array(*items),
            out@.len() == i,
            forall|k: int|
                0 <= k < i ==> #[trigger] entry_reads(items@[k]) && denotes(
                    out@[k].0,
                    read_all(tokens(expression_text(items@[k], "start"@)->Some_0))->Some_0,
                ) && denotes(
                    out@[k].1,
                    read_all(tokens(expression_text(items@[k], "end"@)->Some_0))->Some_0,
                ),
        decreases items.len() - i,
    {
        let s = match expression_str(&items[i], &start) {
            Some(s) => s,
            None => {
                proof {
                    assert(!entry_reads(items@[i as int]));
                }
                return None;
            },
        };
        let e = match expression_str(&items[i], &end) {
            Some(e) => e,
            None => {
                proof {
                    assert(!entry_reads(items@[i as int]));
                }
                return None;
            },
        };
        let ps = match parse(s.as_str()) {
            Some(p) => p,
            None => {
                proof {
                    assert(!entry_reads(items@[i as int]));
                }
                return None;
            },
        };
        let pe = match parse(e.as_str()) {
            Some(p) => p,
            None => {
                proof {
                    assert(!entry_reads(items@[i as int]));
                }
                return None;
            },
        };
        out.push((ps, pe));
        i += 1;
    }
    Some(out)
}

/// The start and end expressions that the JSON text `bytes` holds: `None`
/// where it is not JSON, and otherwise as `expression_pairs` says.
pub fn expressions_of_bytes(bytes: &[u8]) -> (res: Option<Vec<(Pattern<CaviarAnalysis>, Pattern<CaviarAnalysis>)>>)
    ensures
        json_of(bytes@) is None ==> res is None,
        json_of(bytes@) matches Some(v) ==> pairs_post(v, match res {
            Some(ps) => Some(ps@),
            None => None,
        }),
{
    match parse_json(bytes) {
        Some(v) => expression_pairs(&v),
        None => None,
    }
}

} // verus!
