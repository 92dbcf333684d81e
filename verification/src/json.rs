//! JSON, as the two data files hold it: read and written by `serde_json`,
//! handed to the rest of the library as a plain [`Json`] value.

use vstd::prelude::*;

verus! {

/// A JSON document as plain values. Object members come as `serde_json`
/// gives them, keys in sorted order and a repeated key holding its last
/// value; a number that is not a non-negative integer is `Number(None)`.
#[derive(Debug)]
pub enum Json {
    Null,
    Bool(bool),
    Number(Option<u64>),
    Text(String),
    Array(Vec<Json>),
    Object(Vec<(String, Json)>),
}

#[verifier::external_type_specification]
#[verifier::external_body]
pub struct ExJsonValue(serde_json::Value);

/// What `serde_json` reads `text` as, or `None` when it is not JSON.
pub uninterp spec fn json_value(text: Seq<char>) -> Option<Json>;

/// How `serde_json::to_string_pretty` writes `value`.
pub uninterp spec fn json_pretty(value: Json) -> Seq<char>;

/// `serde_json::from_str::<serde_json::Value>`: `None` exactly when the text
/// is not a JSON document; what it reads is named, not stated.
#[verifier::external_body]
pub(crate) fn parse(text: &str) -> (r: Option<Json>)
    ensures
        r == json_value(text@),
{
    match serde_json::from_str::<serde_json::Value>(text) {
        Ok(value) => Some(from_serde(value)),
        Err(_) => None,
    }
}

/// `serde_json::to_string_pretty`: two-space indented JSON text, named,
/// not stated. Writing a `serde_json::Value` into memory never fails: its
/// keys are strings and its numbers finite, so the error it could report is
/// never given.
#[verifier::external_body]
pub(crate) fn pretty(value: &Json) -> (r: Result<String, String>)
    ensures
        r is Ok,
        r matches Ok(s) ==> s@ == json_pretty(*value),
{
    serde_json::to_string_pretty(&to_serde(value)).map_err(|e| e.to_string())
}

/// The conversion [`parse`] ends with: a `serde_json::Value` as a [`Json`],
/// variant for variant.
#[verifier::external_body]
fn from_serde(value: serde_json::Value) -> Json {
    match value {
        serde_json::Value::Null => Json::Null,
        serde_json::Value::Bool(b) => Json::Bool(b),
        serde_json::Value::Number(n) => Json::Number(n.as_u64()),
        serde_json::Value::String(s) => Json::Text(s),
        serde_json::Value::Array(a) => Json::Array(a.into_iter().map(from_serde).collect()),
        serde_json::Value::Object(o) => Json::Object(o.into_iter().map(|(k, v)| (k, from_serde(v))).collect()),
    }
}

/// The conversion [`pretty`] starts with: a [`Json`] as a
/// `serde_json::Value`, variant for variant.
#[verifier::external_body]
fn to_serde(value: &Json) -> serde_json::Value {
    match value {
        Json::Null | Json::Number(None) => serde_json::Value::Null,
        Json::Bool(b) => serde_json::Value::Bool(*b),
        Json::Number(Some(n)) => serde_json::Value::from(*n),
        Json::Text(s) => serde_json::Value::String(s.clone()),
        Json::Array(a) => serde_json::Value::Array(a.iter().map(to_serde).collect()),
        Json::Object(o) => serde_json::Value::Object(o.iter().map(|(k, v)| (k.clone(), to_serde(v))).collect()),
    }
}

/// The member of an object named `key`: the first, should there be two.
pub open spec fn member(members: Seq<(String, Json)>, key: Seq<char>) -> Option<Json>
    decreases members.len(),
{
    if members.len() == 0 {
        None
    } else if members[0].0@ == key {
        Some(members[0].1)
    } else {
        member(members.drop_first(), key)
    }
}

/// The member of `members` named `key`.
pub fn find<'a>(members: &'a Vec<(String, Json)>, key: &str) -> (r: Option<&'a Json>)
    ensures
        match r {
            Some(v) => member(members@, key@) == Some(*v),
            None => member(members@, key@) is None,
        },
{
    let mut i: usize = 0;
    assert(members@.skip(0) == members@);
    while i < members.len()
        invariant
            i <= members.len(),
            member(members@, key@) == member(members@.skip(i as int), key@),
        decreases members.len() - i,
    {
        assert(members@.skip(i as int).drop_first() == members@.skip(i + 1));
        if crate::text::same(members[i].0.as_str(), key) {
            return Some(&members[i].1);
        }
        i += 1;
    }
    None
}

} // verus!
