//! JSON documents as the Threads parser reads them, decoded by `serde_json`.
use vstd::prelude::*;

verus! {

/// A JSON value. Numbers keep what `serde_json::Value::as_i64` gives: the value where it is an
/// integer that fits in an `i64`, otherwise nothing. Object members keep the order in which
/// `serde_json` holds them.
pub enum Json {
    Null,
    Bool(bool),
    Number(Option<i64>),
    Str(String),
    Array(Vec<Json>),
    Object(Vec<(String, Json)>),
}

#[verifier::external_type_specification]
#[verifier::external_body]
pub struct ExValue(serde_json::Value);

/// The document that `serde_json` decodes from `text`, or nothing where `text` is not JSON.
pub uninterp spec fn decoded_json(text: Seq<char>) -> Option<Json>;

/// `serde_json::from_str::<serde_json::Value>`: decodes `text`; the result is
/// [`decoded_json`] of the text, which depends on the text alone. What that document is for a
/// given text (the JSON grammar) is left to `serde_json` and not stated here.
#[verifier::external_body]
pub(crate) fn parse_json(text: &str) -> (r: Option<Json>)
    ensures
        r == decoded_json(text@),
{
    serde_json::from_str::<serde_json::Value>(text).ok().map(json_from_value)
}

/// Moves a `serde_json::Value` into a [`Json`], variant for variant; numbers through
/// `serde_json::Number::as_i64`.
#[verifier::external_body]
fn json_from_value(v: serde_json::Value) -> Json {
    match v {
        serde_json::Value::Null => Json::Null,
        serde_json::Value::Bool(b) => Json::Bool(b),
        serde_json::Value::Number(n) => Json::Number(n.as_i64()),
        serde_json::Value::String(s) => Json::Str(s),
        serde_json::Value::Array(a) => Json::Array(a.into_iter().map(json_from_value).collect()),
        serde_json::Value::Object(m) => Json::Object(m.into_iter().map(|(k, x)| (k, json_from_value(x))).collect()),
    }
}

/// The member `k` of an object (the first with that name); nothing for other values.
pub open spec fn member(fields: Seq<(String, Json)>, k: Seq<char>) -> Option<Json>
    decreases fields.len(),
{
    if fields.len() == 0 {
        None
    } else if fields[0].0@ == k {
        Some(fields[0].1)
    } else {
        member(fields.drop_first(), k)
    }
}

/// `Value::get` with a key.
pub open spec fn json_get(v: Json, k: Seq<char>) -> Option<Json> {
    match v {
        Json::Object(m) => member(m@, k),
        _ => None,
    }
}

pub open spec fn opt_get(v: Option<Json>, k: Seq<char>) -> Option<Json> {
    match v {
        Some(x) => json_get(x, k),
        None => None,
    }
}

/// `Value::get` with a key.
pub fn get<'a>(v: &'a Json, k: &str) -> (r: Option<&'a Json>)
    ensures
        match r {
            Some(x) => json_get(*v, k@) == Some(*x),
            None => json_get(*v, k@) is None,
        },
{
    match v {
        Json::Object(m) => {
            let mut i: usize = 0;
            assert(m@.skip(0) =~= m@);
            while i < m.len()
                invariant
                    i <= m@.len(),
                    *v == Json::Object(*m),
                    member(m@, k@) == member(m@.skip(i as int), k@),
                decreases m@.len() - i,
            {
                assert(m@.skip(i as int)[0] == m@[i as int]);
                if crate::text::str_eq(m[i].0.as_str(), k) {
                    assert(member(m@.skip(i as int), k@) == Some(m@[i as int].1));
                    return Some(&m[i].1);
                }
                assert(m@.skip(i as int).drop_first() =~= m@.skip(i as int + 1));
                i = i + 1;
            }
            assert(m@.skip(i as int) =~= Seq::<(String, Json)>::empty());
            None
        },
        _ => None,
    }
}

} // verus!
