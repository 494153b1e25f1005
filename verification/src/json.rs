//! JSON values as plain data: what `serde_json` parses a text into, and
//! the lookups the Web API answers are read with (`value[key]`,
//! `value[i]`, `as_str`, `as_array`).
use vstd::prelude::*;
use crate::text::str_eq;

verus! {

/// A JSON value; a number is kept as the text `serde_json` writes for it,
/// an object as its members in the order `serde_json` keeps them.
#[derive(Debug)]
pub enum Json {
    Null,
    Bool(bool),
    Number(String),
    Str(String),
    Array(Vec<Json>),
    Object(Vec<(String, Json)>),
}

#[verifier::external_type_specification]
#[verifier::external_body]
pub struct ExJsonValue(serde_json::Value);

#[verifier::external_type_specification]
#[verifier::external_body]
pub struct ExJsonError(serde_json::Error);

/// What `serde_json::from_str::<Value>` makes of a text, as a [`Json`]:
/// none when the text is not one JSON value (surrounded by whitespace only,
/// nested at most as deep as the parser's recursion limit).
pub uninterp spec fn parsed_json(text: Seq<char>) -> Option<Json>;

/// Turns a `serde_json::Value` into a [`Json`], one variant for one: a
/// number becomes its `Display` text, an object its `(key, value)` pairs in
/// the map's order.
#[verifier::external_body]
fn json_from_value(v: serde_json::Value) -> Json {
    match v {
        serde_json::Value::Null => Json::Null,
        serde_json::Value::Bool(b) => Json::Bool(b),
        serde_json::Value::Number(n) => Json::Number(n.to_string()),
        serde_json::Value::String(s) => Json::Str(s),
        serde_json::Value::Array(a) => Json::Array(a.into_iter().map(json_from_value).collect()),
        serde_json::Value::Object(m) => Json::Object(
            m.into_iter().map(|(k, x)| (k, json_from_value(x))).collect(),
        ),
    }
}

/// `serde_json::from_str::<Value>`, the value turned into a [`Json`].
///
/// Trusted: the value is stated through the name [`parsed_json`], a
/// function of the text alone; the error is passed on as `serde_json` gives
/// it.
#[verifier::external_body]
pub(crate) fn json_parse(text: &str) -> (r: Result<Json, serde_json::Error>)
    ensures
        r is Ok <==> parsed_json(text@) is Some,
        r matches Ok(j) ==> parsed_json(text@) == Some(j),
{
    serde_json::from_str::<serde_json::Value>(text).map(json_from_value)
}

/// The `Display` text of a `serde_json::Error`.
///
/// Trusted, and says nothing of the message.
#[verifier::external_body]
pub(crate) fn json_error_message(e: &serde_json::Error) -> String {
    e.to_string()
}

/// The first member named `key` among `es`, `Null` when there is none.
pub open spec fn member_in(es: Seq<(String, Json)>, key: Seq<char>) -> Json
    decreases es.len(),
{
    if es.len() == 0 {
        Json::Null
    } else if es[0].0@ == key {
        es[0].1
    } else {
        member_in(es.skip(1), key)
    }
}

/// `value[key]`: the member named `key` of an object, `Null` when there is
/// none or `j` is no object.
pub open spec fn member(j: Json, key: Seq<char>) -> Json {
    match j {
        Json::Object(es) => member_in(es@, key),
        _ => Json::Null,
    }
}

/// `value[i]`: the element at `i` of an array, `Null` when out of range or
/// `j` is no array.
pub open spec fn element(j: Json, i: int) -> Json {
    match j {
        Json::Array(v) => if 0 <= i < v.len() {
            v@[i]
        } else {
            Json::Null
        },
        _ => Json::Null,
    }
}

/// `value.as_str()`: the text of a string.
pub open spec fn as_str(j: Json) -> Option<String> {
    match j {
        Json::Str(s) => Some(s),
        _ => None,
    }
}

/// `value.as_array()`: the elements of an array.
pub open spec fn as_array(j: Json) -> Option<Seq<Json>> {
    match j {
        Json::Array(v) => Some(v@),
        _ => None,
    }
}

/// A looked-up value, `Null` when the lookup found nothing.
pub open spec fn or_null(r: Option<&Json>) -> Json {
    match r {
        Some(x) => *x,
        None => Json::Null,
    }
}

/// `value[key]`, `None` standing for `Null`.
pub fn get_member<'a>(j: Option<&'a Json>, key: &str) -> (r: Option<&'a Json>)
    ensures
        or_null(r) == member(or_null(j), key@),
{
    match j {
        Some(Json::Object(es)) => {
            let mut i: usize = 0;
            assert(es@.skip(0) =~= es@);
            while i < es.len()
                invariant
                    i <= es.len(),
                    or_null(j) == Json::Object(*es),
                    member_in(es@, key@) == member_in(es@.skip(i as int), key@),
                decreases es.len() - i,
            {
                proof {
                    assert(es@.skip(i as int)[0] == es@[i as int]);
                    assert(es@.skip(i as int).skip(1) =~= es@.skip(i + 1));
                }
                if str_eq(es[i].0.as_str(), key) {
                    proof {
                        let t = es@.skip(i as int);
                        assert(t.len() > 0 && t[0].0@ == key@);
                        assert(member_in(t, key@) == t[0].1);
                        assert(t[0] == es@[i as int]);
                        assert(member(or_null(j), key@) == member_in(es@, key@));
                    }
                    return Some(&es[i].1);
                }
                i = i + 1;
            }
            assert(es@.skip(i as int).len() == 0);
            None
        },
        _ => None,
    }
}

/// `value[i]`, `None` standing for `Null`.
pub fn get_element<'a>(j: Option<&'a Json>, i: usize) -> (r: Option<&'a Json>)
    ensures
        or_null(r) == element(or_null(j), i as int),
{
    match j {
        Some(Json::Array(v)) => if i < v.len() {
            Some(&v[i])
        } else {
            None
        },
        _ => None,
    }
}

/// `value.as_str()`, copied.
pub fn str_of(j: Option<&Json>) -> (r: Option<String>)
    ensures
        r == as_str(or_null(j)),
{
    match j {
        Some(Json::Str(s)) => Some(s.clone()),
        _ => None,
    }
}

/// `value.as_array()`.
pub fn array_of<'a>(j: Option<&'a Json>) -> (r: Option<&'a Vec<Json>>)
    ensures
        match r {
            Some(v) => as_array(or_null(j)) == Some(v@),
            None => as_array(or_null(j)) is None,
        },
{
    match j {
        Some(Json::Array(v)) => Some(v),
        _ => None,
    }
}

} // verus!
