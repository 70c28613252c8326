//! A JSON document as plain values, for the parts of the host logic that read
//! manifests, node configs and node outputs.
use vstd::prelude::*;

verus! {

/// A JSON value. Numbers keep their source text; object members keep their
/// order.
#[derive(Debug)]
pub enum Json {
    Null,
    Bool(bool),
    Number(String),
    Str(String),
    Array(Vec<Json>),
    Object(Vec<(String, Json)>),
}

/// A JSON value as mathematical data.
pub enum JsonView {
    Null,
    Bool(bool),
    Number(Seq<char>),
    Str(Seq<char>),
    Array(Seq<JsonView>),
    Object(Seq<(Seq<char>, JsonView)>),
}

pub open spec fn json_view(j: Json) -> JsonView
    decreases j,
{
    match j {
        Json::Null => JsonView::Null,
        Json::Bool(b) => JsonView::Bool(b),
        Json::Number(n) => JsonView::Number(n@),
        Json::Str(s) => JsonView::Str(s@),
        Json::Array(v) => JsonView::Array(Seq::new(v@.len(), |i: int| if 0 <= i < v@.len() { json_view(v@[i]) } else { JsonView::Null })),
        Json::Object(m) => JsonView::Object(Seq::new(m@.len(), |i: int| if 0 <= i < m@.len() { (m@[i].0@, json_view(m@[i].1)) } else { (Seq::empty(), JsonView::Null) })),
    }
}

impl View for Json {
    type V = JsonView;

    open spec fn view(&self) -> JsonView {
        json_view(*self)
    }
}

/// The first member of an object named `key` (`Value::get` on an object);
/// nothing for other values.
pub open spec fn member(j: JsonView, key: Seq<char>) -> Option<JsonView> {
    match j {
        JsonView::Object(ms) => member_of(ms, key),
        _ => None,
    }
}

/// The value of the first member named `key`.
pub open spec fn member_of(ms: Seq<(Seq<char>, JsonView)>, key: Seq<char>) -> Option<JsonView>
    decreases ms.len(),
{
    if ms.len() == 0 {
        None
    } else if ms[0].0 == key {
        Some(ms[0].1)
    } else {
        member_of(ms.drop_first(), key)
    }
}

/// A deep copy.
pub fn clone_json(j: &Json) -> (r: Json)
    ensures
        r@ == j@,
    decreases j,
{
    match j {
        Json::Null => Json::Null,
        Json::Bool(b) => Json::Bool(*b),
        Json::Number(n) => Json::Number(n.clone()),
        Json::Str(s) => Json::Str(s.clone()),
        Json::Array(v) => {
            let mut out: Vec<Json> = Vec::new();
            let n = v.len();
            for i in 0..n
                invariant
                    n == v@.len(),
                    *j == Json::Array(*v),
                    out@.len() == i,
                    forall|k: int| 0 <= k < i ==> (#[trigger] out@[k])@ == v@[k]@,
            {
                proof {
                    vstd::std_specs::vec::axiom_vec_index_decreases(*v, i as int);
                    assert(decreases_to!(*j => (*j)->Array_0));
                }
                out.push(clone_json(&v[i]));
            }
            let r = Json::Array(out);
            proof {
                assert(r@->Array_0 =~= j@->Array_0);
            }
            r
        },
        Json::Object(m) => {
            let mut out: Vec<(String, Json)> = Vec::new();
            let n = m.len();
            for i in 0..n
                invariant
                    n == m@.len(),
                    *j == Json::Object(*m),
                    out@.len() == i,
                    forall|k: int| 0 <= k < i ==> (#[trigger] out@[k]).0@ == m@[k].0@ && out@[k].1@ == m@[k].1@,
            {
                let key = m[i].0.clone();
                proof {
                    vstd::std_specs::vec::axiom_vec_index_decreases(*m, i as int);
                    assert(decreases_to!(*j => (*j)->Object_0));
                    assert(decreases_to!(m@[i as int] => m@[i as int].1));
                }
                let val = clone_json(&m[i].1);
                out.push((key, val));
            }
            let r = Json::Object(out);
            proof {
                assert(r@->Object_0 =~= j@->Object_0);
            }
            r
        },
    }
}

/// The member of `j` named `key`, copied (`Value::get(key).cloned()`).
pub fn get_member(j: &Json, key: &str) -> (r: Option<Json>)
    ensures
        match r {
            Some(v) => member(j@, key@) == Some(v@),
            None => member(j@, key@) is None,
        },
{
    match j {
        Json::Object(m) => {
            let ghost ms = j@->Object_0;
            let n = m.len();
            assert(ms.skip(0) =~= ms);
            for i in 0..n
                invariant
                    n == m@.len(),
                    *j == Json::Object(*m),
                    ms.len() == n,
                    forall|k: int| 0 <= k < n ==> (#[trigger] ms[k]) == (m@[k].0@, m@[k].1@),
                    member(j@, key@) == member_of(ms.skip(i as int), key@),
            {
                assert(ms.skip(i as int)[0] == ms[i as int]);
                if crate::text::str_eq(m[i].0.as_str(), key) {
                    let r = clone_json(&m[i].1);
                    return Some(r);
                }
                assert(ms.skip(i as int).drop_first() =~= ms.skip(i + 1));
            }
            None
        },
        _ => None,
    }
}

/// A result carrying a document, as plain values.
pub open spec fn json_result_view(r: Result<Json, String>) -> Result<JsonView, Seq<char>> {
    match r {
        Ok(v) => Ok(v@),
        Err(e) => Err(e@),
    }
}

// ------------------------------------------------------------------
// Reading JSON text
// ------------------------------------------------------------------

/// What `serde_json::from_str::<serde_json::Value>` gives for a text: the
/// document as plain values, or the `Display` text of the parse error.
pub uninterp spec fn json_parse(text: Seq<char>) -> Result<JsonView, Seq<char>>;

/// What `serde_json::from_slice::<serde_json::Value>` gives for bytes: the
/// document as plain values, or the `Display` text of the parse error.
pub uninterp spec fn json_parse_bytes(bytes: Seq<u8>) -> Result<JsonView, Seq<char>>;

#[verifier::external_type_specification]
#[verifier::external_body]
pub struct ExJsonValue(serde_json::Value);

/// Converts a `serde_json::Value` into the library's document one for one
/// (a number keeps serde_json's text for it, an object its members in the
/// map's order). Used only by the parsing wrappers below.
#[verifier::external_body]
fn json_of_value(v: &serde_json::Value) -> Json {
    match v {
        serde_json::Value::Null => Json::Null,
        serde_json::Value::Bool(b) => Json::Bool(*b),
        serde_json::Value::Number(n) => Json::Number(n.to_string()),
        serde_json::Value::String(s) => Json::Str(s.clone()),
        serde_json::Value::Array(a) => Json::Array(a.iter().map(json_of_value).collect()),
        serde_json::Value::Object(m) => Json::Object(m.iter().map(|(k, x)| (k.clone(), json_of_value(x))).collect()),
    }
}

/// Converts the library's document into a `serde_json::Value` one for one (a
/// number is read back from its text, and one that does not read as a JSON
/// number becomes null; a repeated object key keeps its last value). Used
/// only by the template wrapper.
#[verifier::external_body]
pub(crate) fn value_of_json(j: &Json) -> serde_json::Value {
    match j {
        Json::Null => serde_json::Value::Null,
        Json::Bool(b) => serde_json::Value::Bool(*b),
        Json::Number(n) => n.parse::<serde_json::Number>().map(serde_json::Value::Number).unwrap_or(serde_json::Value::Null),
        Json::Str(s) => serde_json::Value::String(s.clone()),
        Json::Array(a) => serde_json::Value::Array(a.iter().map(value_of_json).collect()),
        Json::Object(m) => serde_json::Value::Object(m.iter().map(|(k, x)| (k.clone(), value_of_json(x))).collect()),
    }
}

/// Calls `serde_json::from_str::<serde_json::Value>` on `text`. Trusted: the
/// document (converted one for one), or the `Display` text of the error, is
/// what `json_parse` names for this text.
#[verifier::external_body]
pub(crate) fn parse_json(text: &str) -> (r: Result<Json, String>)
    ensures
        json_result_view(r) == json_parse(text@),
{
    serde_json::from_str::<serde_json::Value>(text).map(|v| json_of_value(&v)).map_err(|e| e.to_string())
}

/// Calls `serde_json::from_slice::<serde_json::Value>` on `bytes`. Trusted:
/// the document (converted one for one), or the `Display` text of the error,
/// is what `json_parse_bytes` names for these bytes.
#[verifier::external_body]
pub(crate) fn parse_json_bytes(bytes: &[u8]) -> (r: Result<Json, String>)
    ensures
        json_result_view(r) == json_parse_bytes(bytes@),
{
    serde_json::from_slice::<serde_json::Value>(bytes).map(|v| json_of_value(&v)).map_err(|e| e.to_string())
}

/// The document a text holds, or null when it does not parse
/// (`serde_json::from_str(text).unwrap_or(Value::Null)`).
pub fn json_or_null(text: &str) -> (r: Json)
    ensures
        r@ == match json_parse(text@) {
            Ok(v) => v,
            Err(_) => JsonView::Null,
        },
{
    match parse_json(text) {
        Ok(v) => v,
        Err(_) => Json::Null,
    }
}

/// The document a text holds, or the text itself as a string when it does
/// not parse (`serde_json::from_str(&s).unwrap_or(Value::String(s))`).
pub fn json_or_text(text: String) -> (r: Json)
    ensures
        r@ == match json_parse(text@) {
            Ok(v) => v,
            Err(_) => JsonView::Str(text@),
        },
{
    match parse_json(text.as_str()) {
        Ok(v) => v,
        Err(_) => Json::Str(text),
    }
}

/// A stored trigger config: its document, or `InvalidConfig: <error>` when
/// the text does not parse.
pub fn parse_config(text: &str) -> (r: Result<Json, String>)
    ensures
        json_result_view(r) == match json_parse(text@) {
            Ok(v) => Ok::<JsonView, Seq<char>>(v),
            Err(e) => Err::<JsonView, Seq<char>>("InvalidConfig: "@ + e),
        },
{
    match parse_json(text) {
        Ok(v) => Ok(v),
        Err(e) => Err(crate::text::concat2("InvalidConfig: ", e.as_str())),
    }
}

} // verus!
