//! JSON text: reading it into a `JsonValue` and writing a `JsonValue` out as
//! pretty-printed text, both done by `serde_json`.

use vstd::prelude::*;
use crate::json::{Json, JsonNumber, JsonValue, integer_numbers, nesting_within};
use crate::equiv::json_equiv;

verus! {

#[verifier::external_type_specification]
#[verifier::external_body]
pub struct ExSerdeJsonValue(serde_json::Value);

#[verifier::external_type_specification]
#[verifier::external_body]
pub struct ExSerdeJsonNumber(serde_json::Number);

#[verifier::external_type_specification]
#[verifier::external_body]
pub struct ExSerdeJsonError(serde_json::Error);

/// The JSON value that `serde_json` reads from `text`, or `None` where it
/// refuses the text.
pub uninterp spec fn json_of_text(text: Seq<char>) -> Option<Json>;

/// The text that `serde_json::to_string_pretty` writes for the value `v`.
pub uninterp spec fn pretty_text_of(v: Json) -> Seq<char>;

/// Converts a number of `serde_json` into the library's number, shape for
/// shape: a `u64` stays a non-negative integer, an `i64` that is not a
/// `u64` a negative one, and a float is held by the text `serde_json`
/// writes for it.
#[verifier::external_body]
fn number_of_serde(n: &serde_json::Number) -> JsonNumber {
    if n.is_u64() {
        JsonNumber::PosInt(n.as_u64().unwrap_or(0))
    } else if n.is_i64() {
        JsonNumber::NegInt(n.as_i64().unwrap_or(0))
    } else {
        JsonNumber::Float(n.to_string())
    }
}

/// Converts a `serde_json` value into the library's value, variant for
/// variant; object members come in the map's key order.
#[verifier::external_body]
fn value_of_serde(v: &serde_json::Value) -> JsonValue {
    match v {
        serde_json::Value::Null => JsonValue::Null,
        serde_json::Value::Bool(b) => JsonValue::Bool(*b),
        serde_json::Value::Number(n) => JsonValue::Number(number_of_serde(n)),
        serde_json::Value::String(s) => JsonValue::String(s.clone()),
        serde_json::Value::Array(a) => JsonValue::Array(a.iter().map(value_of_serde).collect()),
        serde_json::Value::Object(m) => JsonValue::Object(
            m.iter().map(|(k, x)| (k.clone(), value_of_serde(x))).collect(),
        ),
    }
}

/// Converts a number of the library into a `serde_json` value: integers
/// into numbers, and a float text through `Number::from_str` (correctly
/// rounded, with `float_roundtrip`, so the text `serde_json` wrote for a
/// float reads back to that float); a text that `serde_json` reads as no
/// number becomes null.
#[verifier::external_body]
fn serde_of_number(n: &JsonNumber) -> serde_json::Value {
    match n {
        JsonNumber::PosInt(u) => serde_json::Value::from(*u),
        JsonNumber::NegInt(i) => serde_json::Value::from(*i),
        JsonNumber::Float(t) => t.parse::<serde_json::Number>().map_or(
            serde_json::Value::Null,
            serde_json::Value::Number,
        ),
    }
}

/// Converts a library value into a `serde_json` value, variant for
/// variant; where an object holds a key twice, the later member wins.
#[verifier::external_body]
fn serde_of_value(v: &JsonValue) -> serde_json::Value {
    match v {
        JsonValue::Null => serde_json::Value::Null,
        JsonValue::Bool(b) => serde_json::Value::Bool(*b),
        JsonValue::Number(n) => serde_of_number(n),
        JsonValue::String(s) => serde_json::Value::String(s.clone()),
        JsonValue::Array(a) => serde_json::Value::Array(a.iter().map(serde_of_value).collect()),
        JsonValue::Object(m) => serde_json::Value::Object(
            m.iter().map(|(k, x)| (k.clone(), serde_of_value(x))).collect(),
        ),
    }
}

/// Reads JSON text with `serde_json::from_str` into a `serde_json::Value`
/// and converts it. Claims: the result is `json_of_text` of the text, the
/// parse fails exactly where `json_of_text` is `None`, and a parsed value
/// holds no key twice in any object (a `serde_json` map has unique keys).
#[verifier::external_body]
pub(crate) fn parse_json_text(text: &str) -> (parsed: Result<JsonValue, serde_json::Error>)
    ensures
        match parsed {
            Ok(v) => json_of_text(text@) == Some(v@) && v@.well_formed(),
            Err(_) => json_of_text(text@) is None,
        },
{
    serde_json::from_str::<serde_json::Value>(text).map(|v| value_of_serde(&v))
}

/// Converts a value into a `serde_json::Value` and writes it with
/// `serde_json::to_string_pretty`. Claims: writing succeeds (a `Value` is
/// written into a `Vec` by a serializer with no failing path: every map key
/// is a string and every number finite), and the text is `pretty_text_of`
/// the value's model. Two further claims: the text depends on a
/// well-formed value only up to the order of object members (the members
/// go into a `serde_json::Map`, which keeps its keys sorted); and
/// `serde_json::from_str` reads the text back to an equivalent well-formed
/// value when every number is an integer and arrays and objects nest at
/// most 127 deep (the parser refuses the 128th level).
#[verifier::external_body]
fn json_pretty_text(doc: &JsonValue) -> (text: Result<String, serde_json::Error>)
    ensures
        text is Ok,
        text->Ok_0@ == pretty_text_of(doc@),
        forall|b: Json| #![trigger pretty_text_of(b)]
            b.well_formed() && doc@.well_formed() && json_equiv(b, doc@)
                ==> text->Ok_0@ == pretty_text_of(b),
        doc@.well_formed() && integer_numbers(doc@) && nesting_within(doc@, 127)
            ==> json_of_text(text->Ok_0@) is Some && json_of_text(text->Ok_0@)->0.well_formed()
                && json_equiv(json_of_text(text->Ok_0@)->0, doc@),
{
    serde_json::to_string_pretty(&serde_of_value(doc))
}

/// The model of an optional text.
pub open spec fn text_model(t: Option<&str>) -> Option<Seq<char>> {
    match t {
        Some(s) => Some(s@),
        None => None,
    }
}

/// The empty JSON object.
pub open spec fn empty_object() -> Json {
    Json::Object(Seq::empty())
}

/// The document that a configuration file's content gives: the JSON value
/// it holds, or an empty object when there is no content or it is not
/// valid JSON.
pub open spec fn initial_model(content: Option<Seq<char>>) -> Json {
    match content {
        Some(t) => match json_of_text(t) {
            Some(j) => j,
            None => empty_object(),
        },
        None => empty_object(),
    }
}

/// A new empty object.
pub fn new_empty_object() -> (e: JsonValue)
    ensures
        e@ == empty_object(),
        e@.well_formed(),
{
    let e = JsonValue::Object(Vec::new());
    proof {
        e.lemma_model_unfold();
        assert(crate::json::members_model(Seq::<(String, JsonValue)>::empty()) =~= Seq::empty());
    }
    e
}

/// The document to start from: the JSON value that `content` holds, or an
/// empty object when there is no content or it is not valid JSON.
pub fn initial_document(content: Option<&str>) -> (doc: JsonValue)
    ensures
        doc@ == initial_model(text_model(content)),
        doc@.well_formed(),
{
    match content {
        Some(text) => match parse_json_text(text) {
            Ok(v) => v,
            Err(_) => new_empty_object(),
        },
        None => new_empty_object(),
    }
}

/// The pretty-printed JSON text of `doc`.
pub fn document_text(doc: &JsonValue) -> (text: String)
    ensures
        text@ == pretty_text_of(doc@),
        forall|b: Json|
            b.well_formed() && doc@.well_formed() && json_equiv(b, doc@) ==> #[trigger] pretty_text_of(b)
                == text@,
        doc@.well_formed() && integer_numbers(doc@) && nesting_within(doc@, 127) ==> (json_of_text(
            text@,
        ) matches Some(w) && w.well_formed() && json_equiv(w, doc@)),
{
    match json_pretty_text(doc) {
        Ok(t) => t,
        Err(_) => {
            assert(false);
            String::new()
        },
    }
}

} // verus!
