use gsm_windrose::json::{JsonNumber, JsonValue};
use gsm_windrose::merge::deep_merge;
use serde_json::{Number, Value};

fn from_serde(v: &Value) -> JsonValue {
    match v {
        Value::Null => JsonValue::Null,
        Value::Bool(b) => JsonValue::Bool(*b),
        Value::Number(n) => {
            if let Some(u) = n.as_u64() {
                JsonValue::Number(JsonNumber::PosInt(u))
            } else if let Some(i) = n.as_i64() {
                JsonValue::Number(JsonNumber::NegInt(i))
            } else {
                JsonValue::Number(JsonNumber::Float(n.to_string()))
            }
        }
        Value::String(s) => JsonValue::String(s.clone()),
        Value::Array(items) => JsonValue::Array(items.iter().map(from_serde).collect()),
        Value::Object(members) => JsonValue::Object(
            members
                .iter()
                .map(|(k, v)| (k.clone(), from_serde(v)))
                .collect(),
        ),
    }
}

fn to_serde(v: &JsonValue) -> Value {
    match v {
        JsonValue::Null => Value::Null,
        JsonValue::Bool(b) => Value::Bool(*b),
        JsonValue::Number(JsonNumber::PosInt(u)) => Value::Number(Number::from(*u)),
        JsonValue::Number(JsonNumber::NegInt(i)) => Value::Number(Number::from(*i)),
        JsonValue::Number(JsonNumber::Float(text)) => Value::Number(text.parse::<Number>().unwrap()),
        JsonValue::String(s) => Value::String(s.clone()),
        JsonValue::Array(items) => Value::Array(items.iter().map(to_serde).collect()),
        JsonValue::Object(members) => {
            let mut map = serde_json::Map::new();
            for (k, v) in members {
                map.insert(k.clone(), to_serde(v));
            }
            Value::Object(map)
        }
    }
}

fn parse(text: &str) -> JsonValue {
    from_serde(&serde_json::from_str::<Value>(text).unwrap())
}

fn expect(text: &str) -> Value {
    serde_json::from_str::<Value>(text).unwrap()
}

#[test]
fn test_deep_merge_overwrite_scalar() {
    let mut target = parse(r#"{"a": 1, "b": {"c": 2}}"#);
    let source = parse(r#"{"a": 2}"#);
    deep_merge(&mut target, &source);
    assert_eq!(to_serde(&target), expect(r#"{"a": 2, "b": {"c": 2}}"#));
}

#[test]
fn test_deep_merge_add_new_key() {
    let mut target = parse(r#"{"a": 1}"#);
    let source = parse(r#"{"b": 2}"#);
    deep_merge(&mut target, &source);
    assert_eq!(to_serde(&target), expect(r#"{"a": 1, "b": 2}"#));
}

#[test]
fn test_deep_merge_recursive() {
    let mut target = parse(r#"{"a": {"b": 1, "c": 2}}"#);
    let source = parse(r#"{"a": {"b": 3, "d": 4}}"#);
    deep_merge(&mut target, &source);
    assert_eq!(to_serde(&target), expect(r#"{"a": {"b": 3, "c": 2, "d": 4}}"#));
}

#[test]
fn test_deep_merge_idempotency() {
    let mut target = parse(r#"{"a": 1}"#);
    let source = parse(r#"{"a": 2}"#);
    deep_merge(&mut target, &source);
    assert_eq!(to_serde(&target), expect(r#"{"a": 2}"#));
    deep_merge(&mut target, &source);
    assert_eq!(to_serde(&target), expect(r#"{"a": 2}"#));
}

#[test]
fn arrays_are_overwritten_not_merged() {
    let mut target = parse(r#"{"a": [1, 2, 3], "b": true}"#);
    let source = parse(r#"{"a": [4]}"#);
    deep_merge(&mut target, &source);
    assert_eq!(to_serde(&target), expect(r#"{"a": [4], "b": true}"#));
}

#[test]
fn object_source_replaces_scalar_target() {
    let mut target = parse(r#"{"a": "text"}"#);
    let source = parse(r#"{"a": {"x": null}}"#);
    deep_merge(&mut target, &source);
    assert_eq!(to_serde(&target), expect(r#"{"a": {"x": null}}"#));
}

#[test]
fn scalar_source_replaces_object_target() {
    let mut target = parse(r#"{"a": {"x": 1, "y": 2}}"#);
    let source = parse(r#"{"a": -7}"#);
    deep_merge(&mut target, &source);
    assert_eq!(to_serde(&target), expect(r#"{"a": -7}"#));
}

#[test]
fn non_object_target_is_replaced_by_source() {
    let mut target = parse(r#"[1, 2]"#);
    let source = parse(r#"{"k": 1.5}"#);
    deep_merge(&mut target, &source);
    assert_eq!(to_serde(&target), expect(r#"{"k": 1.5}"#));
}

#[test]
fn top_level_scalar_source_overwrites_object() {
    let mut target = parse(r#"{"k": 1}"#);
    let source = parse(r#"null"#);
    deep_merge(&mut target, &source);
    assert_eq!(to_serde(&target), Value::Null);
}

#[test]
fn empty_source_object_changes_nothing() {
    let mut target = parse(r#"{"a": {"b": [true]}, "c": "d"}"#);
    let source = parse(r#"{}"#);
    deep_merge(&mut target, &source);
    assert_eq!(to_serde(&target), expect(r#"{"a": {"b": [true]}, "c": "d"}"#));
}

#[test]
fn merging_a_value_into_itself_gives_it_back() {
    let text = r#"{"a": {"b": 1, "c": [1, {"d": 2}]}, "e": "f", "g": 18446744073709551615}"#;
    let mut target = parse(text);
    let source = parse(text);
    deep_merge(&mut target, &source);
    assert_eq!(to_serde(&target), expect(text));
}

#[test]
fn deep_merge_three_levels_keeps_siblings() {
    let mut target = parse(r#"{"a": {"b": {"c": 1, "d": 2}, "e": 3}, "f": 4}"#);
    let source = parse(r#"{"a": {"b": {"c": 10, "z": 0}}}"#);
    deep_merge(&mut target, &source);
    assert_eq!(
        to_serde(&target),
        expect(r#"{"a": {"b": {"c": 10, "d": 2, "z": 0}, "e": 3}, "f": 4}"#)
    );
}

#[test]
fn merge_idempotent_on_nested_objects() {
    let mut target = parse(r#"{"a": {"b": 1}, "x": [0]}"#);
    let source = parse(r#"{"a": {"c": {"d": 2}}, "x": {"y": 1}}"#);
    deep_merge(&mut target, &source);
    let once = to_serde(&target);
    deep_merge(&mut target, &source);
    assert_eq!(to_serde(&target), once);
    assert_eq!(once, expect(r#"{"a": {"b": 1, "c": {"d": 2}}, "x": {"y": 1}}"#));
}

#[test]
fn deep_copy_keeps_the_value() {
    let v = parse(r#"{"a": [1, -2, 2.5, "s", null, false], "b": {}}"#);
    let c = v.deep_copy();
    assert_eq!(to_serde(&c), to_serde(&v));
}
