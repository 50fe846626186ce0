use gsm_windrose::json::{JsonNumber, JsonValue};
use gsm_windrose::server_settings::{is_password_protected, server_description_mapping};
use gsm_windrose::env_value::FloatReading;
use gsm_windrose::settings::{
    apply_env_settings, apply_env_to_document, apply_env_to_text, find_env_var, EnvVar,
};
use serde_json::{Number, Value};

fn value_of(v: &Value) -> JsonValue {
    match v {
        Value::Null => JsonValue::Null,
        Value::Bool(b) => JsonValue::Bool(*b),
        Value::Number(n) => {
            if let Some(u) = n.as_u64() {
                JsonValue::Number(JsonNumber::PosInt(u))
            } else if let Some(i) = n.as_i64() {
                JsonValue::Number(JsonNumber::NegInt(i))
            } else {
                JsonValue::Number(JsonNumber::Float(n.to_string()))
            }
        }
        Value::String(s) => JsonValue::String(s.clone()),
        Value::Array(items) => JsonValue::Array(items.iter().map(value_of).collect()),
        Value::Object(members) => JsonValue::Object(
            members
                .iter()
                .map(|(k, v)| (k.clone(), value_of(v)))
                .collect(),
        ),
    }
}

fn serde_of(v: &JsonValue) -> Value {
    match v {
        JsonValue::Null => Value::Null,
        JsonValue::Bool(b) => Value::Bool(*b),
        JsonValue::Number(JsonNumber::PosInt(u)) => Value::Number(Number::from(*u)),
        JsonValue::Number(JsonNumber::NegInt(i)) => Value::Number(Number::from(*i)),
        JsonValue::Number(JsonNumber::Float(text)) => Value::Number(text.parse::<Number>().unwrap()),
        JsonValue::String(s) => Value::String(s.clone()),
        JsonValue::Array(items) => Value::Array(items.iter().map(serde_of).collect()),
        JsonValue::Object(members) => {
            let mut map = serde_json::Map::new();
            for (k, v) in members {
                map.insert(k.clone(), serde_of(v));
            }
            Value::Object(map)
        }
    }
}

fn var(name: &str, value: &str) -> EnvVar {
    EnvVar {
        name: name.to_string(),
        value: value.to_string(),
        float_reading: match value.parse::<f64>() {
            Err(_) => FloatReading::NotFloat,
            Ok(f) => match Number::from_f64(f) {
                Some(n) => FloatReading::Finite(n.to_string()),
                None => FloatReading::NonFinite,
            },
        },
    }
}

fn pair(name: &str, path: &str) -> (String, String) {
    (name.to_string(), path.to_string())
}

fn json(text: &str) -> Value {
    serde_json::from_str::<Value>(text).unwrap()
}

#[test]
fn settings_build_a_new_document() {
    let env = vec![var("WINDROSE_SERVER_NAME", "MyServer"), var("WINDROSE_MAX_PLAYERS", "10")];
    let mapping = vec![
        pair("WINDROSE_SERVER_NAME", "ServerDescription_Persistent.ServerName"),
        pair("WINDROSE_MAX_PLAYERS", "ServerDescription_Persistent.MaxPlayerCount"),
    ];
    let doc = apply_env_to_document(None, &env, &mapping);
    assert_eq!(
        serde_of(&doc),
        json(
            r#"{
                "ServerDescription_Persistent": {
                    "ServerName": "MyServer",
                    "MaxPlayerCount": 10
                }
            }"#
        )
    );
}

#[test]
fn settings_merge_into_an_existing_document() {
    let existing = r#"{
            "ServerDescription_Persistent": {
                "ServerName": "OldServer",
                "UserSelectedRegion": "US"
            },
            "OtherSetting": "Value"
        }"#;
    let env = vec![var("WINDROSE_SERVER_NAME", "NewServer"), var("WINDROSE_MAX_PLAYERS", "20")];
    let mapping = vec![
        pair("WINDROSE_SERVER_NAME", "ServerDescription_Persistent.ServerName"),
        pair("WINDROSE_MAX_PLAYERS", "ServerDescription_Persistent.MaxPlayerCount"),
    ];
    let doc = apply_env_to_document(Some(existing), &env, &mapping);
    assert_eq!(
        serde_of(&doc),
        json(
            r#"{
                "ServerDescription_Persistent": {
                    "ServerName": "NewServer",
                    "UserSelectedRegion": "US",
                    "MaxPlayerCount": 20
                },
                "OtherSetting": "Value"
            }"#
        )
    );
}

#[test]
fn settings_convert_value_types() {
    let env = vec![var("WINDROSE_DIRECT_CONNECTION", "true"), var("WINDROSE_DIRECT_PORT", "7777")];
    let mapping = vec![
        pair("WINDROSE_DIRECT_CONNECTION", "ServerDescription_Persistent.UseDirectConnection"),
        pair("WINDROSE_DIRECT_PORT", "ServerDescription_Persistent.DirectConnectionServerPort"),
    ];
    let doc = apply_env_to_document(None, &env, &mapping);
    assert_eq!(
        serde_of(&doc),
        json(
            r#"{
                "ServerDescription_Persistent": {
                    "UseDirectConnection": true,
                    "DirectConnectionServerPort": 7777
                }
            }"#
        )
    );
}

#[test]
fn settings_start_from_an_empty_object_without_a_document() {
    let env = vec![var("WINDROSE_SERVER_NAME", "TestServer")];
    let mapping = vec![pair("WINDROSE_SERVER_NAME", "ServerName")];
    let doc = apply_env_to_document(None, &env, &mapping);
    assert_eq!(serde_of(&doc), json(r#"{"ServerName": "TestServer"}"#));
}

#[test]
fn unset_variables_and_unmapped_variables_change_nothing() {
    let existing = r#"{"a": 1}"#;
    let env = vec![var("UNRELATED", "x")];
    let mapping = vec![pair("WINDROSE_REGION", "ServerDescription_Persistent.UserSelectedRegion")];
    let doc = apply_env_to_document(Some(existing), &env, &mapping);
    assert_eq!(serde_of(&doc), json(r#"{"a": 1}"#));
}

#[test]
fn settings_overwrite_a_scalar_on_the_path() {
    let mut doc = value_of(&json(r#"{"ServerDescription_Persistent": 5, "k": [1]}"#));
    let env = vec![var("WINDROSE_REGION", "EU")];
    let mapping = vec![pair("WINDROSE_REGION", "ServerDescription_Persistent.UserSelectedRegion")];
    apply_env_settings(&mut doc, &env, &mapping);
    assert_eq!(
        serde_of(&doc),
        json(r#"{"ServerDescription_Persistent": {"UserSelectedRegion": "EU"}, "k": [1]}"#)
    );
}

#[test]
fn later_entries_win_on_the_same_path() {
    let env = vec![var("A", "1"), var("B", "two")];
    let mapping = vec![pair("A", "x.y"), pair("B", "x.y")];
    let doc = apply_env_to_document(None, &env, &mapping);
    assert_eq!(serde_of(&doc), json(r#"{"x": {"y": "two"}}"#));
}

#[test]
fn applying_settings_twice_gives_the_same_document() {
    let env = vec![var("WINDROSE_SERVER_NAME", "S"), var("WINDROSE_DIRECT_PORT", "-1")];
    let mapping = server_description_mapping();
    let once = apply_env_to_document(None, &env, &mapping);
    let expected = serde_of(&once);
    let text = serde_json::to_string_pretty(&expected).unwrap();
    let twice = apply_env_to_document(Some(&text), &env, &mapping);
    assert_eq!(serde_of(&twice), expected);
}

#[test]
fn non_finite_float_settings_become_strings() {
    let env = vec![var("WINDROSE_MAX_PLAYERS", "inf"), var("WINDROSE_REGION", "NaN")];
    let mapping = vec![
        pair("WINDROSE_MAX_PLAYERS", "ServerDescription_Persistent.MaxPlayerCount"),
        pair("WINDROSE_REGION", "X"),
    ];
    let doc = apply_env_to_document(None, &env, &mapping);
    assert_eq!(
        serde_of(&doc),
        json(r#"{"ServerDescription_Persistent": {"MaxPlayerCount": "inf"}, "X": "NaN"}"#)
    );
}

#[test]
fn malformed_content_starts_from_an_empty_object() {
    let env = vec![var("WINDROSE_SERVER_NAME", "TestServer")];
    let mapping = vec![pair("WINDROSE_SERVER_NAME", "ServerName")];
    let doc = apply_env_to_document(Some("this is not valid json"), &env, &mapping);
    assert_eq!(serde_of(&doc), json(r#"{"ServerName": "TestServer"}"#));
}

#[test]
fn non_object_content_is_replaced_by_the_settings() {
    let env = vec![var("A", "1")];
    let mapping = vec![pair("A", "x.y")];
    let doc = apply_env_to_document(Some("[1, 2]"), &env, &mapping);
    assert_eq!(serde_of(&doc), json(r#"{"x": {"y": 1}}"#));
}

#[test]
fn settings_text_is_the_pretty_printed_document() {
    let env = vec![var("WINDROSE_SERVER_NAME", "MyServer"), var("WINDROSE_MAX_PLAYERS", "10")];
    let mapping = vec![
        pair("WINDROSE_SERVER_NAME", "ServerDescription_Persistent.ServerName"),
        pair("WINDROSE_MAX_PLAYERS", "ServerDescription_Persistent.MaxPlayerCount"),
    ];
    let content = r#"{"Other": 2.5, "ServerDescription_Persistent": {"ServerName": "Old"}}"#;
    let text = apply_env_to_text(Some(content), &env, &mapping);
    let expected = json(
        r#"{"Other": 2.5, "ServerDescription_Persistent": {"ServerName": "MyServer", "MaxPlayerCount": 10}}"#,
    );
    assert_eq!(text, serde_json::to_string_pretty(&expected).unwrap());
}

#[test]
fn find_env_var_finds_the_first_match() {
    let env = vec![var("A", "1"), var("B", "2"), var("A", "3")];
    assert_eq!(find_env_var(&env, &"A".to_string()), Some(0));
    assert_eq!(find_env_var(&env, &"B".to_string()), Some(1));
    assert_eq!(find_env_var(&env, &"C".to_string()), None);
}

#[test]
fn server_description_mapping_lists_every_setting() {
    let mapping = server_description_mapping();
    let expected = vec![
        pair("WINDROSE_SERVER_NAME", "ServerDescription_Persistent.ServerName"),
        pair("WINDROSE_MAX_PLAYERS", "ServerDescription_Persistent.MaxPlayerCount"),
        pair("WINDROSE_REGION", "ServerDescription_Persistent.UserSelectedRegion"),
        pair("WINDROSE_DIRECT_CONNECTION", "ServerDescription_Persistent.UseDirectConnection"),
        pair("WINDROSE_DIRECT_PORT", "ServerDescription_Persistent.DirectConnectionServerPort"),
        pair("WINDROSE_PASSWORD", "ServerDescription_Persistent.Password"),
        pair("WINDROSE_IS_PASSWORD_PROTECTED", "ServerDescription_Persistent.IsPasswordProtected"),
    ];
    assert_eq!(mapping, expected);
}

#[test]
fn password_protection_follows_the_password() {
    assert!(is_password_protected(&vec![var("WINDROSE_PASSWORD", "secret"), var("OTHER", "x")]));
    assert!(!is_password_protected(&vec![var("WINDROSE_PASSWORD", "")]));
    assert!(!is_password_protected(&vec![var("OTHER", "x")]));
    assert!(is_password_protected(&vec![var("WINDROSE_PASSWORD", "a"), var("WINDROSE_PASSWORD", "")]));
}

#[test]
fn password_flag_reaches_the_document() {
    let env = vec![
        var("WINDROSE_PASSWORD", "pw"),
        var("WINDROSE_IS_PASSWORD_PROTECTED", "true"),
    ];
    let mapping = server_description_mapping();
    let doc = apply_env_to_document(None, &env, &mapping);
    assert_eq!(
        serde_of(&doc),
        json(
            r#"{"ServerDescription_Persistent": {"Password": "pw", "IsPasswordProtected": true}}"#
        )
    );
}

#[test]
fn writing_the_settings_text_again_gives_the_same_text() {
    let env = vec![var("A", "1"), var("B", "two"), var("C", "true")];
    let mapping = vec![pair("A", "x.y"), pair("B", "x.y"), pair("C", "x.z")];
    let content = r#"{"keep": [1, -2], "x": {"w": null}}"#;
    let first = apply_env_to_text(Some(content), &env, &mapping);
    let second = apply_env_to_text(Some(&first), &env, &mapping);
    assert_eq!(first, second);
    assert_eq!(
        json(&first),
        json(r#"{"keep": [1, -2], "x": {"w": null, "y": "two", "z": true}}"#)
    );
}

#[test]
fn settings_text_reads_back_as_the_document() {
    let env = vec![var("WINDROSE_SERVER_NAME", "S\"q"), var("WINDROSE_DIRECT_PORT", "-7")];
    let mapping = server_description_mapping();
    let content = r#"{"b": 1, "a": {"d": 2, "c": 3}}"#;
    let doc = apply_env_to_document(Some(content), &env, &mapping);
    let text = apply_env_to_text(Some(content), &env, &mapping);
    assert_eq!(json(&text), serde_of(&doc));
}

#[test]
fn the_order_of_parting_entries_does_not_change_the_text() {
    let env = vec![var("A", "1"), var("B", "two"), var("C", "false")];
    let forward = vec![pair("A", "p.q"), pair("B", "p.r"), pair("C", "s")];
    let backward = vec![pair("C", "s"), pair("B", "p.r"), pair("A", "p.q")];
    let one = apply_env_to_text(Some(r#"{"s": {"t": 1}}"#), &env, &forward);
    let other = apply_env_to_text(Some(r#"{"s": {"t": 1}}"#), &env, &backward);
    assert_eq!(one, other);
    let first = apply_env_to_document(None, &env, &forward);
    let second = apply_env_to_document(None, &env, &backward);
    assert_eq!(serde_of(&first), serde_of(&second));
}
