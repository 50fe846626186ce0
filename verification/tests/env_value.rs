use gsm_windrose::env_value::{env_value_to_json, parse_bool, parse_i64, str_equal, FloatReading};
use gsm_windrose::json::{JsonNumber, JsonValue};

fn float_reading(text: &str) -> FloatReading {
    match text.parse::<f64>() {
        Err(_) => FloatReading::NotFloat,
        Ok(f) => match serde_json::Number::from_f64(f) {
            Some(n) => FloatReading::Finite(n.to_string()),
            None => FloatReading::NonFinite,
        },
    }
}

fn typed(text: &str) -> JsonValue {
    env_value_to_json(text, &float_reading(text))
}

#[test]
fn bool_literals_become_booleans() {
    assert!(matches!(typed("true"), JsonValue::Bool(true)));
    assert!(matches!(typed("false"), JsonValue::Bool(false)));
}

#[test]
fn bool_literals_are_case_sensitive() {
    assert_eq!(parse_bool("True"), None);
    assert_eq!(parse_bool("TRUE"), None);
    assert_eq!(parse_bool(" true"), None);
    assert_eq!(parse_bool("true"), Some(true));
    assert_eq!(parse_bool("false"), Some(false));
}

#[test]
fn integers_become_numbers() {
    assert!(matches!(typed("7777"), JsonValue::Number(JsonNumber::PosInt(7777))));
    assert!(matches!(typed("-1"), JsonValue::Number(JsonNumber::NegInt(-1))));
    assert!(matches!(typed("+0"), JsonValue::Number(JsonNumber::PosInt(0))));
}

#[test]
fn i64_parsing_edges() {
    assert_eq!(parse_i64("9223372036854775807"), Some(i64::MAX));
    assert_eq!(parse_i64("-9223372036854775808"), Some(i64::MIN));
    assert_eq!(parse_i64("9223372036854775808"), None);
    assert_eq!(parse_i64("-9223372036854775809"), None);
    assert_eq!(parse_i64("99999999999999999999999"), None);
    assert_eq!(parse_i64(""), None);
    assert_eq!(parse_i64("-"), None);
    assert_eq!(parse_i64("+"), None);
    assert_eq!(parse_i64("+-3"), None);
    assert_eq!(parse_i64("12a"), None);
    assert_eq!(parse_i64(" 12"), None);
    assert_eq!(parse_i64("007"), Some(7));
    assert_eq!(parse_i64("-42"), Some(-42));
}

#[test]
fn i64_parsing_agrees_with_std() {
    for text in ["0", "-0", "+5", "123456789", "-00", "1_000", "٣", "1e3", "--1", "18446744073709551616"] {
        assert_eq!(parse_i64(text), text.parse::<i64>().ok(), "{}", text);
    }
}

#[test]
fn floats_become_float_numbers() {
    match typed("1.5") {
        JsonValue::Number(JsonNumber::Float(t)) => assert_eq!(t, "1.5"),
        other => panic!("unexpected {:?}", other),
    }
    match typed("9223372036854775808") {
        JsonValue::Number(JsonNumber::Float(t)) => {
            assert_eq!(t.parse::<f64>().unwrap(), 9223372036854775808.0)
        }
        other => panic!("unexpected {:?}", other),
    }
    match typed("1e3") {
        JsonValue::Number(JsonNumber::Float(t)) => assert_eq!(t, "1000.0"),
        other => panic!("unexpected {:?}", other),
    }
}

#[test]
fn other_text_stays_a_string() {
    match typed("MyServer") {
        JsonValue::String(s) => assert_eq!(s, "MyServer"),
        other => panic!("unexpected {:?}", other),
    }
    match typed("") {
        JsonValue::String(s) => assert_eq!(s, ""),
        other => panic!("unexpected {:?}", other),
    }
}

#[test]
fn non_finite_floats_default_to_strings() {
    for text in ["NaN", "inf", "-infinity", "1e400"] {
        match typed(text) {
            JsonValue::String(s) => assert_eq!(s, text),
            other => panic!("unexpected {:?} for {}", other, text),
        }
    }
}

#[test]
fn str_equal_compares_characters() {
    assert!(str_equal("héllo", "héllo"));
    assert!(!str_equal("héllo", "hello"));
    assert!(!str_equal("a", "ab"));
    assert!(str_equal("", ""));
}
