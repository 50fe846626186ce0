use gsm_windrose::json::{JsonNumber, JsonValue};
use gsm_windrose::json_text::{document_text, initial_document};

fn text_of(v: &JsonValue) -> String {
    document_text(v)
}

#[test]
fn initial_document_reads_the_content() {
    let doc = initial_document(Some(r#"{"b": [1, -2, 0.5, "s", null, true], "a": {}}"#));
    let expected: serde_json::Value =
        serde_json::from_str(r#"{"a": {}, "b": [1, -2, 0.5, "s", null, true]}"#).unwrap();
    assert_eq!(text_of(&doc), serde_json::to_string_pretty(&expected).unwrap());
    match doc {
        JsonValue::Object(members) => {
            assert_eq!(members.len(), 2);
            assert_eq!(members[0].0, "a");
            match &members[1].1 {
                JsonValue::Array(items) => {
                    assert!(matches!(items[0], JsonValue::Number(JsonNumber::PosInt(1))));
                    assert!(matches!(items[1], JsonValue::Number(JsonNumber::NegInt(-2))));
                    assert!(matches!(&items[2], JsonValue::Number(JsonNumber::Float(t)) if t == "0.5"));
                }
                other => panic!("unexpected {:?}", other),
            }
        }
        other => panic!("unexpected {:?}", other),
    }
}

#[test]
fn initial_document_defaults_to_an_empty_object() {
    for content in [None, Some("this is not valid json"), Some(""), Some("{\"a\": 1")] {
        match initial_document(content) {
            JsonValue::Object(members) => assert!(members.is_empty()),
            other => panic!("unexpected {:?}", other),
        }
    }
}

#[test]
fn document_text_is_pretty_printed() {
    let doc = JsonValue::Object(vec![
        ("z".to_string(), JsonValue::Number(JsonNumber::Float("1000.0".to_string()))),
        ("a".to_string(), JsonValue::String("x".to_string())),
    ]);
    assert_eq!(text_of(&doc), "{\n  \"a\": \"x\",\n  \"z\": 1000.0\n}");
    assert_eq!(text_of(&JsonValue::Null), "null");
}

#[test]
fn large_integers_and_floats_survive_a_round_trip() {
    let content = r#"{"u": 18446744073709551615, "i": -9223372036854775808, "f": 1e300, "g": 0.1}"#;
    let doc = initial_document(Some(content));
    let expected: serde_json::Value = serde_json::from_str(content).unwrap();
    assert_eq!(text_of(&doc), serde_json::to_string_pretty(&expected).unwrap());
}
