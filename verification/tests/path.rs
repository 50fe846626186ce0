use gsm_windrose::json::JsonValue;
use gsm_windrose::path::{fragment_for_path, split_path};

#[test]
fn split_path_splits_at_every_dot() {
    assert_eq!(split_path("ServerDescription_Persistent.ServerName"), vec![
        "ServerDescription_Persistent".to_string(),
        "ServerName".to_string()
    ]);
    assert_eq!(split_path("a.b.c"), vec!["a", "b", "c"]);
}

#[test]
fn split_path_keeps_empty_pieces() {
    assert_eq!(split_path(""), vec![""]);
    assert_eq!(split_path("a..b"), vec!["a", "", "b"]);
    assert_eq!(split_path(".a"), vec!["", "a"]);
    assert_eq!(split_path("a."), vec!["a", ""]);
    assert_eq!(split_path("."), vec!["", ""]);
}

#[test]
fn split_path_agrees_with_std() {
    for text in ["x", "x.y", "..", "é.ü.", "no dots here", ".lead.trail."] {
        let expected: Vec<String> = text.split('.').map(|s| s.to_string()).collect();
        assert_eq!(split_path(text), expected, "{}", text);
    }
}

#[test]
fn fragment_nests_one_object_per_key() {
    let fragment = fragment_for_path("a.b", JsonValue::Bool(true));
    match fragment {
        JsonValue::Object(outer) => {
            assert_eq!(outer.len(), 1);
            assert_eq!(outer[0].0, "a");
            match &outer[0].1 {
                JsonValue::Object(inner) => {
                    assert_eq!(inner.len(), 1);
                    assert_eq!(inner[0].0, "b");
                    assert!(matches!(inner[0].1, JsonValue::Bool(true)));
                }
                other => panic!("unexpected {:?}", other),
            }
        }
        other => panic!("unexpected {:?}", other),
    }
}

#[test]
fn fragment_for_single_key() {
    match fragment_for_path("ServerName", JsonValue::Null) {
        JsonValue::Object(outer) => {
            assert_eq!(outer.len(), 1);
            assert_eq!(outer[0].0, "ServerName");
            assert!(matches!(outer[0].1, JsonValue::Null));
        }
        other => panic!("unexpected {:?}", other),
    }
}

#[test]
fn split_path_joined_gives_the_path_back() {
    for text in ["", "a", "a.b", "..x..", "ServerDescription_Persistent.ServerName"] {
        let parts = split_path(text);
        assert_eq!(parts.join("."), text);
        assert!(parts.iter().all(|p| !p.contains('.')));
    }
}
