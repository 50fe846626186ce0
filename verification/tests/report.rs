use gsm_windrose::json::{JsonNumber, JsonValue};
use gsm_windrose::report::{
    bool_to_text, i64_decimal, report_is_defined, server_metadata_from_text, server_metadata_lines,
    u64_decimal, ReportError,
};

fn s(text: &str) -> JsonValue {
    JsonValue::String(text.to_string())
}

fn obj(members: Vec<(&str, JsonValue)>) -> JsonValue {
    JsonValue::Object(members.into_iter().map(|(k, v)| (k.to_string(), v)).collect())
}

fn persistent(direct: JsonValue, extra: Vec<(&str, JsonValue)>) -> JsonValue {
    let mut members = vec![
        ("PersistentServerId", s("PSID-1")),
        ("InviteCode", s("ABCD")),
        ("IsPasswordProtected", JsonValue::Bool(false)),
        ("ServerName", s("My Server")),
        ("MaxPlayerCount", JsonValue::Number(JsonNumber::PosInt(8))),
        ("UserSelectedRegion", s("")),
        ("UseDirectConnection", direct),
    ];
    members.extend(extra);
    obj(members)
}

#[test]
fn report_of_a_full_description() {
    let doc = obj(vec![
        ("DeploymentId", s("dep-42")),
        (
            "ServerDescription_Persistent",
            persistent(
                JsonValue::Bool(true),
                vec![
                    ("DirectConnectionServerAddress", s("10.0.0.1")),
                    ("DirectConnectionServerPort", JsonValue::Number(JsonNumber::PosInt(7777))),
                ],
            ),
        ),
    ]);
    assert!(report_is_defined(&doc));
    assert_eq!(server_metadata_lines(&doc), vec![
        "--- Server Metadata ---",
        "Deployment ID: dep-42",
        "Persistent Server ID: PSID-1",
        "Server Join Code: ABCD",
        "Password Protected: false",
        "Server Name: My Server",
        "Max Players: 8",
        "Direct Connection: Enabled (10.0.0.1:7777)",
        "-----------------------",
    ]);
}

#[test]
fn report_with_direct_connection_defaults() {
    let doc = obj(vec![(
        "ServerDescription_Persistent",
        persistent(
            JsonValue::Bool(true),
            vec![
                ("DirectConnectionServerAddress", JsonValue::Null),
                ("DirectConnectionServerPort", s("not a number")),
            ],
        ),
    )]);
    let lines = server_metadata_lines(&doc);
    assert!(lines.contains(&"Direct Connection: Enabled (N/A:-1)".to_string()));
    assert!(!lines.iter().any(|l| l.starts_with("Deployment ID")));
}

#[test]
fn report_with_direct_connection_disabled() {
    let doc = obj(vec![("ServerDescription_Persistent", persistent(JsonValue::Bool(false), vec![]))]);
    let lines = server_metadata_lines(&doc);
    assert_eq!(lines[lines.len() - 2], "Direct Connection: Disabled");
}

#[test]
fn report_without_persistent_description() {
    let doc = obj(vec![("DeploymentId", JsonValue::Number(JsonNumber::PosInt(3)))]);
    assert!(report_is_defined(&doc));
    assert_eq!(server_metadata_lines(&doc), vec!["--- Server Metadata ---", "-----------------------"]);
    let not_object = JsonValue::Array(Vec::new());
    assert!(report_is_defined(&not_object));
    assert_eq!(server_metadata_lines(&not_object).len(), 2);
}

#[test]
fn report_needs_every_key_it_reads() {
    let missing = obj(vec![("ServerDescription_Persistent", obj(vec![("InviteCode", s("X"))]))]);
    assert!(!report_is_defined(&missing));
    let no_address = obj(vec![(
        "ServerDescription_Persistent",
        persistent(JsonValue::Bool(true), vec![]),
    )]);
    assert!(!report_is_defined(&no_address));
    let disabled = obj(vec![(
        "ServerDescription_Persistent",
        persistent(JsonValue::Bool(false), vec![]),
    )]);
    assert!(report_is_defined(&disabled));
}

#[test]
fn report_skips_empty_names_and_large_counts() {
    let mut p = persistent(JsonValue::Null, vec![]);
    if let JsonValue::Object(members) = &mut p {
        members[3].1 = s("");
        members[4].1 = JsonValue::Number(JsonNumber::PosInt(u64::MAX));
        members[5].1 = s("EU");
    }
    let doc = obj(vec![("ServerDescription_Persistent", p)]);
    assert_eq!(server_metadata_lines(&doc), vec![
        "--- Server Metadata ---",
        "Persistent Server ID: PSID-1",
        "Server Join Code: ABCD",
        "Password Protected: false",
        "Region: EU",
        "-----------------------",
    ]);
}

#[test]
fn decimal_texts() {
    assert_eq!(u64_decimal(0), "0");
    assert_eq!(u64_decimal(1234567890), "1234567890");
    assert_eq!(u64_decimal(u64::MAX), u64::MAX.to_string());
    assert_eq!(i64_decimal(-1), "-1");
    assert_eq!(i64_decimal(i64::MIN), i64::MIN.to_string());
    assert_eq!(i64_decimal(i64::MAX), i64::MAX.to_string());
    assert_eq!(bool_to_text(true), "true");
    assert_eq!(bool_to_text(false), "false");
}

#[test]
fn negative_player_count_is_reported() {
    let mut p = persistent(JsonValue::Null, vec![]);
    if let JsonValue::Object(members) = &mut p {
        members[4].1 = JsonValue::Number(JsonNumber::NegInt(-3));
    }
    let doc = obj(vec![("ServerDescription_Persistent", p)]);
    assert!(server_metadata_lines(&doc).contains(&"Max Players: -3".to_string()));
}

#[test]
fn report_from_text() {
    let content = r#"{
        "DeploymentId": "d-1",
        "ServerDescription_Persistent": {
            "PersistentServerId": "P",
            "InviteCode": "JOIN",
            "IsPasswordProtected": true,
            "ServerName": "",
            "MaxPlayerCount": 4,
            "UserSelectedRegion": "EU",
            "UseDirectConnection": false
        }
    }"#;
    match server_metadata_from_text(content) {
        Ok(lines) => assert_eq!(lines, vec![
            "--- Server Metadata ---",
            "Deployment ID: d-1",
            "Persistent Server ID: P",
            "Server Join Code: JOIN",
            "Password Protected: true",
            "Max Players: 4",
            "Region: EU",
            "Direct Connection: Disabled",
            "-----------------------",
        ]),
        Err(_) => panic!("no report"),
    }
}

#[test]
fn report_from_text_that_is_not_json() {
    assert!(matches!(server_metadata_from_text("{oops"), Err(ReportError::Parse(_))));
    assert!(matches!(server_metadata_from_text(""), Err(ReportError::Parse(_))));
}

#[test]
fn report_from_text_with_a_missing_key() {
    let content = r#"{"DeploymentId": "d", "ServerDescription_Persistent": {"InviteCode": "X"}}"#;
    match server_metadata_from_text(content) {
        Err(ReportError::MissingKey(lines)) => {
            assert_eq!(lines, vec!["--- Server Metadata ---", "Deployment ID: d"])
        }
        _ => panic!("expected a missing key"),
    }
    let late = r#"{"ServerDescription_Persistent": {
        "PersistentServerId": "P", "InviteCode": "J", "IsPasswordProtected": false,
        "ServerName": "N", "MaxPlayerCount": 2, "UserSelectedRegion": "",
        "UseDirectConnection": true, "DirectConnectionServerPort": 1
    }}"#;
    match server_metadata_from_text(late) {
        Err(ReportError::MissingKey(lines)) => assert_eq!(lines, vec![
            "--- Server Metadata ---",
            "Persistent Server ID: P",
            "Server Join Code: J",
            "Password Protected: false",
            "Server Name: N",
            "Max Players: 2",
        ]),
        _ => panic!("expected a missing key"),
    }
    let mid = r#"{"ServerDescription_Persistent": {"PersistentServerId": "P", "InviteCode": "J"}}"#;
    match server_metadata_from_text(mid) {
        Err(ReportError::MissingKey(lines)) => assert_eq!(lines, vec![
            "--- Server Metadata ---",
            "Persistent Server ID: P",
            "Server Join Code: J",
        ]),
        _ => panic!("expected a missing key"),
    }
}

#[test]
fn report_from_text_without_persistent_description() {
    match server_metadata_from_text("[]") {
        Ok(lines) => assert_eq!(lines, vec!["--- Server Metadata ---", "-----------------------"]),
        Err(_) => panic!("no report"),
    }
}
