use hashline::json::{
    apply_json_edits, compute_canonical_hash, compute_json_anchor, delete_path,
    format_json_anchors, insert_at_path, parse_anchor, parse_path_segments, set_path, DeletePathOp,
    InsertAtPathOp, JsonEdit, JsonError, JsonValue, PathSegment, SetPathOp,
};

fn to_json(v: &serde_json::Value) -> JsonValue {
    match v {
        serde_json::Value::Null => JsonValue::Null,
        serde_json::Value::Bool(b) => JsonValue::Bool(*b),
        serde_json::Value::Number(n) => JsonValue::Number(n.to_string()),
        serde_json::Value::String(s) => JsonValue::String(s.clone()),
        serde_json::Value::Array(items) => JsonValue::Array(items.iter().map(to_json).collect()),
        serde_json::Value::Object(map) => {
            JsonValue::Object(map.iter().map(|(k, v)| (k.clone(), to_json(v))).collect())
        }
    }
}

fn parse(text: &str) -> JsonValue {
    to_json(&serde_json::from_str::<serde_json::Value>(text).unwrap())
}

fn text(s: &str) -> JsonValue {
    JsonValue::String(s.to_string())
}

fn member<'a>(v: &'a JsonValue, key: &str) -> Option<&'a JsonValue> {
    match v {
        JsonValue::Object(members) => members.iter().find(|(k, _)| k == key).map(|(_, v)| v),
        _ => None,
    }
}

fn at<'a>(v: &'a JsonValue, key: &str) -> &'a JsonValue {
    member(v, key).unwrap()
}

fn items(v: &JsonValue) -> &Vec<JsonValue> {
    match v {
        JsonValue::Array(items) => items,
        _ => panic!("not an array"),
    }
}

fn load_small() -> JsonValue {
    parse(
        r#"{
  "name": "sample-app",
  "version": "1.1.0",
  "license": "MIT",
  "scripts": {"build": "tsc", "test": "jest", "start": "node dist/index.js"},
  "dependencies": {"express": "^4.17.1"}
}"#,
    )
}

fn load_medium() -> JsonValue {
    parse(
        r#"{
  "app": {"name": "service", "version": "2.4.1"},
  "database": {"host": "localhost", "credentials": {"username": "admin", "password": "secret"}},
  "users": [
    {"id": 1, "name": "Alice Johnson", "active": true},
    {"id": 2, "name": "Bob Smith", "active": false},
    {"id": 3, "name": "Charlie Brown", "active": true}
  ]
}"#,
    )
}

fn load_large() -> JsonValue {
    let mut list = Vec::new();
    for i in 0..100 {
        list.push(JsonValue::Object(vec![
            ("id".to_string(), JsonValue::Number(i.to_string())),
            ("name".to_string(), text(&format!("Item {}", i))),
        ]));
    }
    JsonValue::Object(vec![
        (
            "metadata".to_string(),
            JsonValue::Object(vec![("version".to_string(), text("1.0"))]),
        ),
        ("items".to_string(), JsonValue::Array(list)),
    ])
}

#[test]
fn test_compute_json_anchor() {
    let value = parse(r#"{"name": "test", "value": 42}"#);
    let anchor = compute_json_anchor("$.test", &value);
    assert!(anchor.starts_with("$.test:"));
    assert_eq!(anchor.len(), 9);

    let anchor2 = compute_json_anchor("$.test", &value);
    assert_eq!(anchor, anchor2);
}

#[test]
fn test_format_json_anchors() {
    let value = parse(r#"{"name": "test", "value": 42}"#);
    let formatted = format_json_anchors(&value);
    assert!(formatted.contains("// $.name:"));
    assert!(formatted.contains("// $.value:"));
    assert!(formatted.contains("\"name\": \"test\""));
    assert!(formatted.contains("\"value\": 42"));
}

#[test]
fn test_canonical_hash_sorted_keys() {
    let a = JsonValue::Object(vec![
        ("b".to_string(), JsonValue::Number("1".to_string())),
        ("a".to_string(), JsonValue::Number("2".to_string())),
    ]);
    let b = JsonValue::Object(vec![
        ("a".to_string(), JsonValue::Number("2".to_string())),
        ("b".to_string(), JsonValue::Number("1".to_string())),
    ]);
    let hash_a = compute_canonical_hash(&a);
    let hash_b = compute_canonical_hash(&b);
    assert_eq!(hash_a.len(), 2);
    assert!(hash_a.chars().all(|c| c.is_ascii_hexdigit()));
    assert_eq!(hash_a, hash_b);
}

#[test]
fn test_parse_anchor_accepts_long_hash() {
    let (path, hash) =
        parse_anchor("$.config.value:abcdEFGH12345678").expect("anchor should parse");
    assert_eq!(path, "$.config.value");
    assert_eq!(hash, "abcdEFGH12345678");
}

#[test]
fn test_parse_anchor_rejects_overlong_hash() {
    assert!(parse_anchor("$.config.value:12345678901234567").is_err());
}

#[test]
fn test_parse_path_segments_root() {
    let segs = parse_path_segments("$").unwrap();
    assert!(segs.is_empty());
}

#[test]
fn test_parse_path_segments_nested() {
    let segs = parse_path_segments("$.a.b.c").unwrap();
    assert_eq!(
        segs,
        vec![
            PathSegment::Key("a".to_string()),
            PathSegment::Key("b".to_string()),
            PathSegment::Key("c".to_string()),
        ]
    );
}

#[test]
fn test_parse_path_segments_array() {
    let segs = parse_path_segments("$.arr[0]").unwrap();
    assert_eq!(
        segs,
        vec![PathSegment::Key("arr".to_string()), PathSegment::Index(0),]
    );
}

#[test]
fn test_parse_path_segments_mixed() {
    let segs = parse_path_segments("$.users[0].name").unwrap();
    assert_eq!(
        segs,
        vec![
            PathSegment::Key("users".to_string()),
            PathSegment::Index(0),
            PathSegment::Key("name".to_string()),
        ]
    );
}

#[test]
fn test_set_path_nested() {
    let mut ast = parse(r#"{"a": {"b": 1}}"#);
    set_path(&mut ast, "$.a.b", JsonValue::Number("99".to_string())).unwrap();
    assert_eq!(at(at(&ast, "a"), "b"), &JsonValue::Number("99".to_string()));
}

#[test]
fn test_set_path_array_index() {
    let mut ast = parse(r#"{"arr": [1, 2, 3]}"#);
    set_path(&mut ast, "$.arr[1]", JsonValue::Number("42".to_string())).unwrap();
    assert_eq!(items(at(&ast, "arr"))[1], JsonValue::Number("42".to_string()));
}

#[test]
fn test_insert_at_path_nested() {
    let mut ast = parse(r#"{"a": {"b": 1}}"#);
    insert_at_path(&mut ast, "$.a", Some("c"), None, JsonValue::Number("3".to_string())).unwrap();
    assert_eq!(at(at(&ast, "a"), "c"), &JsonValue::Number("3".to_string()));
}

#[test]
fn test_delete_path_nested() {
    let mut ast = parse(r#"{"a": {"b": 1, "c": 2}}"#);
    delete_path(&mut ast, "$.a.b").unwrap();
    assert!(member(at(&ast, "a"), "b").is_none());
    assert_eq!(at(at(&ast, "a"), "c"), &JsonValue::Number("2".to_string()));
}

#[test]
fn test_apply_json_edits_hash_mismatch_returns_typed_error() {
    let mut ast = parse(r#"{"version": "1.0"}"#);
    let edits = vec![JsonEdit::SetPath {
        set_path: SetPathOp {
            anchor: "$.version:ff".to_string(),
            value: text("2.0"),
        },
    }];
    let result = apply_json_edits(&mut ast, &edits);
    assert!(matches!(result, Err(JsonError::HashMismatch { .. })));
    assert_eq!(ast, parse(r#"{"version": "1.0"}"#));
}

#[test]
fn json_read_small_has_anchors() {
    let ast = load_small();
    let output = format_json_anchors(&ast);

    assert!(output.contains("// $.version:"), "missing $.version anchor");
    assert!(output.contains("// $.name:"), "missing $.name anchor");
    assert!(
        output.contains("// $.scripts.build:"),
        "missing $.scripts.build anchor"
    );
    assert!(output.contains("\"1.1.0\""), "missing actual version value");
}

#[test]
fn json_set_top_level_key() {
    let ast = load_small();
    let anchor = compute_json_anchor("$.version", at(&ast, "version"));
    let mut ast = ast;

    let result = apply_json_edits(
        &mut ast,
        &[JsonEdit::SetPath {
            set_path: SetPathOp {
                anchor,
                value: text("2.0.0"),
            },
        }],
    );

    assert!(result.is_ok(), "set_path failed: {:?}", result.err());
    assert_eq!(at(&ast, "version"), &text("2.0.0"));
}

#[test]
fn json_set_nested_key() {
    let ast = load_small();
    let anchor = compute_json_anchor("$.scripts.test", at(at(&ast, "scripts"), "test"));
    let mut ast = ast;

    let result = apply_json_edits(
        &mut ast,
        &[JsonEdit::SetPath {
            set_path: SetPathOp {
                anchor,
                value: text("vitest"),
            },
        }],
    );

    assert!(result.is_ok(), "set_path nested failed: {:?}", result.err());
    assert_eq!(at(at(&ast, "scripts"), "test"), &text("vitest"));
}

#[test]
fn json_delete_top_level_key() {
    let ast = load_small();
    let anchor = compute_json_anchor("$.license", at(&ast, "license"));
    let mut ast = ast;

    let result = apply_json_edits(
        &mut ast,
        &[JsonEdit::DeletePath {
            delete_path: DeletePathOp { anchor },
        }],
    );

    assert!(result.is_ok(), "delete_path failed: {:?}", result.err());
    assert!(member(&ast, "license").is_none(), "license key should be absent");
}

#[test]
fn json_delete_nested_key() {
    let ast = load_small();
    let anchor = compute_json_anchor("$.scripts.start", at(at(&ast, "scripts"), "start"));
    let mut ast = ast;

    let result = apply_json_edits(
        &mut ast,
        &[JsonEdit::DeletePath {
            delete_path: DeletePathOp { anchor },
        }],
    );

    assert!(
        result.is_ok(),
        "delete_path nested failed: {:?}",
        result.err()
    );
    assert!(
        member(at(&ast, "scripts"), "start").is_none(),
        "scripts.start should be removed"
    );
    assert!(member(at(&ast, "scripts"), "build").is_some(), "build should remain");
    assert!(member(at(&ast, "scripts"), "test").is_some(), "test should remain");
}

#[test]
fn json_insert_into_object() {
    let ast = load_small();
    let anchor = compute_json_anchor("$.dependencies", at(&ast, "dependencies"));
    let mut ast = ast;

    let result = apply_json_edits(
        &mut ast,
        &[JsonEdit::InsertAtPath {
            insert_at_path: InsertAtPathOp {
                anchor,
                key: Some("lodash".to_string()),
                index: None,
                value: text("^4.17.0"),
            },
        }],
    );

    assert!(result.is_ok(), "insert_at_path failed: {:?}", result.err());
    assert_eq!(at(at(&ast, "dependencies"), "lodash"), &text("^4.17.0"));
    assert_eq!(at(at(&ast, "dependencies"), "express"), &text("^4.17.1"));
}

#[test]
fn json_hash_mismatch_returns_typed_error() {
    let mut ast = load_small();

    let result = apply_json_edits(
        &mut ast,
        &[JsonEdit::SetPath {
            set_path: SetPathOp {
                anchor: "$.version:ff".to_string(),
                value: text("9.9.9"),
            },
        }],
    );

    match result {
        Err(JsonError::HashMismatch { path, .. }) => {
            assert_eq!(path, "$.version");
        }
        other => panic!("expected HashMismatch, got {:?}", other),
    }
}

#[test]
fn json_atomicity_first_ok_second_stale() {
    let ast = load_small();
    let version_anchor = compute_json_anchor("$.version", at(&ast, "version"));
    let original_version = text("1.1.0");
    let mut ast = ast;

    let result = apply_json_edits(
        &mut ast,
        &[
            JsonEdit::SetPath {
                set_path: SetPathOp {
                    anchor: version_anchor,
                    value: text("3.0.0"),
                },
            },
            JsonEdit::SetPath {
                set_path: SetPathOp {
                    anchor: "$.name:ff".to_string(),
                    value: text("hacked"),
                },
            },
        ],
    );

    assert!(result.is_err(), "expected error due to stale second edit");
    assert_eq!(
        at(&ast, "version"),
        &original_version,
        "version should be unchanged (atomic rollback)"
    );
}

#[test]
fn json_atomicity_delete_then_set() {
    let ast = load_small();
    let scripts_anchor = compute_json_anchor("$.scripts", at(&ast, "scripts"));
    let test_anchor = compute_json_anchor("$.scripts.test", at(at(&ast, "scripts"), "test"));
    let original_test = text("jest");

    let mut ast2 = load_small();
    let edits = vec![
        JsonEdit::DeletePath {
            delete_path: DeletePathOp {
                anchor: scripts_anchor,
            },
        },
        JsonEdit::SetPath {
            set_path: SetPathOp {
                anchor: test_anchor,
                value: text("vitest"),
            },
        },
    ];

    let result = apply_json_edits(&mut ast2, &edits);
    assert!(
        result.is_err(),
        "expected Err due to delete-then-set conflict"
    );

    assert!(matches!(at(&ast2, "scripts"), JsonValue::Object(_)));
    assert_eq!(at(at(&ast2, "scripts"), "test"), &original_test);
    assert_eq!(ast2, ast);
}

#[test]
fn json_canonical_hash_key_order_independence() {
    let n = |s: &str| JsonValue::Number(s.to_string());
    let v1 = JsonValue::Object(vec![
        ("z".to_string(), n("1")),
        ("a".to_string(), n("2")),
        ("m".to_string(), n("3")),
    ]);
    let v2 = JsonValue::Object(vec![
        ("a".to_string(), n("2")),
        ("m".to_string(), n("3")),
        ("z".to_string(), n("1")),
    ]);

    let anchor1 = compute_json_anchor("$.test", &v1);
    let anchor2 = compute_json_anchor("$.test", &v2);

    assert_eq!(
        anchor1, anchor2,
        "anchors must be equal regardless of key insertion order"
    );
}

#[test]
fn json_set_deeply_nested() {
    let ast = load_medium();
    let anchor = compute_json_anchor(
        "$.database.credentials.username",
        at(at(at(&ast, "database"), "credentials"), "username"),
    );
    let mut ast = ast;

    let result = apply_json_edits(
        &mut ast,
        &[JsonEdit::SetPath {
            set_path: SetPathOp {
                anchor,
                value: text("superuser"),
            },
        }],
    );

    assert!(
        result.is_ok(),
        "deeply nested set_path failed: {:?}",
        result.err()
    );
    assert_eq!(
        at(at(at(&ast, "database"), "credentials"), "username"),
        &text("superuser")
    );
}

#[test]
fn json_round_trip_read_then_apply() {
    let ast = load_medium();
    let output = format_json_anchors(&ast);

    let anchor = output
        .lines()
        .find_map(|line| {
            let trimmed = line.trim();
            if trimmed.starts_with("// $.app.version:") {
                Some(trimmed.trim_start_matches("// ").to_string())
            } else {
                None
            }
        })
        .expect("could not find $.app.version anchor in format_json_anchors output");

    let mut ast = ast;
    let result = apply_json_edits(
        &mut ast,
        &[JsonEdit::SetPath {
            set_path: SetPathOp {
                anchor,
                value: text("3.0.0"),
            },
        }],
    );

    assert!(
        result.is_ok(),
        "round-trip apply failed: {:?}",
        result.err()
    );
    assert_eq!(at(at(&ast, "app"), "version"), &text("3.0.0"));
}

#[test]
fn json_insert_array_index() {
    let ast = load_medium();
    let anchor = compute_json_anchor("$.users", at(&ast, "users"));
    let mut ast = ast;

    let result = apply_json_edits(
        &mut ast,
        &[JsonEdit::InsertAtPath {
            insert_at_path: InsertAtPathOp {
                anchor,
                key: None,
                index: Some(1),
                value: parse(
                    r#"{"id": 99, "name": "Eve", "email": "eve@example.com", "role": "admin", "active": true}"#,
                ),
            },
        }],
    );

    assert!(
        result.is_ok(),
        "insert_at_path array index failed: {:?}",
        result.err()
    );

    let users = items(at(&ast, "users"));
    assert_eq!(users.len(), 4);
    assert_eq!(at(&users[1], "name"), &text("Eve"));
    assert_eq!(at(&users[2], "name"), &text("Bob Smith"));
    assert_eq!(at(&users[0], "name"), &text("Alice Johnson"));
    assert_eq!(at(&users[3], "name"), &text("Charlie Brown"));
}

#[test]
fn json_large_fixture_round_trip() {
    let mut ast = load_large();
    let anchor = compute_json_anchor("$.items[0].name", at(&items(at(&ast, "items"))[0], "name"));

    let result = apply_json_edits(
        &mut ast,
        &[JsonEdit::SetPath {
            set_path: SetPathOp {
                anchor,
                value: text("Renamed Item 0"),
            },
        }],
    );

    assert!(
        result.is_ok(),
        "set_path on large fixture failed: {:?}",
        result.err()
    );
    assert_eq!(at(&items(at(&ast, "items"))[0], "name"), &text("Renamed Item 0"));

    let formatted = format_json_anchors(&ast);
    assert!(
        formatted.contains("// $.metadata.version:"),
        "missing metadata version anchor"
    );
    assert!(
        formatted.contains("// $.items[99].name:"),
        "missing deep array anchor"
    );
}
