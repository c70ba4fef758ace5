use hashline::json::{
    apply_json_edits, compute_canonical_hash, compute_json_anchor, delete_path,
    format_json_anchors, insert_at_path, parse_anchor, parse_path_segments, set_path, DeletePathOp,
    InsertAtPathOp, JsonEdit, JsonError, JsonValue, PathSegment, SetPathOp,
};

fn num(s: &str) -> JsonValue {
    JsonValue::Number(s.to_string())
}

fn text(s: &str) -> JsonValue {
    JsonValue::String(s.to_string())
}

fn obj(members: Vec<(&str, JsonValue)>) -> JsonValue {
    JsonValue::Object(members.into_iter().map(|(k, v)| (k.to_string(), v)).collect())
}

fn arr(items: Vec<JsonValue>) -> JsonValue {
    JsonValue::Array(items)
}

fn message(r: Result<(), JsonError>) -> String {
    r.unwrap_err().to_string()
}

#[test]
fn canonical_hash_of_known_values() {
    assert_eq!(compute_canonical_hash(&JsonValue::Null), "6d");
    assert_eq!(compute_canonical_hash(&JsonValue::Bool(true)), "f7");
    assert_eq!(compute_canonical_hash(&JsonValue::Bool(false)), "7d");
    assert_eq!(compute_canonical_hash(&num("42")), "9b");
    assert_eq!(compute_canonical_hash(&text("a")), "23");
    assert_eq!(compute_canonical_hash(&arr(vec![])), "cc");
    assert_eq!(compute_canonical_hash(&obj(vec![])), "89");
    assert_eq!(compute_canonical_hash(&arr(vec![num("1"), num("2"), num("3")])), "f0");
    assert_eq!(compute_canonical_hash(&obj(vec![("b", num("2")), ("a", num("1"))])), "c8");
    assert_eq!(compute_canonical_hash(&obj(vec![("a", num("1")), ("b", num("2"))])), "c8");
    assert_eq!(
        compute_canonical_hash(&obj(vec![
            ("b", arr(vec![num("1"), obj(vec![("c d", JsonValue::Null)])])),
            ("a", text("x"))
        ])),
        "2d"
    );
}

#[test]
fn canonical_form_escapes_strings() {
    assert_eq!(compute_canonical_hash(&text("\"\\\n\u{1}é")), "56");
    assert_ne!(compute_canonical_hash(&text("\n")), compute_canonical_hash(&text("n")));
}

#[test]
fn anchor_is_path_colon_hash() {
    assert_eq!(compute_json_anchor("$.version", &text("1.0")), "$.version:e1");
    assert_eq!(compute_json_anchor("$", &obj(vec![("version", text("1.0"))])), "$:32");
}

#[test]
fn anchor_is_cut_at_its_last_colon() {
    assert_eq!(parse_anchor("$.a:b:c3").unwrap(), ("$.a:b".to_string(), "c3".to_string()));
    assert_eq!(parse_anchor(":Z").unwrap(), ("".to_string(), "Z".to_string()));
    assert_eq!(
        parse_anchor("$.a").unwrap_err().to_string(),
        "Invalid anchor format, missing ':': $.a"
    );
    assert_eq!(
        parse_anchor("$.a:").unwrap_err().to_string(),
        "Invalid hash format in anchor (must be 1-16 alphanumeric chars): $.a:"
    );
    assert_eq!(
        parse_anchor("$.a:a_b").unwrap_err().to_string(),
        "Invalid hash format in anchor (must be 1-16 alphanumeric chars): $.a:a_b"
    );
}

#[test]
fn path_with_quoted_keys() {
    assert_eq!(
        parse_path_segments("$[\"a.b\"][\"c d\"][3].e").unwrap(),
        vec![
            PathSegment::Key("a.b".to_string()),
            PathSegment::Key("c d".to_string()),
            PathSegment::Index(3),
            PathSegment::Key("e".to_string()),
        ]
    );
    assert_eq!(
        parse_path_segments("$[\"q\\\"x\\\\\"]").unwrap(),
        vec![PathSegment::Key("q\"x\\".to_string())]
    );
    assert_eq!(parse_path_segments("$[\"\"]").unwrap(), vec![PathSegment::Key("".to_string())]);
    assert_eq!(
        parse_path_segments("$.a b]").unwrap(),
        vec![PathSegment::Key("a b]".to_string())]
    );
    assert_eq!(parse_path_segments("$[007]").unwrap(), vec![PathSegment::Index(7)]);
}

#[test]
fn path_error_messages() {
    let fails = |p: &str| parse_path_segments(p).unwrap_err().to_string();
    assert_eq!(fails("a.b"), "Path must start with '$': a.b");
    assert_eq!(fails(""), "Path must start with '$': ");
    assert_eq!(fails("$..a"), "Empty key segment in path: $..a");
    assert_eq!(fails("$.a."), "Empty key segment in path: $.a.");
    assert_eq!(fails("$.a[x]"), "Invalid array index 'x' in path: $.a[x]");
    assert_eq!(fails("$.a[]"), "Invalid array index '' in path: $.a[]");
    assert_eq!(fails("$.a[1"), "Invalid array index '1' in path: $.a[1");
    assert_eq!(fails("$[-1]"), "Invalid array index '-1' in path: $[-1]");
    assert_eq!(
        fails("$[99999999999999999999999999]"),
        "Invalid array index '99999999999999999999999999' in path: $[99999999999999999999999999]"
    );
    assert_eq!(fails("$x"), "Unexpected character 'x' in path: $x");
    assert_eq!(fails("$[\"a"), "Invalid quoted key in path: $[\"a");
    assert_eq!(fails("$[\"a\"x"), "Invalid quoted key in path: $[\"a\"x");
    assert_eq!(fails("$[\"a\\"), "Invalid quoted key in path: $[\"a\\");
}

#[test]
fn display_form_exact_text() {
    let ast = obj(vec![
        ("b", arr(vec![num("1"), obj(vec![("c d", JsonValue::Null)])])),
        ("a", text("x")),
    ]);
    let expected = "\
// $:2d
{
  // $.a:38
  \"a\": \"x\",
  // $.b:c3
  \"b\": 
  [
    // $.b[0]:b2
    1,
    // $.b[1]:9a
    {
      // $.b[1][\"c d\"]:6d
      \"c d\": null
    }
  ]
}
";
    assert_eq!(format_json_anchors(&ast), expected);
}

#[test]
fn display_form_quotes_keys_and_strings() {
    let ast = obj(vec![("k\"\t", text("a\\b\u{1}\t\u{7f}é\u{8}\u{c}\r"))]);
    let shown = format_json_anchors(&ast);
    let rows: Vec<&str> = shown.split('\n').collect();
    assert_eq!(rows[3], "  \"k\\\"\\t\": \"a\\\\b\\u0001\\t\u{7f}é\\b\\f\\r\"");
    assert_eq!(format_json_anchors(&text("x\"y")), "// $:".to_string()
        + &compute_canonical_hash(&text("x\"y"))
        + "\n\"x\\\"y\"\n");
}

#[test]
fn display_form_of_small_values() {
    assert_eq!(format_json_anchors(&JsonValue::Null), "// $:6d\nnull\n");
    assert_eq!(format_json_anchors(&obj(vec![])), "// $:89\n{}\n");
    assert_eq!(format_json_anchors(&arr(vec![])), "// $:cc\n[]\n");
    assert_eq!(
        format_json_anchors(&arr(vec![arr(vec![]), obj(vec![])])),
        "// $:".to_string()
            + &compute_canonical_hash(&arr(vec![arr(vec![]), obj(vec![])]))
            + "\n[\n  // $[0]:cc\n  [],\n  // $[1]:89\n  {}\n]\n"
    );
}

#[test]
fn display_form_writes_paths_that_parse_back() {
    let ast = obj(vec![("a.b", obj(vec![("c d", num("1")), ("", num("2")), ("q\"[", num("3"))]))]);
    let shown = format_json_anchors(&ast);
    assert!(shown.contains("// $[\"a.b\"]:"));
    assert!(shown.contains("// $[\"a.b\"][\"c d\"]:b2"));
    assert!(shown.contains("// $[\"a.b\"][\"\"]:"));
    assert!(shown.contains("// $[\"a.b\"][\"q\\\"[\"]:"));
    let mut ast = ast;
    let anchor = compute_json_anchor("$[\"a.b\"][\"c d\"]", &num("1"));
    apply_json_edits(
        &mut ast,
        &[JsonEdit::SetPath { set_path: SetPathOp { anchor, value: num("2") } }],
    )
    .unwrap();
    assert_eq!(
        ast,
        obj(vec![("a.b", obj(vec![("c d", num("2")), ("", num("2")), ("q\"[", num("3"))]))])
    );
}

#[test]
fn mismatch_names_path_and_both_hashes() {
    let mut ast = obj(vec![("version", text("1.0"))]);
    let edits = vec![JsonEdit::SetPath {
        set_path: SetPathOp { anchor: "$.version:ff".to_string(), value: text("2.0") },
    }];
    match apply_json_edits(&mut ast, &edits) {
        Err(JsonError::HashMismatch { path, expected, actual }) => {
            assert_eq!(path, "$.version");
            assert_eq!(expected, "ff");
            assert_eq!(actual, "e1");
        }
        other => panic!("expected a mismatch, got {:?}", other),
    }
    assert_eq!(ast, obj(vec![("version", text("1.0"))]));
    let e = JsonError::HashMismatch {
        path: "$.version".to_string(),
        expected: "ff".to_string(),
        actual: "e1".to_string(),
    };
    assert_eq!(e.to_string(), "Hash mismatch at $.version: expected ff, got e1");
}

#[test]
fn hash_of_an_anchor_is_compared_letter_for_letter() {
    let mut ast = obj(vec![("version", text("1.0"))]);
    let edits = vec![JsonEdit::SetPath {
        set_path: SetPathOp { anchor: "$.version:E1".to_string(), value: text("2.0") },
    }];
    assert!(matches!(apply_json_edits(&mut ast, &edits), Err(JsonError::HashMismatch { .. })));
    let edits = vec![JsonEdit::SetPath {
        set_path: SetPathOp { anchor: "$.version:e1".to_string(), value: text("2.0") },
    }];
    apply_json_edits(&mut ast, &edits).unwrap();
    assert_eq!(ast, obj(vec![("version", text("2.0"))]));
}

#[test]
fn batch_is_all_or_nothing() {
    let start = obj(vec![("a", arr(vec![num("10"), num("20"), num("30")])), ("k", text("v"))]);
    let mut ast = obj(vec![("a", arr(vec![num("10"), num("20"), num("30")])), ("k", text("v"))]);
    let edits = vec![
        JsonEdit::SetPath { set_path: SetPathOp { anchor: "$.k:b1".to_string(), value: text("w") } },
        JsonEdit::InsertAtPath {
            insert_at_path: InsertAtPathOp {
                anchor: "$.a:db".to_string(),
                key: None,
                index: Some(5),
                value: num("1"),
            },
        },
    ];
    let err = apply_json_edits(&mut ast, &edits).unwrap_err();
    assert_eq!(err.to_string(), "Array insert index 5 out of bounds (len 3)");
    assert_eq!(ast, start);
}

#[test]
fn edits_are_made_in_order() {
    let mut ast = obj(vec![("a", arr(vec![num("10"), num("20"), num("30")])), ("k", text("v"))]);
    let edits = vec![
        JsonEdit::DeletePath { delete_path: DeletePathOp { anchor: "$.a[0]:95".to_string() } },
        JsonEdit::SetPath { set_path: SetPathOp { anchor: "$.a[1]:29".to_string(), value: num("2") } },
        JsonEdit::InsertAtPath {
            insert_at_path: InsertAtPathOp {
                anchor: "$.a:db".to_string(),
                key: None,
                index: None,
                value: num("4"),
            },
        },
        JsonEdit::InsertAtPath {
            insert_at_path: InsertAtPathOp {
                anchor: "$:".to_string() + &compute_canonical_hash(&obj(vec![
                    ("a", arr(vec![num("10"), num("20"), num("30")])),
                    ("k", text("v")),
                ])),
                key: Some("k".to_string()),
                index: Some(9),
                value: text("w"),
            },
        },
    ];
    apply_json_edits(&mut ast, &edits).unwrap();
    assert_eq!(ast, obj(vec![("a", arr(vec![num("20"), num("2"), num("4")])), ("k", text("w"))]));
}

#[test]
fn set_and_delete_at_the_root() {
    let mut ast = obj(vec![("k", text("v"))]);
    set_path(&mut ast, "$", num("1")).unwrap();
    assert_eq!(ast, num("1"));
    assert_eq!(message(delete_path(&mut ast, "$")), "Cannot delete root");
    assert_eq!(ast, num("1"));
}

#[test]
fn set_needs_a_path_that_exists() {
    let mut ast = obj(vec![("a", arr(vec![num("1")]))]);
    assert_eq!(message(set_path(&mut ast, "$.zz", num("1"))), "Key not found: zz");
    assert_eq!(message(set_path(&mut ast, "$.a[1]", num("1"))), "Array index 1 out of bounds in set_path");
    assert_eq!(message(set_path(&mut ast, "$.a.b", num("1"))), "Expected object for set_path");
    assert_eq!(message(set_path(&mut ast, "$[0]", num("1"))), "Expected array for set_path");
    assert_eq!(
        message(set_path(&mut ast, "$.a.b.c", num("1"))),
        "Expected object at segment 1 but got non-object"
    );
    assert_eq!(
        message(set_path(&mut ast, "$[0][0]", num("1"))),
        "Expected array at segment 0 but got non-array"
    );
    assert_eq!(message(set_path(&mut ast, "$.a[4].b", num("1"))), "Array index 4 out of bounds");
    assert_eq!(message(set_path(&mut ast, "$.q.b", num("1"))), "Key not found: q");
    assert_eq!(ast, obj(vec![("a", arr(vec![num("1")]))]));
}

#[test]
fn insert_into_objects_and_arrays() {
    let mut ast = obj(vec![("a", arr(vec![num("1"), num("3")])), ("k", text("v"))]);
    insert_at_path(&mut ast, "$.a", None, Some(1), num("2")).unwrap();
    insert_at_path(&mut ast, "$.a", None, Some(3), num("4")).unwrap();
    insert_at_path(&mut ast, "$.a", None, None, num("5")).unwrap();
    insert_at_path(&mut ast, "$.a", None, Some(0), num("0")).unwrap();
    insert_at_path(&mut ast, "$", Some("k"), None, text("w")).unwrap();
    insert_at_path(&mut ast, "$", Some("n"), None, JsonValue::Null).unwrap();
    assert_eq!(
        ast,
        obj(vec![
            ("a", arr(vec![num("0"), num("1"), num("2"), num("3"), num("4"), num("5")])),
            ("k", text("w")),
            ("n", JsonValue::Null),
        ])
    );
    assert_eq!(
        message(insert_at_path(&mut ast, "$.a", Some("x"), None, num("1"))),
        "Cannot insert key into non-object"
    );
    assert_eq!(
        message(insert_at_path(&mut ast, "$", None, Some(0), num("1"))),
        "Cannot insert into non-array"
    );
    assert_eq!(
        message(insert_at_path(&mut ast, "$.k", None, None, num("1"))),
        "Cannot insert into non-array"
    );
    assert_eq!(
        message(insert_at_path(&mut ast, "$.a", None, Some(7), num("1"))),
        "Array insert index 7 out of bounds (len 6)"
    );
}

#[test]
fn delete_from_objects_and_arrays() {
    let mut ast = obj(vec![("a", arr(vec![num("1"), num("2")])), ("k", text("v"))]);
    delete_path(&mut ast, "$.a[0]").unwrap();
    delete_path(&mut ast, "$.k").unwrap();
    delete_path(&mut ast, "$.gone").unwrap();
    assert_eq!(ast, obj(vec![("a", arr(vec![num("2")]))]));
    assert_eq!(
        message(delete_path(&mut ast, "$.a[1]")),
        "Array index 1 out of bounds in delete_path"
    );
    assert_eq!(message(delete_path(&mut ast, "$.a.b")), "Expected object for delete_path");
    assert_eq!(message(delete_path(&mut ast, "$[0]")), "Expected array for delete_path");
}

#[test]
fn validation_looks_at_the_tree_before_any_edit() {
    let mut ast = obj(vec![("k", text("v"))]);
    let edits = vec![
        JsonEdit::SetPath { set_path: SetPathOp { anchor: "$.k:b1".to_string(), value: text("w") } },
        JsonEdit::SetPath { set_path: SetPathOp { anchor: "$.k:b1".to_string(), value: text("x") } },
    ];
    apply_json_edits(&mut ast, &edits).unwrap();
    assert_eq!(ast, obj(vec![("k", text("x"))]));
}

/// A small deterministic generator of test data.
struct Rng(u64);

impl Rng {
    fn below(&mut self, n: usize) -> usize {
        self.0 = self.0.wrapping_mul(6364136223846793005).wrapping_add(1442695040888963407);
        ((self.0 >> 33) % (n as u64)) as usize
    }

    fn key(&mut self) -> String {
        let alphabet = ['a', 'b', '.', ' ', '[', ']', '"', '\\', ':', 'é', '$'];
        let len = self.below(4);
        (0..len).map(|_| alphabet[self.below(alphabet.len())]).collect()
    }

    fn tree(&mut self, depth: usize) -> JsonValue {
        match self.below(if depth == 0 { 4 } else { 6 }) {
            0 => JsonValue::Null,
            1 => JsonValue::Bool(self.below(2) == 0),
            2 => num(&self.below(1000).to_string()),
            3 => text(&self.key()),
            4 => {
                let n = self.below(4);
                arr((0..n).map(|_| self.tree(depth - 1)).collect())
            }
            _ => {
                let n = self.below(4);
                let mut members: Vec<(String, JsonValue)> = Vec::new();
                for _ in 0..n {
                    let k = self.key();
                    if members.iter().all(|(have, _)| *have != k) {
                        members.push((k, self.tree(depth - 1)));
                    }
                }
                JsonValue::Object(members)
            }
        }
    }
}

#[test]
fn every_anchor_of_the_display_form_fits_its_value() {
    let mut rng = Rng(7);
    for _ in 0..300 {
        let ast = rng.tree(3);
        let shown = format_json_anchors(&ast);
        let mut seen = 0;
        for row in shown.lines() {
            let row = row.trim_start();
            if let Some(anchor) = row.strip_prefix("// ") {
                let (path, hash) = parse_anchor(anchor).unwrap();
                let segments = parse_path_segments(&path).unwrap();
                let node = hashline::json::query_path_segments(&ast, &segments).unwrap();
                assert_eq!(compute_canonical_hash(node), hash);
                assert_eq!(compute_json_anchor(&path, node), anchor);
                seen += 1;
            }
        }
        assert!(seen >= 1);
    }
}

#[test]
fn member_order_does_not_change_the_hash() {
    let mut rng = Rng(8);
    for _ in 0..300 {
        let ast = rng.tree(3);
        let turned = match &ast {
            JsonValue::Object(members) => {
                let mut other: Vec<(String, JsonValue)> = Vec::new();
                for (k, v) in members.iter().rev() {
                    other.push((k.clone(), hashline::json::value::clone_value(v)));
                }
                JsonValue::Object(other)
            }
            _ => hashline::json::value::clone_value(&ast),
        };
        assert_eq!(compute_canonical_hash(&ast), compute_canonical_hash(&turned));
    }
}

#[test]
fn set_then_read_gives_the_value_back() {
    let mut rng = Rng(9);
    for _ in 0..300 {
        let mut ast = rng.tree(3);
        let shown = format_json_anchors(&ast);
        let anchors: Vec<String> = shown
            .lines()
            .filter_map(|row| row.trim_start().strip_prefix("// ").map(|a| a.to_string()))
            .collect();
        let anchor = anchors[rng.below(anchors.len())].clone();
        let (path, _) = parse_anchor(&anchor).unwrap();
        let value = rng.tree(1);
        let kept = hashline::json::value::clone_value(&value);
        apply_json_edits(&mut ast, &[JsonEdit::SetPath { set_path: SetPathOp { anchor, value } }])
            .unwrap();
        let segments = parse_path_segments(&path).unwrap();
        assert_eq!(hashline::json::query_path_segments(&ast, &segments).unwrap(), &kept);
    }
}
