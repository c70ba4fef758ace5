use hashline::edit::{InsertAfterOp, ReplaceLinesOp, ReplaceOp, SetLineOp};
use hashline::{
    apply_edits, apply_hashline_edits, apply_replace_edits, compute_line_hash,
    format_changed_region, format_hashlines, format_lines_from, hash_only, normalize_text,
    parse_line_ref, split_edits, HashlineEdit, LineRef,
};

fn set_line(anchor: &str, new_text: &str) -> HashlineEdit {
    HashlineEdit::SetLine {
        set_line: SetLineOp { anchor: anchor.to_string(), new_text: new_text.to_string() },
    }
}

fn replace_lines(start: &str, end: &str, new_text: &str) -> HashlineEdit {
    HashlineEdit::ReplaceLines {
        replace_lines: ReplaceLinesOp {
            start_anchor: start.to_string(),
            end_anchor: Some(end.to_string()),
            new_text: Some(new_text.to_string()),
        },
    }
}

fn insert_after(anchor: &str, text: &str) -> HashlineEdit {
    HashlineEdit::InsertAfter {
        insert_after: InsertAfterOp {
            anchor: anchor.to_string(),
            text: Some(text.to_string()),
            content: None,
        },
    }
}

fn replace(old_text: &str, new_text: &str) -> HashlineEdit {
    HashlineEdit::Replace {
        replace: ReplaceOp { old_text: old_text.to_string(), new_text: new_text.to_string() },
    }
}

#[test]
fn hash_of_known_lines() {
    assert_eq!(compute_line_hash(1, "aaa"), "5f");
    assert_eq!(compute_line_hash(1, "héllo wörld"), "47");
    assert_eq!(compute_line_hash(1, "é"), "27");
}

#[test]
fn hash_ignores_every_kind_of_whitespace() {
    assert_eq!(compute_line_hash(1, "a\u{3000}b"), compute_line_hash(1, "ab"));
    assert_eq!(compute_line_hash(1, "a\u{a0}\u{2003}b\t\r"), "53");
    assert_eq!(compute_line_hash(1, " x \u{85}=\u{2028} 1 "), compute_line_hash(1, "x=1"));
}

#[test]
fn hash_ignores_the_line_index() {
    for idx in [0usize, 1, 7, 100_000, usize::MAX] {
        assert_eq!(compute_line_hash(idx, "    const x = 1;"), "7d");
    }
}

#[test]
fn anchor_written_from_line_and_hash_parses_back() {
    for (line, content) in [(1usize, ""), (2, "hello"), (40, "  x  "), (99_999, "}"), (usize::MAX, "é")] {
        let hash = compute_line_hash(line, content);
        let parsed = parse_line_ref(&format!("{}:{}", line, hash)).unwrap();
        assert_eq!(parsed, LineRef { line, hash });
    }
}

#[test]
fn anchor_cleaning_steps() {
    let want = LineRef { line: 5, hash: "ab".to_string() };
    assert_eq!(parse_line_ref(">>>5:ab").unwrap(), want);
    assert_eq!(parse_line_ref(">>>   5:ab   ").unwrap(), want);
    assert_eq!(parse_line_ref("  5:ab").unwrap(), want);
    assert_eq!(parse_line_ref("5 : ab").unwrap(), want);
    assert_eq!(parse_line_ref("5\t:\tab|x:y").unwrap(), want);
    assert_eq!(parse_line_ref("5:ab  7:cd").unwrap(), want);
    assert_eq!(parse_line_ref("007:Ab").unwrap(), LineRef { line: 7, hash: "Ab".to_string() });
    assert_eq!(
        parse_line_ref("3:abc def").unwrap(),
        LineRef { line: 3, hash: "ab".to_string() }
    );
}

#[test]
fn anchor_rejections() {
    assert!(parse_line_ref("5:a-").is_err());
    assert!(parse_line_ref(":ab").is_err());
    assert!(parse_line_ref("> > 5:ab").is_err());
    assert!(parse_line_ref("99999999999999999999999999:ab").is_err());
    assert!(parse_line_ref("\u{665}:ab").is_err());
    assert!(parse_line_ref("5:abcdefghijklmnopq").is_ok());
    assert_eq!(parse_line_ref("5:abcdefghijklmnopq").unwrap().hash, "ab");
}

#[test]
fn anchor_error_messages() {
    assert_eq!(
        parse_line_ref("5abcd").unwrap_err(),
        "Invalid line reference \"5abcd\". Expected format \"LINE:HASH\" (e.g. \"5:aa\")."
    );
    assert_eq!(
        parse_line_ref("0:abcd").unwrap_err(),
        "Line number must be >= 1, got 0 in \"0:abcd\"."
    );
    assert_eq!(
        parse_line_ref("a\"b\n").unwrap_err(),
        "Invalid line reference \"a\\\"b\\n\". Expected format \"LINE:HASH\" (e.g. \"5:aa\")."
    );
}

#[test]
fn format_exact_text() {
    assert_eq!(format_hashlines("hello\nworld", 1), "1:f9|hello\n2:b3|world");
    assert_eq!(format_hashlines("", 7), "7:05|");
    assert_eq!(format_hashlines("}\n", 99), "99:18|}\n100:05|");
    assert_eq!(format_hashlines("a|b", usize::MAX), format!("{}:{}|a|b", usize::MAX, compute_line_hash(1, "a|b")));
}

#[test]
fn hash_only_exact_text() {
    assert_eq!(hash_only("hello\nworld"), "1:f9\n2:b3");
    assert_eq!(hash_only(""), "1:05");
}

#[test]
fn format_keeps_line_count_and_numbers() {
    let content = "a\n\n  b  \n|\n:";
    let shown = format_hashlines(content, 41);
    let lines: Vec<&str> = shown.split('\n').collect();
    assert_eq!(lines.len(), content.split('\n').count());
    for (i, (line, raw)) in lines.iter().zip(content.split('\n')).enumerate() {
        let prefix = format!("{}:", 41 + i);
        assert!(line.starts_with(&prefix));
        let pipe = line.find('|').unwrap();
        assert_eq!(&line[pipe + 1..], raw);
        assert_eq!(&line[prefix.len()..pipe], compute_line_hash(1, raw));
        let parsed = parse_line_ref(line).unwrap();
        assert_eq!(parsed.line, 41 + i);
        assert_eq!(parsed.hash, compute_line_hash(1, raw));
    }
}

#[test]
fn empty_batch_returns_the_content() {
    for content in ["", "a", "a\n", "\n\n", "x\r\ny"] {
        let r = apply_hashline_edits(content, &[]).unwrap();
        assert_eq!(r.content, content);
        assert_eq!(r.first_changed_line, None);
        assert!(r.warnings.is_empty());
        assert!(r.noop_edits.is_empty());
    }
}

#[test]
fn insert_of_empty_text_adds_a_blank_line() {
    let r = apply_hashline_edits("aaa\nbbb", &[insert_after("1:5f", "")]).unwrap();
    assert_eq!(r.content, "aaa\n\nbbb");
    assert_eq!(r.first_changed_line, Some(2));
    let absent = HashlineEdit::InsertAfter {
        insert_after: InsertAfterOp { anchor: "2:67".to_string(), text: None, content: None },
    };
    let r = apply_hashline_edits("aaa\nbbb", &[absent]).unwrap();
    assert_eq!(r.content, "aaa\nbbb\n");
    assert_eq!(r.first_changed_line, Some(3));
}

#[test]
fn insert_of_the_anchor_line_alone_changes_nothing() {
    let r = apply_hashline_edits("aaa\nbbb\nccc", &[insert_after("2:67", " bbb ")]).unwrap();
    assert_eq!(r.content, "aaa\nbbb\nccc");
    assert_eq!(r.first_changed_line, None);
    assert_eq!(r.noop_edits.len(), 1);
    assert_eq!(r.noop_edits[0].edit_index, 0);
    assert_eq!(r.noop_edits[0].loc, "2:67");
    assert_eq!(r.noop_edits[0].current_content, "bbb");
    let r = apply_hashline_edits("aaa\n \nccc", &[insert_after("2:05", "")]).unwrap();
    assert_eq!(r.content, "aaa\n \nccc");
    assert_eq!(r.first_changed_line, None);
    assert_eq!(r.noop_edits.len(), 1);
    let r = apply_hashline_edits("aaa\nbbb\nccc", &[insert_after("2:67", "bbb\nbbb")]).unwrap();
    assert_eq!(r.content, "aaa\nbbb\nbbb\nccc");
    assert_eq!(r.first_changed_line, Some(3));
}

#[test]
fn insert_takes_content_where_text_is_absent() {
    let edit = HashlineEdit::InsertAfter {
        insert_after: InsertAfterOp {
            anchor: "1:5f".to_string(),
            text: None,
            content: Some("NEW".to_string()),
        },
    };
    assert_eq!(apply_hashline_edits("aaa\nbbb", &[edit]).unwrap().content, "aaa\nNEW\nbbb");
}

#[test]
fn unchanged_line_is_recorded_as_noop() {
    let r = apply_hashline_edits("aaa\nbbb\nccc", &[set_line("2:67", "bbb")]).unwrap();
    assert_eq!(r.content, "aaa\nbbb\nccc");
    assert_eq!(r.first_changed_line, None);
    assert_eq!(r.noop_edits.len(), 1);
    assert_eq!(r.noop_edits[0].edit_index, 0);
    assert_eq!(r.noop_edits[0].loc, "2:67");
    assert_eq!(r.noop_edits[0].current_content, "bbb");
}

#[test]
fn hash_in_upper_case_fits() {
    let r = apply_hashline_edits("aaa\nbbb", &[set_line("1:5F", "AAA")]).unwrap();
    assert_eq!(r.content, "AAA\nbbb");
    assert_eq!(r.first_changed_line, Some(1));
}

#[test]
fn many_changed_lines_give_a_warning() {
    let r = apply_hashline_edits("aaa", &[set_line("1:5f", "1\n2\n3\n4\n5\n6")]).unwrap();
    assert_eq!(r.content, "1\n2\n3\n4\n5\n6");
    assert_eq!(
        r.warnings,
        vec![
            "Edit changed 6 lines across 1 operations — verify no unintended reformatting."
                .to_string()
        ]
    );
    let r = apply_hashline_edits("aaa", &[set_line("1:5f", "1\n2\n3\n4")]).unwrap();
    assert!(r.warnings.is_empty());
}

#[test]
fn edit_past_what_an_earlier_edit_left_is_refused() {
    let edits = vec![replace_lines("2:bf", "5:c7", ""), set_line("4:90", "X")];
    let err = apply_hashline_edits("a\nb\nc\nd\ne", &edits).unwrap_err();
    assert!(err.mismatch().is_none());
    assert_eq!(err.to_string(), "Line 4 does not exist (file has 1 lines)");
}

#[test]
fn range_that_moves_and_changes_its_span_is_refused() {
    let edits = vec![replace_lines("1:67", "3:00", "X")];
    let err = apply_hashline_edits("aaa\nbbb\nccc\nddd\neee", &edits).unwrap_err();
    let mismatch = err.mismatch().unwrap();
    assert_eq!(mismatch.mismatches.len(), 2);
    assert_eq!(mismatch.mismatches[0].line, 1);
    assert_eq!(mismatch.mismatches[0].expected, "67");
    assert_eq!(mismatch.mismatches[0].actual, "5f");
    assert_eq!(mismatch.mismatches[1].line, 3);
    assert_eq!(mismatch.mismatches[1].expected, "00");
    assert_eq!(mismatch.mismatches[1].actual, "00");
    assert_eq!(mismatch.file_lines, vec!["aaa", "bbb", "ccc", "ddd", "eee"]);
}

#[test]
fn range_that_moves_as_a_whole_is_applied_there() {
    let edits = vec![replace_lines("1:67", "2:00", "")];
    let r = apply_hashline_edits("aaa\nbbb\nccc\nddd\neee", &edits).unwrap();
    assert_eq!(r.content, "aaa\nddd\neee");
    assert_eq!(r.first_changed_line, Some(2));
}

#[test]
fn replacement_goes_before_insertion_at_one_line() {
    let edits = vec![insert_after("2:67", "NEW"), set_line("2:67", "BBB")];
    let r = apply_hashline_edits("aaa\nbbb\nccc", &edits).unwrap();
    assert_eq!(r.content, "aaa\nBBB\nNEW\nccc");
    assert_eq!(r.first_changed_line, Some(2));
}

#[test]
fn same_insertion_twice_is_applied_once() {
    let edits = vec![insert_after("1:5f", "NEW"), insert_after("1:5f", "NEW")];
    let r = apply_hashline_edits("aaa\nbbb", &edits).unwrap();
    assert_eq!(r.content, "aaa\nNEW\nbbb");
    let edits = vec![insert_after("1:5f", "NEW"), insert_after("1:5f", "OTHER")];
    let r = apply_hashline_edits("aaa\nbbb", &edits).unwrap();
    assert_eq!(r.content, "aaa\nOTHER\nNEW\nbbb");
}

#[test]
fn same_set_line_twice_gives_what_it_gives_once() {
    let once = apply_hashline_edits("aaa\nbbb\nccc", &[set_line("2:67", "BBB")]).unwrap();
    let twice =
        apply_hashline_edits("aaa\nbbb\nccc", &[set_line("2:67", "BBB"), set_line("2:67", "BBB")])
            .unwrap();
    assert_eq!(once.content, "aaa\nBBB\nccc");
    assert_eq!(twice.content, once.content);
    assert_eq!(twice.first_changed_line, once.first_changed_line);
}

#[test]
fn stale_anchor_leaves_no_result() {
    let edits = vec![set_line("1:5f", "AAA"), set_line("3:zz", "CCC")];
    let err = apply_hashline_edits("aaa\nbbb\nccc", &edits).unwrap_err();
    let mismatch = err.mismatch().unwrap();
    assert_eq!(mismatch.mismatches.len(), 1);
    assert_eq!(mismatch.mismatches[0].line, 3);
    assert_eq!(mismatch.mismatches[0].expected, "zz");
    assert_eq!(mismatch.mismatches[0].actual, "00");
}

#[test]
fn batch_error_messages() {
    let err = apply_hashline_edits("aaa\nbbb", &[set_line("10:aa", "X")]).unwrap_err();
    assert_eq!(err.to_string(), "Line 10 does not exist (file has 2 lines)");
    let err = apply_hashline_edits("aaa\nbbb", &[set_line("abc", "X")]).unwrap_err();
    assert_eq!(
        err.to_string(),
        "Invalid line reference \"abc\". Expected format \"LINE:HASH\" (e.g. \"5:aa\")."
    );
    let err =
        apply_hashline_edits("a\nb\nc\nd\ne", &[replace_lines("5:c7", "2:bf", "X")]).unwrap_err();
    assert_eq!(err.to_string(), "Range start line 5 must be <= end line 2");
    let err = apply_hashline_edits("aaa", &[replace("aaa", "AAA")]).unwrap_err();
    assert_eq!(
        err.to_string(),
        "replace edits are applied separately; do not pass them to applyHashlineEdits"
    );
}

#[test]
fn deleting_an_empty_line_changes_nothing() {
    let r = apply_hashline_edits("x\n\ny", &[set_line("2:05", "")]).unwrap();
    assert_eq!(r.content, "x\n\ny");
    assert_eq!(r.first_changed_line, None);
    assert_eq!(r.noop_edits.len(), 1);
}

#[test]
fn replace_reports_the_first_changed_line() {
    let edits = vec![replace("goodbye", "bye"), replace("hello", "hi")];
    let r = apply_replace_edits("hello world\ngoodbye world", &edits).unwrap();
    assert_eq!(r.content, "hi world\nbye world");
    assert_eq!(r.replacements, 2);
    assert_eq!(r.first_changed_line, Some(1));
    let r = apply_replace_edits("a\nb\nc", &[replace("c", "C")]).unwrap();
    assert_eq!(r.first_changed_line, Some(3));
    let r = apply_replace_edits("a\nb\nc", &[]).unwrap();
    assert_eq!(r.content, "a\nb\nc");
    assert_eq!(r.replacements, 0);
    assert_eq!(r.first_changed_line, None);
}

#[test]
fn replace_error_messages() {
    let err = apply_replace_edits("aaa\nbbb", &[replace("zzz", "Z")]).unwrap_err();
    assert_eq!(err.to_string(), "replace edit: old_text not found in file:\nzzz");
    let err = apply_replace_edits("foo\nfoo\nbar\nfoo", &[replace("foo", "F")]).unwrap_err();
    assert_eq!(
        err.to_string(),
        "replace edit: old_text matches 3 locations — add more context to make it unique:\nfoo"
    );
    let err = apply_replace_edits("aaaa", &[replace("aa", "b")]).unwrap_err();
    assert_eq!(
        err.to_string(),
        "replace edit: old_text matches 2 locations — add more context to make it unique:\naa"
    );
    let err = apply_replace_edits("aaa", &[replace("", "x")]).unwrap_err();
    assert_eq!(err.to_string(), "replace edit: old_text must not be empty");
    let err = apply_replace_edits("ab", &[replace("a", "b"), replace("b", "c")]).unwrap_err();
    assert!(err.to_string().contains("matches 2 locations"));
}

#[test]
fn replace_works_on_text_beyond_ascii() {
    let r = apply_replace_edits("añb\nçé", &[replace("ç", "c")]).unwrap();
    assert_eq!(r.content, "añb\ncé");
    assert_eq!(r.first_changed_line, Some(2));
}

#[test]
fn reference_messages_hold_the_quoted_text() {
    assert_eq!(
        hashline::parse::zero_line_error("\"0:ab\""),
        "Line number must be >= 1, got 0 in \"0:ab\"."
    );
    assert_eq!(
        hashline::parse::invalid_error("<q>"),
        "Invalid line reference <q>. Expected format \"LINE:HASH\" (e.g. \"5:aa\")."
    );
}

#[test]
fn fingerprint_of_a_digest() {
    assert_eq!(hashline::hash::hash_hex(0), "00");
    assert_eq!(hashline::hash::hash_hex(0x1234_56ab), "ab");
    assert_eq!(hashline::hash::hash_hex(0xffff_ff0f), "0f");
    assert_eq!(hashline::hash::hash_hex(256 + 0xa0), "a0");
    assert_eq!(hashline::hash::hash_text("hello"), compute_line_hash(1, "\u{a0} hello\u{a0}\t"));
    assert_eq!(hashline::hash::hash_text("hello"), "f9");
    assert_eq!(hashline::hash::hash_text("  hello  "), "dd");
}

#[test]
fn file_text_is_normalized() {
    assert_eq!(normalize_text("line1\r\nline2\r\n"), "line1\nline2");
    assert_eq!(normalize_text("foo\nbar\n"), "foo\nbar");
    assert_eq!(normalize_text("foo\n\n"), "foo\n");
    assert_eq!(normalize_text("a\rb\r\r\nc\r"), "a\rb\r\nc\r");
    assert_eq!(normalize_text("\r\n"), "");
    assert_eq!(normalize_text(""), "");
    assert_eq!(normalize_text("é\r\nü"), "é\nü");
}

#[test]
fn window_that_is_read() {
    let content = "hello\nworld\n}\n";
    assert_eq!(format_lines_from(content, 1, None), Some(format_hashlines(content, 1)));
    assert_eq!(format_lines_from(content, 2, Some(2)), Some("2:b3|world\n3:18|}".to_string()));
    assert_eq!(format_lines_from(content, 4, Some(9)), Some("4:05|".to_string()));
    assert_eq!(format_lines_from(content, 3, Some(usize::MAX)), Some("3:18|}\n4:05|".to_string()));
    assert_eq!(format_lines_from(content, 5, None), None);
    assert_eq!(format_lines_from(content, 99999, Some(3)), None);
    assert_eq!(format_lines_from(content, 2, Some(0)), None);
    assert_eq!(format_lines_from(content, 0, Some(1)), Some("0:f9|hello".to_string()));
}

#[test]
fn window_around_a_change() {
    let lines: Vec<String> = (1..=30).map(|i| format!("l{}", i)).collect();
    let content = lines.join("\n");
    let shown = format_changed_region(&content, 10, 1).unwrap();
    let rows: Vec<&str> = shown.split('\n').collect();
    assert_eq!(rows.len(), 14);
    assert!(rows[0].starts_with("8:") && rows[0].ends_with("|l8"));
    assert!(rows[13].starts_with("21:") && rows[13].ends_with("|l21"));
    let shown = format_changed_region(&content, 1, 5).unwrap();
    let rows: Vec<&str> = shown.split('\n').collect();
    assert_eq!(rows.len(), 19);
    assert!(rows[0].starts_with("1:"));
    let shown = format_changed_region(&content, 29, 1).unwrap();
    assert_eq!(shown.split('\n').count(), 4);
    assert!(shown.starts_with("27:"));
    assert_eq!(format_changed_region(&content, 34, 1), None);
    assert_eq!(format_changed_region("a", 0, usize::MAX), Some("1:56|a".to_string()));
}

#[test]
fn batch_of_both_kinds() {
    let edits = vec![
        replace("ccc", "CCC"),
        set_line("2:67", "BBB"),
        replace("BBB", "bee"),
        insert_after("3:00", "ddd"),
    ];
    let r = apply_edits("aaa\nbbb\nccc", &edits).unwrap();
    assert_eq!(r.content, "aaa\nbee\nCCC\nddd");
    assert_eq!(r.first_changed_line, Some(2));
    assert_eq!(r.replacements, 2);
    let r = apply_edits("aaa\nbbb\nccc", &[replace("ccc", "CCC")]).unwrap();
    assert_eq!(r.content, "aaa\nbbb\nCCC");
    assert_eq!(r.first_changed_line, Some(3));
    let r = apply_edits("aaa\nbbb\nccc", &[set_line("2:67", "bbb")]).unwrap();
    assert_eq!(r.content, "aaa\nbbb\nccc");
    assert_eq!(r.first_changed_line, None);
    assert_eq!(r.replacements, 0);
    assert_eq!(r.noop_edits.len(), 1);
    let err = apply_edits("aaa\nbbb", &[set_line("2:zz", "x"), replace("aaa", "b")]).unwrap_err();
    assert!(err.mismatch().is_some());
    let err = apply_edits("aaa\nbbb", &[set_line("2:67", "x"), replace("zzz", "b")]).unwrap_err();
    assert_eq!(err.to_string(), "replace edit: old_text not found in file:\nzzz");
}

#[test]
fn batch_is_parted_by_kind() {
    let edits = vec![
        replace("ccc", "CCC"),
        set_line("2:67", "BBB"),
        replace("BBB", "bee"),
        insert_after("3:00", "ddd"),
    ];
    let (anchored, replaces) = split_edits(&edits);
    assert_eq!(anchored.len(), 2);
    assert_eq!(replaces.len(), 2);
    assert!(matches!(anchored[0], HashlineEdit::SetLine { .. }));
    assert!(matches!(anchored[1], HashlineEdit::InsertAfter { .. }));
    match (&replaces[0], &replaces[1]) {
        (HashlineEdit::Replace { replace: a }, HashlineEdit::Replace { replace: b }) => {
            assert_eq!(a.old_text, "ccc");
            assert_eq!(b.old_text, "BBB");
        }
        _ => panic!("expected two substring edits"),
    }
}
