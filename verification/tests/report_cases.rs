use hashline::edit::SetLineOp;
use hashline::{apply_hashline_edits, HashMismatch, HashlineEdit, HashlineMismatchError};

fn set_line(anchor: &str, new_text: &str) -> HashlineEdit {
    HashlineEdit::SetLine {
        set_line: SetLineOp { anchor: anchor.to_string(), new_text: new_text.to_string() },
    }
}

const HEAD_ONE: &str = "1 line has changed since last read. Use the updated LINE:HASH references shown below (>>> marks changed lines).";
const HEAD_TWO: &str = "2 lines have changed since last read. Use the updated LINE:HASH references shown below (>>> marks changed lines).";

#[test]
fn message_for_one_changed_line() {
    let err = apply_hashline_edits("aaa\nbbb\nccc\nddd\neee\nfff\nggg", &[set_line("1:zz", "X")])
        .unwrap_err();
    let expected = format!("{}\n\n>>> 1:5f|aaa\n    2:67|bbb\n    3:00|ccc", HEAD_ONE);
    assert_eq!(err.mismatch().unwrap().format_message(), expected);
    assert_eq!(err.to_string(), expected);
}

#[test]
fn message_with_a_gap_between_windows() {
    let edits = vec![set_line("7:zz", "X"), set_line("1:zz", "Y")];
    let err = apply_hashline_edits("aaa\nbbb\nccc\nddd\neee\nfff\nggg", &edits).unwrap_err();
    let expected = format!(
        "{}\n\n>>> 1:5f|aaa\n    2:67|bbb\n    3:00|ccc\n    ...\n    5:f6|eee\n    6:ea|fff\n>>> 7:da|ggg",
        HEAD_TWO
    );
    assert_eq!(err.to_string(), expected);
}

#[test]
fn message_with_windows_that_touch() {
    let edits = vec![set_line("2:zz", "X"), set_line("5:zz", "Y")];
    let err = apply_hashline_edits("aaa\nbbb\nccc\nddd\neee\nfff\nggg", &edits).unwrap_err();
    let expected = format!(
        "{}\n\n    1:5f|aaa\n>>> 2:67|bbb\n    3:00|ccc\n    4:fd|ddd\n>>> 5:f6|eee\n    6:ea|fff\n    7:da|ggg",
        HEAD_TWO
    );
    assert_eq!(err.to_string(), expected);
}

#[test]
fn message_without_mismatches_has_only_the_header() {
    let e = HashlineMismatchError::new(vec![], vec!["aaa".to_string()]);
    assert_eq!(
        e.format_message(),
        "0 line has changed since last read. Use the updated LINE:HASH references shown below (>>> marks changed lines).\n"
    );
}

#[test]
fn message_tolerates_lines_out_of_the_file() {
    let stale = HashMismatch { line: 9, expected: "aa".to_string(), actual: "bb".to_string() };
    let e = HashlineMismatchError::new(vec![stale], vec!["aaa".to_string(), "bbb".to_string()]);
    assert_eq!(e.format_message(), format!("{}\n", HEAD_ONE));
    let top = HashMismatch { line: usize::MAX, expected: "aa".to_string(), actual: "bb".to_string() };
    let e = HashlineMismatchError::new(vec![top], vec!["aaa".to_string()]);
    assert_eq!(e.format_message(), format!("{}\n", HEAD_ONE));
}

#[test]
fn remaps_pair_stale_and_fresh_anchors() {
    let edits = vec![set_line("7:zz", "X"), set_line("1:Zq", "Y")];
    let err = apply_hashline_edits("aaa\nbbb\nccc\nddd\neee\nfff\nggg", &edits).unwrap_err();
    let pairs = err.mismatch().unwrap().remaps();
    assert_eq!(
        pairs,
        vec![
            ("7:zz".to_string(), "7:da".to_string()),
            ("1:Zq".to_string(), "1:5f".to_string())
        ]
    );
}

#[test]
fn remaps_hold_each_stale_anchor_once() {
    let edits = vec![
        set_line("7:zz", "X"),
        set_line("1:Zq", "Y"),
        set_line("7:zz", "Z"),
        set_line("7:zy", "W"),
        set_line("1:Zq", "Y"),
    ];
    let err = apply_hashline_edits("aaa\nbbb\nccc\nddd\neee\nfff\nggg", &edits).unwrap_err();
    let mismatch = err.mismatch().unwrap();
    assert_eq!(mismatch.mismatches.len(), 5);
    assert_eq!(
        mismatch.remaps(),
        vec![
            ("7:zz".to_string(), "7:da".to_string()),
            ("1:Zq".to_string(), "1:5f".to_string()),
            ("7:zy".to_string(), "7:da".to_string()),
        ]
    );
    let none = HashlineMismatchError::new(vec![], vec!["aaa".to_string()]);
    assert!(none.remaps().is_empty());
}
