use hashline::heuristics::{
    has_confusable_hyphens, maybe_expand_single_line_merge, normalize_confusable_hyphens,
    normalize_confusable_hyphens_in_lines, restore_indent_for_paired_replacement,
    restore_old_wrapped_lines, strip_insert_anchor_echo_after, strip_merge_operator_chars,
    strip_new_line_prefixes, strip_range_boundary_echo, strip_trailing_continuation_tokens,
};
use std::collections::HashSet;

fn lines(items: &[&str]) -> Vec<String> {
    items.iter().map(|s| s.to_string()).collect()
}

#[test]
fn confusable_hyphens_are_found() {
    assert!(has_confusable_hyphens("a\u{2013}b"));
    assert!(has_confusable_hyphens("\u{2010}"));
    assert!(has_confusable_hyphens("x\u{2015}"));
    assert!(has_confusable_hyphens("\u{2212}1"));
    assert!(has_confusable_hyphens("\u{FE63}"));
    assert!(has_confusable_hyphens("\u{FF0D}"));
    assert!(!has_confusable_hyphens("a-b"));
    assert!(!has_confusable_hyphens("\u{2016}\u{200F}"));
    assert!(!has_confusable_hyphens(""));
}

#[test]
fn confusable_hyphens_become_plain() {
    assert_eq!(normalize_confusable_hyphens("a\u{2010}b\u{FF0D}c-d\u{2212}"), "a-b-c-d-");
    assert_eq!(normalize_confusable_hyphens("é\u{2014}é"), "é-é");
    assert_eq!(
        normalize_confusable_hyphens_in_lines(&lines(&["\u{2011}", "x", ""])),
        lines(&["-", "x", ""])
    );
}

#[test]
fn display_prefixes_are_stripped_from_half_or_more() {
    assert_eq!(strip_new_line_prefixes(&lines(&["1:ab|foo", "2:cd|bar"])), lines(&["foo", "bar"]));
    assert_eq!(
        strip_new_line_prefixes(&lines(&[">>> 12:abc|x", "plain", ""])),
        lines(&["x", "plain", ""])
    );
    assert_eq!(strip_new_line_prefixes(&lines(&["  >>  7:Ab|  y"])), lines(&["  y"]));
    assert_eq!(
        strip_new_line_prefixes(&lines(&["1:ab|foo", "b", "c"])),
        lines(&["1:ab|foo", "b", "c"])
    );
}

#[test]
fn texts_that_only_look_like_prefixes_stay() {
    for text in [">1:ab|x", ">>>>1:ab|x", "1:|x", "1:abcdefghijklmnopq|x", ":ab|x", "1:ab", "1:a-|x"] {
        assert_eq!(strip_new_line_prefixes(&lines(&[text])), lines(&[text]));
    }
    assert_eq!(strip_new_line_prefixes(&lines(&["1:abcdefghijklmnop|x"])), lines(&["x"]));
}

#[test]
fn diff_markers_are_stripped_from_half_or_more() {
    assert_eq!(strip_new_line_prefixes(&lines(&["+a", "+b"])), lines(&["a", "b"]));
    assert_eq!(strip_new_line_prefixes(&lines(&["+a", "b"])), lines(&["a", "b"]));
    assert_eq!(strip_new_line_prefixes(&lines(&["+a", "b", "c"])), lines(&["+a", "b", "c"]));
    assert_eq!(strip_new_line_prefixes(&lines(&["++a"])), lines(&["++a"]));
    assert_eq!(strip_new_line_prefixes(&lines(&["+", "++x"])), lines(&["", "++x"]));
    assert_eq!(strip_new_line_prefixes(&lines(&[])), lines(&[]));
    assert_eq!(strip_new_line_prefixes(&lines(&["", ""])), lines(&["", ""]));
}

#[test]
fn display_prefixes_win_over_diff_markers() {
    assert_eq!(strip_new_line_prefixes(&lines(&["1:ab|+a", "+b"])), lines(&["+a", "+b"]));
}

#[test]
fn indentation_is_restored_line_by_line() {
    assert_eq!(
        restore_indent_for_paired_replacement(&lines(&["  a", "b", "\tc"]), &lines(&["x", "  y", ""])),
        lines(&["  x", "  y", ""])
    );
    assert_eq!(
        restore_indent_for_paired_replacement(&lines(&["  a"]), &lines(&[" x"])),
        lines(&[" x"])
    );
    assert_eq!(
        restore_indent_for_paired_replacement(&lines(&["  a"]), &lines(&["x", "y"])),
        lines(&["x", "y"])
    );
    assert_eq!(
        restore_indent_for_paired_replacement(&lines(&["\u{3000} a"]), &lines(&["x"])),
        lines(&["\u{3000} x"])
    );
}

#[test]
fn reflowed_line_is_restored() {
    assert_eq!(
        restore_old_wrapped_lines(
            &lines(&["const x = alpha + beta;"]),
            &lines(&["head", "const x =", "  alpha + beta;", "tail"])
        ),
        lines(&["head", "const x = alpha + beta;", "tail"])
    );
}

#[test]
fn reflow_needs_six_bytes_and_a_single_match() {
    assert_eq!(
        restore_old_wrapped_lines(&lines(&["a b c"]), &lines(&["a b", "c"])),
        lines(&["a b", "c"])
    );
    assert_eq!(
        restore_old_wrapped_lines(&lines(&["éé é"]), &lines(&["éé", "é"])),
        lines(&["éé é"])
    );
    assert_eq!(
        restore_old_wrapped_lines(&lines(&["abc def", "abcdef"]), &lines(&["abc", "def"])),
        lines(&["abc", "def"])
    );
    assert_eq!(
        restore_old_wrapped_lines(&lines(&["abcdef"]), &lines(&["abc", "def", ""])),
        lines(&["abc", "def", ""])
    );
    assert_eq!(restore_old_wrapped_lines(&lines(&[]), &lines(&["abc", "def"])), lines(&["abc", "def"]));
    assert_eq!(restore_old_wrapped_lines(&lines(&["abcdef"]), &lines(&["abcdef"])), lines(&["abcdef"]));
}

#[test]
fn reflow_candidate_that_no_longer_fits_is_passed_over() {
    assert_eq!(
        restore_old_wrapped_lines(
            &lines(&["abcdef", "abcdefghi"]),
            &lines(&["abc", "def", "ghi"])
        ),
        lines(&["abcdef", "ghi"])
    );
}

#[test]
fn echoed_anchor_line_is_dropped() {
    assert_eq!(
        strip_insert_anchor_echo_after("  foo()", &lines(&["foo ()", "bar"])),
        lines(&["bar"])
    );
    assert_eq!(strip_insert_anchor_echo_after("foo()", &lines(&["foo()"])), lines(&[]));
    assert_eq!(strip_insert_anchor_echo_after("bbb", &lines(&[" bbb "])), lines(&[]));
    assert_eq!(strip_insert_anchor_echo_after("  ", &lines(&[""])), lines(&[]));
    assert_eq!(strip_insert_anchor_echo_after("foo()", &lines(&["bar"])), lines(&["bar"]));
    assert_eq!(strip_insert_anchor_echo_after("foo()", &lines(&[])), lines(&[]));
    assert_eq!(
        strip_insert_anchor_echo_after("foo()", &lines(&["bar", "foo()"])),
        lines(&["bar", "foo()"])
    );
}

#[test]
fn echoed_neighbours_of_a_range_are_dropped() {
    let file = lines(&["a", "b", "c", "d"]);
    assert_eq!(
        strip_range_boundary_echo(&file, 2, 3, &lines(&["a", "X", "Y", "d"])),
        lines(&["X", "Y"])
    );
    assert_eq!(
        strip_range_boundary_echo(&file, 2, 3, &lines(&["X", "Y", " d "])),
        lines(&["X", "Y"])
    );
    assert_eq!(strip_range_boundary_echo(&file, 2, 3, &lines(&["a", "d"])), lines(&["a", "d"]));
    assert_eq!(
        strip_range_boundary_echo(&file, 1, 4, &lines(&["a", "b", "c", "d", "e"])),
        lines(&["a", "b", "c", "d", "e"])
    );
    assert_eq!(strip_range_boundary_echo(&file, 2, 2, &lines(&["a", "c"])), lines(&[]));
}

#[test]
fn continuation_tokens_are_stripped() {
    assert_eq!(strip_trailing_continuation_tokens("a &&  "), "a ");
    assert_eq!(strip_trailing_continuation_tokens("a||"), "a");
    assert_eq!(strip_trailing_continuation_tokens("a??"), "a");
    assert_eq!(strip_trailing_continuation_tokens("a?"), "a");
    assert_eq!(strip_trailing_continuation_tokens("a&&&"), "a&");
    assert_eq!(strip_trailing_continuation_tokens("x ="), "x ");
    assert_eq!(strip_trailing_continuation_tokens("f("), "f");
    assert_eq!(strip_trailing_continuation_tokens("a&"), "a&");
    assert_eq!(strip_trailing_continuation_tokens("abc"), "abc");
    assert_eq!(strip_trailing_continuation_tokens("abc  "), "abc  ");
    assert_eq!(strip_trailing_continuation_tokens(""), "");
    for token in [":", "=", ",", "+", "-", "*", "/", "."] {
        assert_eq!(strip_trailing_continuation_tokens(&format!("q{}\t", token)), "q");
    }
}

#[test]
fn merge_operators_are_stripped() {
    assert_eq!(strip_merge_operator_chars("a||b&&c??d?e|f"), "abcdef");
    assert_eq!(strip_merge_operator_chars(""), "");
}

#[test]
fn merge_with_the_next_line() {
    let file = lines(&["foo &&", "bar", "baz"]);
    let mut touched = HashSet::new();
    touched.insert(1usize);
    let r = maybe_expand_single_line_merge(1, &lines(&["foo && bar"]), &file, &touched);
    assert_eq!(r, Some((1, 2, lines(&["foo && bar"]))));
    touched.insert(2usize);
    let r = maybe_expand_single_line_merge(1, &lines(&["foo && bar"]), &file, &touched);
    assert_eq!(r, None);
}

#[test]
fn merge_with_the_previous_line() {
    let file = lines(&["let x =", "a || b;", "tail"]);
    let mut touched = HashSet::new();
    touched.insert(2usize);
    let r = maybe_expand_single_line_merge(2, &lines(&["let x = a ?? b;"]), &file, &touched);
    assert_eq!(r, Some((1, 2, lines(&["let x = a ?? b;"]))));
    touched.insert(1usize);
    let r = maybe_expand_single_line_merge(2, &lines(&["let x = a ?? b;"]), &file, &touched);
    assert_eq!(r, None);
}

#[test]
fn merge_needs_one_line_in_range_and_a_short_text() {
    let file = lines(&["foo &&", "bar"]);
    let touched = HashSet::new();
    assert_eq!(maybe_expand_single_line_merge(1, &lines(&["foo", "bar"]), &file, &touched), None);
    assert_eq!(maybe_expand_single_line_merge(0, &lines(&["foo && bar"]), &file, &touched), None);
    assert_eq!(maybe_expand_single_line_merge(3, &lines(&["foo && bar"]), &file, &touched), None);
    assert_eq!(maybe_expand_single_line_merge(1, &lines(&["  "]), &file, &touched), None);
    assert_eq!(maybe_expand_single_line_merge(1, &lines(&["bar foo"]), &file, &touched), None);
    let long = format!("foo && {} bar", "x".repeat(40));
    assert_eq!(maybe_expand_single_line_merge(1, &lines(&[&long]), &file, &touched), None);
    let fits = format!("foo && {} bar", "x".repeat(27));
    assert!(maybe_expand_single_line_merge(1, &lines(&[&fits]), &file, &touched).is_some());
}

#[test]
fn diff_marker_is_one_plus() {
    assert!(hashline::heuristics::has_diff_plus_prefix("+a"));
    assert!(hashline::heuristics::has_diff_plus_prefix("+"));
    assert!(!hashline::heuristics::has_diff_plus_prefix("++a"));
    assert!(!hashline::heuristics::has_diff_plus_prefix(" +a"));
    assert!(!hashline::heuristics::has_diff_plus_prefix(""));
    assert_eq!(hashline::heuristics::strip_diff_plus("+a+"), "a+");
    assert_eq!(hashline::heuristics::strip_diff_plus("++a"), "++a");
    assert_eq!(hashline::heuristics::leading_whitespace(" \t\u{a0}x y "), " \t\u{a0}");
    assert_eq!(hashline::heuristics::restore_leading_indent("\tq", "x"), "\tx");
    assert!(hashline::heuristics::equals_ignoring_whitespace(" a b ", "ab"));
    assert!(!hashline::heuristics::equals_ignoring_whitespace("a b", "a c"));
}
