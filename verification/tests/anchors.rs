use hashline::{parse_line_ref, LineRef};

#[test]
fn parses_valid_reference() {
    assert_eq!(
        parse_line_ref("5:abcd").unwrap(),
        LineRef {
            line: 5,
            hash: "abcd".into()
        }
    );
}

#[test]
fn parses_single_digit_hash() {
    assert_eq!(
        parse_line_ref("1:a").unwrap(),
        LineRef {
            line: 1,
            hash: "a".into()
        }
    );
}

#[test]
fn parses_long_hash() {
    assert_eq!(
        parse_line_ref("100:abcdef0123456789").unwrap(),
        LineRef {
            line: 100,
            hash: "abcdef0123456789".into()
        }
    );
}

#[test]
fn strips_display_suffix() {
    assert_eq!(
        parse_line_ref("5:ab|some content").unwrap(),
        LineRef {
            line: 5,
            hash: "ab".into()
        }
    );
}

#[test]
fn strips_legacy_suffix() {
    assert_eq!(
        parse_line_ref("5:ab  some content").unwrap(),
        LineRef {
            line: 5,
            hash: "ab".into()
        }
    );
}

#[test]
fn strips_arrow_prefix() {
    assert_eq!(
        parse_line_ref(">>> 5:ab").unwrap(),
        LineRef {
            line: 5,
            hash: "ab".into()
        }
    );
}

#[test]
fn rejects_missing_colon() {
    assert!(parse_line_ref("5abcd").is_err());
}

#[test]
fn rejects_non_numeric_line() {
    assert!(parse_line_ref("abc:1234").is_err());
}

#[test]
fn rejects_non_alphanumeric_hash() {
    assert!(parse_line_ref("5:$$$$").is_err());
}

#[test]
fn rejects_line_number_0() {
    let err = parse_line_ref("0:abcd").unwrap_err();
    assert!(err.contains(">= 1"));
}

#[test]
fn rejects_empty_string() {
    assert!(parse_line_ref("").is_err());
}

#[test]
fn rejects_empty_hash() {
    assert!(parse_line_ref("5:").is_err());
}

#[test]
fn parses_polluted_trailing_content() {
    let result = parse_line_ref("2:abexport function foo(a, b) {}").unwrap();
    assert_eq!(result.line, 2);
    assert_eq!(result.hash, "ab");
}
