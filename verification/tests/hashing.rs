use hashline::compute_line_hash;

#[test]
fn returns_2_char_hex_hash() {
    let hash = compute_line_hash(1, "hello");
    assert_eq!(hash.len(), 2);
    assert!(hash.chars().all(|c| c.is_ascii_hexdigit()));
}

#[test]
fn same_content_same_hash() {
    assert_eq!(compute_line_hash(1, "hello"), compute_line_hash(1, "hello"));
}

#[test]
fn different_content_different_hash() {
    assert_ne!(compute_line_hash(1, "hello"), compute_line_hash(1, "world"));
}

#[test]
fn empty_line_produces_valid_hash() {
    let hash = compute_line_hash(1, "");
    assert_eq!(hash.len(), 2);
    assert!(hash.chars().all(|c| c.is_ascii_hexdigit()));
}

#[test]
fn whitespace_insensitive() {
    assert_eq!(
        compute_line_hash(1, "  hello  world  "),
        compute_line_hash(1, "helloworld")
    );
}

#[test]
fn strips_trailing_cr() {
    assert_eq!(
        compute_line_hash(1, "hello\r"),
        compute_line_hash(1, "hello")
    );
}
