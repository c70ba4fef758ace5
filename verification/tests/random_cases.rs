use hashline::edit::{InsertAfterOp, ReplaceLinesOp, ReplaceOp, SetLineOp};
use hashline::{
    apply_hashline_edits, apply_replace_edits, compute_line_hash, format_hashlines,
    parse_line_ref, HashlineEdit,
};

/// A small deterministic generator of test data.
struct Rng(u64);

impl Rng {
    fn next(&mut self) -> u64 {
        self.0 = self.0.wrapping_mul(6364136223846793005).wrapping_add(1442695040888963407);
        self.0 >> 33
    }

    fn below(&mut self, n: usize) -> usize {
        (self.next() % (n as u64)) as usize
    }

    fn text(&mut self, alphabet: &[char], max_len: usize) -> String {
        let len = self.below(max_len + 1);
        (0..len).map(|_| alphabet[self.below(alphabet.len())]).collect()
    }
}

const LINE_ALPHABET: [char; 24] = [
    'a', 'b', 'c', 'x', ' ', ' ', '\t', '>', '|', ':', '+', '-', '=', '&', '?', '(', '.', ',',
    '0', '7', 'é', '\u{2013}', '\u{a0}', '\r',
];

const ANY_ALPHABET: [char; 14] =
    ['a', 'Z', '5', '0', ' ', ' ', '\n', '>', '|', ':', '\t', 'é', '\u{3000}', '"'];

#[test]
fn random_texts_parse_without_panic() {
    let mut rng = Rng(1);
    for _ in 0..3000 {
        let s = rng.text(&ANY_ALPHABET, 12);
        if let Ok(r) = parse_line_ref(&s) {
            assert!(r.line >= 1);
            assert!(!r.hash.is_empty() && r.hash.len() <= 16);
            assert!(r.hash.chars().all(|c| c.is_ascii_alphanumeric()));
        }
    }
}

#[test]
fn random_texts_hash_to_two_hex_digits() {
    let mut rng = Rng(2);
    for _ in 0..2000 {
        let s = rng.text(&ANY_ALPHABET, 40);
        let h = compute_line_hash(rng.below(1000), &s);
        assert_eq!(h.len(), 2);
        assert!(h.chars().all(|c| c.is_ascii_digit() || ('a'..='f').contains(&c)));
        let stripped: String = s.chars().filter(|c| !c.is_whitespace()).collect();
        assert_eq!(h, compute_line_hash(1, &stripped));
    }
}

#[test]
fn random_texts_format_line_by_line() {
    let mut rng = Rng(3);
    for _ in 0..500 {
        let content = rng.text(&ANY_ALPHABET, 60);
        let start = 1 + rng.below(5000);
        let shown = format_hashlines(&content, start);
        let rows: Vec<&str> = shown.split('\n').collect();
        let lines: Vec<&str> = content.split('\n').collect();
        assert_eq!(rows.len(), lines.len());
        for (i, (row, line)) in rows.iter().zip(lines.iter()).enumerate() {
            assert_eq!(*row, format!("{}:{}|{}", start + i, compute_line_hash(1, line), line));
            let parsed = parse_line_ref(row).unwrap();
            assert_eq!(parsed.line, start + i);
            assert_eq!(parsed.hash, compute_line_hash(1, line));
        }
    }
}

#[test]
fn random_edit_with_fitting_anchor_is_applied() {
    let mut rng = Rng(4);
    for _ in 0..1500 {
        let count = 1 + rng.below(6);
        let lines: Vec<String> = (0..count).map(|_| rng.text(&LINE_ALPHABET, 10)).collect();
        let content = lines.join("\n");
        let k = 1 + rng.below(count);
        let anchor = format!("{}:{}", k, compute_line_hash(k, &lines[k - 1]));
        let mut alphabet = LINE_ALPHABET.to_vec();
        alphabet.push('\n');
        let new_text = rng.text(&alphabet, 14);
        let edit = match rng.below(3) {
            0 => HashlineEdit::SetLine { set_line: SetLineOp { anchor, new_text } },
            1 => {
                let e = k + rng.below(count - k + 1);
                HashlineEdit::ReplaceLines {
                    replace_lines: ReplaceLinesOp {
                        start_anchor: anchor,
                        end_anchor: Some(format!("{}:{}", e, compute_line_hash(e, &lines[e - 1]))),
                        new_text: Some(new_text),
                    },
                }
            }
            _ => HashlineEdit::InsertAfter {
                insert_after: InsertAfterOp { anchor, text: Some(new_text), content: None },
            },
        };
        let r = apply_hashline_edits(&content, &[edit]);
        let r = match r {
            Ok(r) => r,
            Err(e) => panic!("refused {:?} on {:?}: {}", k, content, e.to_string()),
        };
        match r.first_changed_line {
            None => assert_eq!(r.content, content),
            Some(first) => {
                assert!(first >= 1);
                let before: Vec<&str> = content.split('\n').collect();
                let after: Vec<&str> = r.content.split('\n').collect();
                for i in 0..(first - 1).min(before.len()).min(after.len()) {
                    assert_eq!(before[i], after[i]);
                }
            }
        }
    }
}

#[test]
fn random_batches_never_panic() {
    let mut rng = Rng(5);
    for _ in 0..1500 {
        let count = 1 + rng.below(6);
        let lines: Vec<String> = (0..count).map(|_| rng.text(&LINE_ALPHABET, 8)).collect();
        let content = lines.join("\n");
        let mut edits = Vec::new();
        for _ in 0..(1 + rng.below(4)) {
            let k = 1 + rng.below(count + 1);
            let hash = if k <= count && rng.below(4) > 0 {
                compute_line_hash(k, &lines[k - 1])
            } else {
                "zz".to_string()
            };
            let anchor = format!("{}:{}", k, hash);
            let mut alphabet = LINE_ALPHABET.to_vec();
            alphabet.push('\n');
            let new_text = rng.text(&alphabet, 10);
            edits.push(match rng.below(3) {
                0 => HashlineEdit::SetLine { set_line: SetLineOp { anchor, new_text } },
                1 => {
                    let e = 1 + rng.below(count);
                    HashlineEdit::ReplaceLines {
                        replace_lines: ReplaceLinesOp {
                            start_anchor: anchor,
                            end_anchor: Some(format!(
                                "{}:{}",
                                e,
                                compute_line_hash(e, &lines[e - 1])
                            )),
                            new_text: Some(new_text),
                        },
                    }
                }
                _ => HashlineEdit::InsertAfter {
                    insert_after: InsertAfterOp { anchor, text: Some(new_text), content: None },
                },
            });
        }
        match apply_hashline_edits(&content, &edits) {
            Ok(r) => {
                if r.first_changed_line.is_none() {
                    assert_eq!(r.content, content);
                }
            }
            Err(e) => {
                if let Some(m) = e.mismatch() {
                    assert!(!m.mismatches.is_empty());
                    assert_eq!(m.file_lines, lines);
                    let pairs = m.remaps();
                    assert!(!pairs.is_empty() && pairs.len() <= m.mismatches.len());
                    for (i, (key, _)) in pairs.iter().enumerate() {
                        assert!(pairs[..i].iter().all(|(earlier, _)| earlier != key));
                    }
                    for stale in &m.mismatches {
                        let key = format!("{}:{}", stale.line, stale.expected);
                        assert!(pairs.iter().any(|(have, _)| *have == key));
                    }
                    assert!(m.format_message().contains(">>> "));
                }
            }
        }
    }
}

#[test]
fn random_replacements_agree_with_the_standard_library() {
    let mut rng = Rng(6);
    let alphabet = ['a', 'b', '\n', 'é'];
    for _ in 0..3000 {
        let content = rng.text(&alphabet, 12);
        let old_text = rng.text(&alphabet, 3);
        let new_text = rng.text(&alphabet, 3);
        let edit = HashlineEdit::Replace {
            replace: ReplaceOp { old_text: old_text.clone(), new_text: new_text.clone() },
        };
        let r = apply_replace_edits(&content, &[edit]);
        let found = if old_text.is_empty() { 0 } else { content.matches(&old_text).count() };
        if found == 1 {
            let r = r.unwrap();
            assert_eq!(r.content, content.replacen(&old_text, &new_text, 1));
            assert_eq!(r.replacements, 1);
            let at = content.find(&old_text).unwrap();
            let line = content[..at].matches('\n').count() + 1;
            assert_eq!(r.first_changed_line, Some(line));
        } else {
            let message = r.unwrap_err().to_string();
            if old_text.is_empty() {
                assert!(message.contains("must not be empty"));
            } else if found == 0 {
                assert!(message.contains("not found"));
            } else {
                assert!(message.contains(&format!("matches {} locations", found)));
            }
        }
    }
}
