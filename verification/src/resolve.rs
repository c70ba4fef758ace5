//! The second phase of a batch: every anchor is held against the file.
//!
//! An anchor whose hash matches its line stands. A stale anchor moves to the
//! one line of the file that has its hash, where exactly one has it; else it
//! is a mismatch. A line out of range fails the batch at once.

use crate::batch::{lemma_parsed_views_push, parsed_views, ParsedEdit, ParsedRefs, ParsedView, RefsView};
use crate::edit::{mismatch_view, mismatches_view, MismatchView};
use crate::error::HashMismatch;
use crate::hash::{compute_line_hash, line_hash};
use crate::text::{
    char_ascii_lower, clone_lines, decimal, lemma_deep_view_push, lowercase, push_decimal,
    str_equal,
};
use vstd::prelude::*;

verus! {

/// The hash of every line of `file`.
pub open spec fn file_hashes(file: Seq<Seq<char>>) -> Seq<Seq<char>> {
    Seq::new(file.len(), |i: int| line_hash(file[i]))
}

/// How many of `items` are equal to `x`.
pub open spec fn occurrences(items: Seq<Seq<char>>, x: Seq<char>) -> nat
    decreases items.len(),
{
    if items.len() == 0 {
        0
    } else {
        occurrences(items.drop_last(), x) + if items.last() == x {
            1nat
        } else {
            0nat
        }
    }
}

/// The position of the first of `items` that is equal to `x`, or the length
/// where none is.
pub open spec fn first_position(items: Seq<Seq<char>>, x: Seq<char>) -> int
    decreases items.len(),
{
    if items.len() == 0 || items[0] == x {
        0
    } else {
        1 + first_position(items.skip(1), x)
    }
}

/// The number of the one line of `file` whose hash is `hash`, where exactly
/// one line has that hash.
pub open spec fn unique_line(file: Seq<Seq<char>>, hash: Seq<char>) -> Option<int> {
    if occurrences(file_hashes(file), hash) == 1 {
        Some(first_position(file_hashes(file), hash) + 1)
    } else {
        None
    }
}

/// Where the anchor (`line`, `hash`) points after validation, and the
/// mismatch where it is stale and cannot move: the anchor stands where the
/// hash of its line is `hash` in lower case, else moves to the unique line
/// with that hash, else is a mismatch.
pub open spec fn resolve(file: Seq<Seq<char>>, line: int, hash: Seq<char>) -> (
    int,
    Option<MismatchView>,
) {
    let actual = line_hash(file[line - 1]);
    if actual == lowercase(hash) {
        (line, None)
    } else {
        match unique_line(file, lowercase(hash)) {
            Some(k) => (k, None),
            None => (line, Some(MismatchView { line, expected: hash, actual })),
        }
    }
}

/// The message for a line that the file does not have.
pub open spec fn missing_line_message(line: int, total: int) -> Seq<char> {
    "Line "@ + decimal(line as nat) + " does not exist (file has "@ + decimal(total as nat)
        + " lines)"@
}

/// The message for a range that ends before it starts.
pub open spec fn bad_range_message(start: int, end: int) -> Seq<char> {
    "Range start line "@ + decimal(start as nat) + " must be <= end line "@ + decimal(end as nat)
}

/// The list with the mismatch, where there is one.
pub open spec fn with_mismatch(ms: Seq<MismatchView>, m: Option<MismatchView>) -> Seq<
    MismatchView,
> {
    match m {
        Some(x) => ms.push(x),
        None => ms,
    }
}

/// The edit after validation, with the mismatches it adds, or the message
/// that fails the batch. An insertion of no lines becomes the insertion of
/// one empty line. A range that moved is put back, with a mismatch at each
/// end, where it would end before it starts or span another number of lines.
pub open spec fn checked_edit(file: Seq<Seq<char>>, p: ParsedView) -> Result<
    (ParsedView, Seq<MismatchView>),
    Seq<char>,
> {
    let total = file.len() as int;
    match p.refs {
        RefsView::Single { line, hash } => {
            if line < 1 || line > total {
                Err(missing_line_message(line, total))
            } else {
                let (at, m) = resolve(file, line, hash);
                Ok(
                    (
                        ParsedView { index: p.index, refs: RefsView::Single { line: at, hash }, dst: p.dst },
                        with_mismatch(Seq::empty(), m),
                    ),
                )
            }
        },
        RefsView::InsertAfter { line, hash } => {
            if line < 1 || line > total {
                Err(missing_line_message(line, total))
            } else {
                let (at, m) = resolve(file, line, hash);
                Ok(
                    (
                        ParsedView {
                            index: p.index,
                            refs: RefsView::InsertAfter { line: at, hash },
                            dst: if p.dst.len() == 0 {
                                seq![Seq::<char>::empty()]
                            } else {
                                p.dst
                            },
                        },
                        with_mismatch(Seq::empty(), m),
                    ),
                )
            }
        },
        RefsView::Range { start_line, start_hash, end_line, end_hash } => {
            if start_line < 1 || start_line > total {
                Err(missing_line_message(start_line, total))
            } else if end_line < 1 || end_line > total {
                Err(missing_line_message(end_line, total))
            } else if start_line > end_line {
                Err(bad_range_message(start_line, end_line))
            } else {
                let (s, m1) = resolve(file, start_line, start_hash);
                let (e, m2) = resolve(file, end_line, end_hash);
                if m1 is None && m2 is None && (s != start_line || e != end_line) && (s > e || e - s
                    != end_line - start_line) {
                    Ok(
                        (
                            p,
                            seq![
                                MismatchView {
                                    line: start_line,
                                    expected: start_hash,
                                    actual: line_hash(file[start_line - 1]),
                                },
                                MismatchView {
                                    line: end_line,
                                    expected: end_hash,
                                    actual: line_hash(file[end_line - 1]),
                                },
                            ],
                        ),
                    )
                } else {
                    Ok(
                        (
                            ParsedView {
                                index: p.index,
                                refs: RefsView::Range {
                                    start_line: s,
                                    start_hash,
                                    end_line: e,
                                    end_hash,
                                },
                                dst: p.dst,
                            },
                            with_mismatch(with_mismatch(Seq::empty(), m1), m2),
                        ),
                    )
                }
            }
        },
    }
}

/// Every edit after validation with all mismatches, in order, or the message
/// of the first edit that fails the batch.
pub open spec fn checked_batch(file: Seq<Seq<char>>, parsed: Seq<ParsedView>) -> Result<
    (Seq<ParsedView>, Seq<MismatchView>),
    Seq<char>,
>
    decreases parsed.len(),
{
    if parsed.len() == 0 {
        Ok((Seq::empty(), Seq::empty()))
    } else {
        match checked_batch(file, parsed.drop_last()) {
            Err(m) => Err(m),
            Ok((edits, mismatches)) => match checked_edit(file, parsed.last()) {
                Err(m) => Err(m),
                Ok((edit, more)) => Ok((edits.push(edit), mismatches + more)),
            },
        }
    }
}

/// Where something occurs, its first position is in range and holds it.
pub proof fn lemma_first_position(items: Seq<Seq<char>>, x: Seq<char>)
    ensures
        0 <= first_position(items, x) <= items.len(),
        first_position(items, x) < items.len() ==> items[first_position(items, x)] == x,
        occurrences(items, x) > 0 ==> first_position(items, x) < items.len(),
    decreases items.len(),
{
    if items.len() == 0 {
    } else if items[0] == x {
    } else {
        let rest = items.skip(1);
        lemma_first_position(rest, x);
        if first_position(rest, x) < rest.len() {
            assert(rest[first_position(rest, x)] == items[first_position(rest, x) + 1]);
        }
        lemma_occurrences_skip_first(items, x);
    }
}

/// Counting from the front: the first item counts where it is equal.
pub proof fn lemma_occurrences_skip_first(items: Seq<Seq<char>>, x: Seq<char>)
    requires
        items.len() > 0,
    ensures
        occurrences(items, x) == occurrences(items.skip(1), x) + if items[0] == x {
            1nat
        } else {
            0nat
        },
    decreases items.len(),
{
    if items.len() == 1 {
        assert(items.drop_last() =~= Seq::<Seq<char>>::empty());
        assert(items.skip(1) =~= Seq::<Seq<char>>::empty());
    } else {
        lemma_occurrences_skip_first(items.drop_last(), x);
        assert(items.drop_last().skip(1) =~= items.skip(1).drop_last());
        assert(items.skip(1).last() == items.last());
        assert(items.drop_last()[0] == items[0]);
    }
}

/// A line moved by `resolve` is a line of the file.
pub proof fn lemma_resolve_in_range(file: Seq<Seq<char>>, line: int, hash: Seq<char>)
    requires
        1 <= line <= file.len(),
    ensures
        1 <= resolve(file, line, hash).0 <= file.len(),
{
    lemma_first_position(file_hashes(file), lowercase(hash));
}

/// The hash of every line.
pub fn line_hashes(file_lines: &[String]) -> (r: Vec<String>)
    ensures
        r.deep_view() == file_hashes(file_lines.deep_view()),
{
    let ghost want = file_hashes(file_lines.deep_view());
    let mut r: Vec<String> = Vec::new();
    let mut i: usize = 0;
    assert(r.deep_view() =~= want.take(0));
    while i < file_lines.len()
        invariant
            i <= file_lines.len(),
            want == file_hashes(file_lines.deep_view()),
            r.deep_view() == want.take(i as int),
        decreases file_lines.len() - i,
    {
        let ghost before = r@;
        let h = compute_line_hash(i + 1, file_lines[i].as_str());
        r.push(h);
        proof {
            lemma_deep_view_push(before, r@, h);
            assert(want.take(i + 1) =~= want.take(i as int).push(want[i as int]));
        }
        i += 1;
    }
    assert(want.take(file_lines.len() as int) =~= want);
    r
}

/// `s` with its ASCII letters in lower case.
pub fn ascii_lowercase(s: &str) -> (r: String)
    ensures
        r@ == lowercase(s@),
{
    let mut r = String::new();
    assert(r@ =~= lowercase(s@).take(0));
    for c in it: s.chars()
        invariant
            it.seq() == s@,
            r@ == lowercase(s@).take(it.index() as int),
    {
        let ghost i = it.index() as int;
        r.push(char_ascii_lower(c));
        assert(r@ =~= lowercase(s@).take(i + 1));
    }
    assert(lowercase(s@).take(s@.len() as int) =~= lowercase(s@));
    r
}

/// How often `x` occurs in `items`, and its first position.
fn count_and_first(items: &[String], x: &str) -> (r: (usize, usize))
    ensures
        r.0 == occurrences(items.deep_view(), x@),
        r.1 == first_position(items.deep_view(), x@),
        r.1 <= items.len(),
{
    let ghost all = items.deep_view();
    let mut count: usize = 0;
    let mut first: usize = items.len();
    let mut i: usize = 0;
    assert(all.take(0) =~= Seq::<Seq<char>>::empty());
    assert(all.skip(0) =~= all);
    while i < items.len()
        invariant
            i <= items.len(),
            all == items.deep_view(),
            count == occurrences(all.take(i as int), x@),
            count <= i,
            count == 0 ==> first == items.len() && first_position(all, x@) == i + first_position(
                all.skip(i as int),
                x@,
            ),
            count > 0 ==> first < items.len() && first == first_position(all, x@),
        decreases items.len() - i,
    {
        proof {
            let next = all.take(i + 1);
            assert(next.drop_last() =~= all.take(i as int));
            assert(next.last() == items@[i as int]@);
            assert(all.skip(i as int)[0] == items@[i as int]@);
            assert(all.skip(i as int).skip(1) =~= all.skip(i + 1));
        }
        if str_equal(items[i].as_str(), x) {
            if count == 0 {
                first = i;
            }
            count += 1;
        }
        i += 1;
    }
    proof {
        assert(all.take(items.len() as int) =~= all);
        assert(all.skip(items.len() as int) =~= Seq::<Seq<char>>::empty());
    }
    (count, first)
}

/// Validates one anchor against the file, moving it where its hash is
/// unique elsewhere.
pub fn validate_or_relocate(line: usize, hash: &str, file_lines: &[String], hashes: &[String]) -> (r:
    (usize, Option<HashMismatch>))
    requires
        1 <= line <= file_lines.len(),
        hashes.deep_view() == file_hashes(file_lines.deep_view()),
    ensures
        1 <= r.0 <= file_lines.len(),
        r.0 == resolve(file_lines.deep_view(), line as int, hash@).0,
        match r.1 {
            Some(m) => resolve(file_lines.deep_view(), line as int, hash@).1 == Some(
                mismatch_view(m),
            ),
            None => resolve(file_lines.deep_view(), line as int, hash@).1 is None,
        },
{
    proof {
        lemma_resolve_in_range(file_lines.deep_view(), line as int, hash@);
    }
    let expected = ascii_lowercase(hash);
    assert(hashes.deep_view()[line - 1] == line_hash(file_lines.deep_view()[line - 1]));
    if str_equal(hashes[line - 1].as_str(), expected.as_str()) {
        return (line, None);
    }
    let (count, first) = count_and_first(hashes, expected.as_str());
    if count == 1 {
        return (first + 1, None);
    }
    let m = HashMismatch {
        line,
        expected: hash.to_owned(),
        actual: hashes[line - 1].clone(),
    };
    (line, Some(m))
}

fn missing_line_error(line: usize, total: usize) -> (m: String)
    ensures
        m@ == missing_line_message(line as int, total as int),
{
    let mut m = String::from_str("Line ");
    push_decimal(&mut m, line as u128);
    m.append(" does not exist (file has ");
    push_decimal(&mut m, total as u128);
    m.append(" lines)");
    m
}

fn bad_range_error(start: usize, end: usize) -> (m: String)
    ensures
        m@ == bad_range_message(start as int, end as int),
{
    let mut m = String::from_str("Range start line ");
    push_decimal(&mut m, start as u128);
    m.append(" must be <= end line ");
    push_decimal(&mut m, end as u128);
    m
}

/// The mismatches with one more, where there is one.
fn push_mismatch(ms: &mut Vec<HashMismatch>, m: Option<HashMismatch>)
    ensures
        mismatches_view(final(ms)@) == with_mismatch(
            mismatches_view(old(ms)@),
            match m {
                Some(x) => Some(mismatch_view(x)),
                None => None,
            },
        ),
{
    match m {
        Some(x) => {
            ms.push(x);
            assert(mismatches_view(ms@) =~= mismatches_view(old(ms)@).push(mismatch_view(x)));
        },
        None => {},
    }
}

/// Validates one edit against the file.
pub fn check_edit(file_lines: &[String], hashes: &[String], edit: &ParsedEdit) -> (r: Result<
    (ParsedEdit, Vec<HashMismatch>),
    String,
>)
    requires
        hashes.deep_view() == file_hashes(file_lines.deep_view()),
    ensures
        match r {
            Ok((e, ms)) => checked_edit(file_lines.deep_view(), edit@) == Ok::<
                (ParsedView, Seq<MismatchView>),
                Seq<char>,
            >((e@, mismatches_view(ms@))),
            Err(m) => checked_edit(file_lines.deep_view(), edit@) == Err::<
                (ParsedView, Seq<MismatchView>),
                Seq<char>,
            >(m@),
        },
{
    let total = file_lines.len();
    let mut ms: Vec<HashMismatch> = Vec::new();
    assert(mismatches_view(ms@) =~= Seq::<MismatchView>::empty());
    match &edit.refs {
        ParsedRefs::Single { line, hash } => {
            if *line < 1 || *line > total {
                return Err(missing_line_error(*line, total));
            }
            let (at, m) = validate_or_relocate(*line, hash.as_str(), file_lines, hashes);
            push_mismatch(&mut ms, m);
            let e = ParsedEdit {
                index: edit.index,
                refs: ParsedRefs::Single { line: at, hash: hash.clone() },
                dst_lines: clone_lines(edit.dst_lines.as_slice()),
            };
            Ok((e, ms))
        },
        ParsedRefs::InsertAfter { line, hash } => {
            if *line < 1 || *line > total {
                return Err(missing_line_error(*line, total));
            }
            let dst_lines = if edit.dst_lines.len() == 0 {
                let blank: Vec<String> = vec![String::new()];
                assert(blank.deep_view() =~= seq![Seq::<char>::empty()]);
                blank
            } else {
                clone_lines(edit.dst_lines.as_slice())
            };
            let (at, m) = validate_or_relocate(*line, hash.as_str(), file_lines, hashes);
            push_mismatch(&mut ms, m);
            let e = ParsedEdit {
                index: edit.index,
                refs: ParsedRefs::InsertAfter { line: at, hash: hash.clone() },
                dst_lines,
            };
            Ok((e, ms))
        },
        ParsedRefs::Range { start_line, start_hash, end_line, end_hash } => {
            if *start_line < 1 || *start_line > total {
                return Err(missing_line_error(*start_line, total));
            }
            if *end_line < 1 || *end_line > total {
                return Err(missing_line_error(*end_line, total));
            }
            if *start_line > *end_line {
                return Err(bad_range_error(*start_line, *end_line));
            }
            let (s, m1) = validate_or_relocate(
                *start_line,
                start_hash.as_str(),
                file_lines,
                hashes,
            );
            let (e, m2) = validate_or_relocate(*end_line, end_hash.as_str(), file_lines, hashes);
            let moved = s != *start_line || e != *end_line;
            if m1.is_none() && m2.is_none() && moved && (s > e || e - s != *end_line
                - *start_line) {
                assert(hashes.deep_view()[*start_line - 1] == line_hash(
                    file_lines.deep_view()[*start_line - 1],
                ));
                assert(hashes.deep_view()[*end_line - 1] == line_hash(
                    file_lines.deep_view()[*end_line - 1],
                ));
                let a = HashMismatch {
                    line: *start_line,
                    expected: start_hash.clone(),
                    actual: hashes[*start_line - 1].clone(),
                };
                let b = HashMismatch {
                    line: *end_line,
                    expected: end_hash.clone(),
                    actual: hashes[*end_line - 1].clone(),
                };
                let both: Vec<HashMismatch> = vec![a, b];
                assert(mismatches_view(both@) =~= seq![mismatch_view(a), mismatch_view(b)]);
                let kept = ParsedEdit {
                    index: edit.index,
                    refs: ParsedRefs::Range {
                        start_line: *start_line,
                        start_hash: start_hash.clone(),
                        end_line: *end_line,
                        end_hash: end_hash.clone(),
                    },
                    dst_lines: clone_lines(edit.dst_lines.as_slice()),
                };
                Ok((kept, both))
            } else {
                push_mismatch(&mut ms, m1);
                push_mismatch(&mut ms, m2);
                let moved_edit = ParsedEdit {
                    index: edit.index,
                    refs: ParsedRefs::Range {
                        start_line: s,
                        start_hash: start_hash.clone(),
                        end_line: e,
                        end_hash: end_hash.clone(),
                    },
                    dst_lines: clone_lines(edit.dst_lines.as_slice()),
                };
                Ok((moved_edit, ms))
            }
        },
    }
}

/// An edit that fails the batch fails it whatever follows.
pub proof fn lemma_check_error_stays(file: Seq<Seq<char>>, parsed: Seq<ParsedView>, k: int)
    requires
        0 <= k <= parsed.len(),
        checked_batch(file, parsed.take(k)) is Err,
    ensures
        checked_batch(file, parsed) == checked_batch(file, parsed.take(k)),
    decreases parsed.len() - k,
{
    if k < parsed.len() {
        assert(parsed.take(k + 1).drop_last() =~= parsed.take(k));
        lemma_check_error_stays(file, parsed, k + 1);
    } else {
        assert(parsed.take(k) =~= parsed);
    }
}

/// Validates every edit against the file, in order: the edits with their
/// lines settled and all mismatches, or the message of the first edit that
/// names a line out of range.
pub fn check_batch(file_lines: &[String], parsed: &Vec<ParsedEdit>) -> (r: Result<
    (Vec<ParsedEdit>, Vec<HashMismatch>),
    String,
>)
    ensures
        match r {
            Ok((edits, ms)) => checked_batch(file_lines.deep_view(), parsed_views(parsed@)) == Ok::<
                (Seq<ParsedView>, Seq<MismatchView>),
                Seq<char>,
            >((parsed_views(edits@), mismatches_view(ms@))) && edits@.len() == parsed@.len(),
            Err(m) => checked_batch(file_lines.deep_view(), parsed_views(parsed@)) == Err::<
                (Seq<ParsedView>, Seq<MismatchView>),
                Seq<char>,
            >(m@),
        },
{
    let ghost file = file_lines.deep_view();
    let ghost views = parsed_views(parsed@);
    let hashes = line_hashes(file_lines);
    let mut edits: Vec<ParsedEdit> = Vec::new();
    let mut mismatches: Vec<HashMismatch> = Vec::new();
    let mut i: usize = 0;
    proof {
        assert(views.take(0) =~= Seq::<ParsedView>::empty());
        assert(parsed_views(edits@) =~= Seq::<ParsedView>::empty());
        assert(mismatches_view(mismatches@) =~= Seq::<MismatchView>::empty());
    }
    while i < parsed.len()
        invariant
            i <= parsed.len(),
            file == file_lines.deep_view(),
            views == parsed_views(parsed@),
            hashes.deep_view() == file_hashes(file),
            edits@.len() == i,
            checked_batch(file, views.take(i as int)) == Ok::<
                (Seq<ParsedView>, Seq<MismatchView>),
                Seq<char>,
            >((parsed_views(edits@), mismatches_view(mismatches@))),
        decreases parsed.len() - i,
    {
        proof {
            assert(views.take(i + 1).drop_last() =~= views.take(i as int));
            assert(views.take(i + 1).last() == parsed@[i as int]@);
        }
        match check_edit(file_lines, hashes.as_slice(), &parsed[i]) {
            Err(m) => {
                proof {
                    lemma_check_error_stays(file, views, i + 1);
                }
                return Err(m);
            },
            Ok((edit, more)) => {
                let ghost before = mismatches@;
                proof {
                    lemma_parsed_views_push(edits@, edit);
                }
                edits.push(edit);
                let mut more = more;
                let ghost added = more@;
                mismatches.append(&mut more);
                assert(mismatches_view(mismatches@) =~= mismatches_view(before) + mismatches_view(
                    added,
                ));
            },
        }
        i += 1;
    }
    assert(views.take(parsed@.len() as int) =~= views);
    Ok((edits, mismatches))
}

} // verus!
