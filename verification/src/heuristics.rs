//! Repairs for the habits of model-written replacements: echoed anchors and
//! diff markers, lost indentation, reflowed lines, echoed neighbours,
//! absorbed continuation lines and look-alike hyphens.
//!
//! Each repair is a function from lines to lines with a spec function that
//! says what it returns.

use crate::text::{
    chars_string, clone_lines, clone_range, find, find_text, leading, scan_backward, trailing,
    lemma_deep_view_push, scan_forward, splice_lines, str_chars, str_equal, strip_all_whitespace,
    strip_whitespace, utf8_len, CharClass,
};
use std::collections::HashSet;
use vstd::prelude::*;
use vstd::utf8::encode_utf8;

verus! {

// ---------------------------------------------------------------------------
// Look-alike hyphens
// ---------------------------------------------------------------------------

/// The code points that look like `-`: U+2010 to U+2015, U+2212, U+FE63 and
/// U+FF0D.
pub open spec fn is_confusable_hyphen(c: char) -> bool {
    let v = c as u32;
    ||| 0x2010 <= v <= 0x2015
    ||| v == 0x2212
    ||| v == 0xFE63
    ||| v == 0xFF0D
}

/// `c`, or `-` where `c` looks like one.
pub open spec fn plain_hyphen(c: char) -> char {
    if is_confusable_hyphen(c) {
        '-'
    } else {
        c
    }
}

/// `s` holds a look-alike hyphen.
pub open spec fn confusable(s: Seq<char>) -> bool {
    exists|i: int| 0 <= i < s.len() && is_confusable_hyphen(#[trigger] s[i])
}

/// `s` with every look-alike hyphen replaced by `-`.
pub open spec fn normalize_hyphens(s: Seq<char>) -> Seq<char> {
    Seq::new(s.len(), |i: int| plain_hyphen(s[i]))
}

/// Each line of `lines` with its look-alike hyphens replaced.
pub open spec fn normalize_hyphens_lines(lines: Seq<Seq<char>>) -> Seq<Seq<char>> {
    Seq::new(lines.len(), |i: int| normalize_hyphens(lines[i]))
}

/// One of the lines holds a look-alike hyphen.
pub open spec fn any_confusable(lines: Seq<Seq<char>>) -> bool {
    exists|i: int| 0 <= i < lines.len() && confusable(#[trigger] lines[i])
}

fn char_is_confusable_hyphen(c: char) -> (r: bool)
    ensures
        r == is_confusable_hyphen(c),
{
    let v: u32 = c as u32;
    (0x2010 <= v && v <= 0x2015) || v == 0x2212 || v == 0xFE63 || v == 0xFF0D
}

/// Whether `s` holds a look-alike hyphen.
pub fn has_confusable_hyphens(s: &str) -> (r: bool)
    ensures
        r == confusable(s@),
{
    for c in it: s.chars()
        invariant
            it.seq() == s@,
            forall|j: int| 0 <= j < it.index() ==> !is_confusable_hyphen(#[trigger] s@[j]),
    {
        if char_is_confusable_hyphen(c) {
            assert(is_confusable_hyphen(s@[it.index() as int]));
            return true;
        }
    }
    false
}

/// Replaces every look-alike hyphen of `s` by `-`.
pub fn normalize_confusable_hyphens(s: &str) -> (r: String)
    ensures
        r@ == normalize_hyphens(s@),
{
    let mut r = String::new();
    assert(r@ =~= normalize_hyphens(s@).take(0));
    for c in it: s.chars()
        invariant
            it.seq() == s@,
            r@ == normalize_hyphens(s@).take(it.index() as int),
    {
        let ghost i = it.index() as int;
        if char_is_confusable_hyphen(c) {
            r.push('-');
        } else {
            r.push(c);
        }
        assert(r@ =~= normalize_hyphens(s@).take(i + 1));
    }
    assert(normalize_hyphens(s@).take(s@.len() as int) =~= normalize_hyphens(s@));
    r
}

/// Replaces the look-alike hyphens of every line.
pub fn normalize_confusable_hyphens_in_lines(lines: &[String]) -> (r: Vec<String>)
    ensures
        r.deep_view() == normalize_hyphens_lines(lines.deep_view()),
{
    let ghost want = normalize_hyphens_lines(lines.deep_view());
    let mut r: Vec<String> = Vec::new();
    let mut i: usize = 0;
    assert(r.deep_view() =~= want.take(0));
    while i < lines.len()
        invariant
            i <= lines.len(),
            want == normalize_hyphens_lines(lines.deep_view()),
            r.deep_view() == want.take(i as int),
        decreases lines.len() - i,
    {
        let ghost before = r@;
        let line = normalize_confusable_hyphens(lines[i].as_str());
        r.push(line);
        proof {
            lemma_deep_view_push(before, r@, line);
            assert(want.take(i + 1) =~= want.take(i as int).push(want[i as int]));
        }
        i += 1;
    }
    assert(want.take(lines.len() as int) =~= want);
    r
}

/// Whether one of the lines holds a look-alike hyphen.
pub fn any_confusable_hyphens(lines: &[String]) -> (r: bool)
    ensures
        r == any_confusable(lines.deep_view()),
{
    let mut i: usize = 0;
    while i < lines.len()
        invariant
            i <= lines.len(),
            forall|j: int| 0 <= j < i ==> !confusable(#[trigger] lines.deep_view()[j]),
        decreases lines.len() - i,
    {
        if has_confusable_hyphens(lines[i].as_str()) {
            assert(confusable(lines.deep_view()[i as int]));
            return true;
        }
        i += 1;
    }
    false
}

// ---------------------------------------------------------------------------
// Whitespace-blind comparison and indentation
// ---------------------------------------------------------------------------

/// `a` and `b` hold the same text once whitespace is dropped.
pub open spec fn same_ignoring_whitespace(a: Seq<char>, b: Seq<char>) -> bool {
    strip_whitespace(a) == strip_whitespace(b)
}

/// Whether `a` and `b` are equal once whitespace is dropped.
pub fn equals_ignoring_whitespace(a: &str, b: &str) -> (r: bool)
    ensures
        r == same_ignoring_whitespace(a@, b@),
{
    strip_all_whitespace(a) == strip_all_whitespace(b)
}

/// The whitespace that `s` starts with.
pub open spec fn indent_of(s: Seq<char>) -> Seq<char> {
    s.take(leading(s, CharClass::Whitespace))
}

/// `line` behind the indentation of `template`, where `line` is not empty,
/// has no indentation of its own and `template` has some; else `line`.
pub open spec fn reindent(template: Seq<char>, line: Seq<char>) -> Seq<char> {
    if line.len() == 0 || indent_of(template).len() == 0 || indent_of(line).len() != 0 {
        line
    } else {
        indent_of(template) + line
    }
}

/// The replacement with the indentation of the replaced lines restored line
/// by line, where both have the same number of lines; else the replacement.
pub open spec fn reindent_paired(old_lines: Seq<Seq<char>>, new_lines: Seq<Seq<char>>) -> Seq<
    Seq<char>,
> {
    if old_lines.len() != new_lines.len() {
        new_lines
    } else {
        Seq::new(new_lines.len(), |i: int| reindent(old_lines[i], new_lines[i]))
    }
}

/// The whitespace that `s` starts with.
pub fn leading_whitespace(s: &str) -> (r: String)
    ensures
        r@ == indent_of(s@),
{
    let v = str_chars(s);
    let end = scan_forward(&v, 0, v.len(), CharClass::Whitespace);
    proof {
        assert(v@.subrange(0, v.len() as int) =~= v@);
        assert(v@.subrange(0, end as int) =~= v@.take(end as int));
    }
    chars_string(&v, 0, end)
}

/// Puts the indentation of `template_line` in front of a `line` that lost its
/// own.
pub fn restore_leading_indent(template_line: &str, line: &str) -> (r: String)
    ensures
        r@ == reindent(template_line@, line@),
{
    if line.is_empty() {
        return line.to_owned();
    }
    let mut indent = leading_whitespace(template_line);
    if indent.as_str().is_empty() {
        return line.to_owned();
    }
    let own = leading_whitespace(line);
    if !own.as_str().is_empty() {
        return line.to_owned();
    }
    indent.append(line);
    indent
}

/// Restores the indentation of a replacement that has as many lines as the
/// span it replaces: a line that lost its indentation gets that of the line
/// it is paired with.
pub fn restore_indent_for_paired_replacement(old_lines: &[String], new_lines: &[String]) -> (r:
    Vec<String>)
    ensures
        r.deep_view() == reindent_paired(old_lines.deep_view(), new_lines.deep_view()),
{
    if old_lines.len() != new_lines.len() {
        return clone_lines(new_lines);
    }
    let ghost want = reindent_paired(old_lines.deep_view(), new_lines.deep_view());
    let mut r: Vec<String> = Vec::new();
    let mut i: usize = 0;
    assert(r.deep_view() =~= want.take(0));
    while i < new_lines.len()
        invariant
            i <= new_lines.len(),
            old_lines.len() == new_lines.len(),
            want == reindent_paired(old_lines.deep_view(), new_lines.deep_view()),
            r.deep_view() == want.take(i as int),
        decreases new_lines.len() - i,
    {
        let ghost before = r@;
        let line = restore_leading_indent(old_lines[i].as_str(), new_lines[i].as_str());
        r.push(line);
        proof {
            lemma_deep_view_push(before, r@, line);
            assert(want.take(i + 1) =~= want.take(i as int).push(want[i as int]));
        }
        i += 1;
    }
    assert(want.take(new_lines.len() as int) =~= want);
    r
}

// ---------------------------------------------------------------------------
// Echoed neighbours
// ---------------------------------------------------------------------------

/// The inserted lines without their first line, where that line repeats the
/// anchor line (whitespace aside). Where it is the only line, nothing is
/// left to insert.
pub open spec fn without_anchor_echo(anchor: Seq<char>, dst: Seq<Seq<char>>) -> Seq<Seq<char>> {
    if dst.len() >= 1 && same_ignoring_whitespace(dst[0], anchor) {
        dst.skip(1)
    } else {
        dst
    }
}

/// Drops the first inserted line where it repeats the anchor line, also
/// where it is the only line.
pub fn strip_insert_anchor_echo_after(anchor_line: &str, dst_lines: &[String]) -> (r: Vec<String>)
    ensures
        r.deep_view() == without_anchor_echo(anchor_line@, dst_lines.deep_view()),
{
    if dst_lines.len() >= 1 && equals_ignoring_whitespace(dst_lines[0].as_str(), anchor_line) {
        let r = clone_range(dst_lines, 1, dst_lines.len());
        assert(dst_lines.deep_view().subrange(1, dst_lines.len() as int) =~= dst_lines.deep_view().skip(
            1,
        ));
        r
    } else {
        clone_lines(dst_lines)
    }
}

/// The replacement without an echo of the line before the range.
pub open spec fn without_leading_echo(file: Seq<Seq<char>>, start: int, dst: Seq<Seq<char>>) -> Seq<
    Seq<char>,
> {
    if start >= 2 && same_ignoring_whitespace(dst[0], file[start - 2]) {
        dst.skip(1)
    } else {
        dst
    }
}

/// The replacement without an echo of the line after the range.
pub open spec fn without_trailing_echo(file: Seq<Seq<char>>, end: int, dst: Seq<Seq<char>>) -> Seq<
    Seq<char>,
> {
    if end < file.len() && dst.len() > 0 && same_ignoring_whitespace(dst.last(), file[end]) {
        dst.drop_last()
    } else {
        dst
    }
}

/// The replacement of the lines `start` to `end` without the neighbours of
/// the range that it repeats at its ends; untouched unless it has more than
/// one line and more lines than the range.
pub open spec fn without_boundary_echo(
    file: Seq<Seq<char>>,
    start: int,
    end: int,
    dst: Seq<Seq<char>>,
) -> Seq<Seq<char>> {
    if dst.len() <= 1 || dst.len() <= end - start + 1 {
        dst
    } else {
        without_trailing_echo(file, end, without_leading_echo(file, start, dst))
    }
}

/// Drops from a range replacement the line before the range and the line
/// after it, where the replacement repeats them at its ends. The range must
/// not end before it starts, and the line before it must be a line of the
/// file.
pub fn strip_range_boundary_echo(
    file_lines: &[String],
    start_line: usize,
    end_line: usize,
    dst_lines: &[String],
) -> (r: Vec<String>)
    requires
        start_line <= end_line,
        start_line >= 2 ==> start_line - 2 < file_lines.len(),
    ensures
        r.deep_view() == without_boundary_echo(
            file_lines.deep_view(),
            start_line as int,
            end_line as int,
            dst_lines.deep_view(),
        ),
{
    if dst_lines.len() <= 1 || dst_lines.len() - 1 <= end_line - start_line {
        return clone_lines(dst_lines);
    }
    let ghost dst = dst_lines.deep_view();
    let mut from: usize = 0;
    let mut to: usize = dst_lines.len();
    if start_line >= 2 {
        if equals_ignoring_whitespace(dst_lines[0].as_str(), file_lines[start_line - 2].as_str()) {
            from = 1;
        }
    }
    let ghost mid = without_leading_echo(file_lines.deep_view(), start_line as int, dst);
    assert(mid =~= dst.subrange(from as int, to as int));
    if end_line < file_lines.len() && from < to {
        assert(mid.last() == dst[to - 1]);
        if equals_ignoring_whitespace(dst_lines[to - 1].as_str(), file_lines[end_line].as_str()) {
            to = to - 1;
        }
    }
    assert(without_trailing_echo(file_lines.deep_view(), end_line as int, mid) =~= dst.subrange(
        from as int,
        to as int,
    ));
    clone_range(dst_lines, from, to)
}

// ---------------------------------------------------------------------------
// Echoed anchors and diff markers
// ---------------------------------------------------------------------------

/// Where the display prefix of `s` ends, if `s` starts with one: optional
/// whitespace, optionally `>>` or `>>>`, optional whitespace, a line number,
/// a colon, a hash of 1 to 16 digits or letters, and `|`.
pub open spec fn prefix_end(s: Seq<char>) -> Option<int> {
    let a = leading(s, CharClass::Whitespace);
    let m = leading(s.skip(a), CharClass::Marker);
    let b = a + m + leading(s.skip(a + m), CharClass::Whitespace);
    let c = b + leading(s.skip(b), CharClass::Digit);
    if (m == 0 || m == 2 || m == 3) && b < c < s.len() && s[c] == ':' {
        let e = c + 1 + leading(s.skip(c + 1), CharClass::Alnum);
        if c + 1 < e <= c + 17 && e < s.len() && s[e] == '|' {
            Some(e + 1)
        } else {
            None
        }
    } else {
        None
    }
}

/// `s` starts with `+` and not with `++`.
pub open spec fn has_diff_plus(s: Seq<char>) -> bool {
    s.len() >= 1 && s[0] == '+' && !(s.len() >= 2 && s[1] == '+')
}

/// `s` without its display prefix.
pub open spec fn without_prefix(s: Seq<char>) -> Seq<char> {
    match prefix_end(s) {
        Some(e) => s.skip(e),
        None => s,
    }
}

/// `s` without its diff marker.
pub open spec fn without_plus(s: Seq<char>) -> Seq<char> {
    if has_diff_plus(s) {
        s.skip(1)
    } else {
        s
    }
}

/// The three kinds of line that the prefix rule counts.
#[derive(Clone, Copy, Debug)]
pub enum LineKind {
    /// A line that is not empty.
    NonEmpty,
    /// A line that starts with a display prefix.
    Anchored,
    /// A line that starts with a diff marker.
    Plus,
}

impl LineKind {
    /// Whether `line` is of this kind.
    pub open spec fn holds(self, line: Seq<char>) -> bool {
        match self {
            LineKind::NonEmpty => line.len() > 0,
            LineKind::Anchored => prefix_end(line) is Some,
            LineKind::Plus => has_diff_plus(line),
        }
    }
}

/// How many of `lines` are of kind `kind`.
pub open spec fn count_kind(lines: Seq<Seq<char>>, kind: LineKind) -> nat
    decreases lines.len(),
{
    if lines.len() == 0 {
        0
    } else {
        count_kind(lines.drop_last(), kind) + if kind.holds(lines.last()) {
            1nat
        } else {
            0nat
        }
    }
}

/// At least one line is of kind `kind`, and at least half of the non-empty
/// lines are.
pub open spec fn at_least_half(lines: Seq<Seq<char>>, kind: LineKind) -> bool {
    count_kind(lines, kind) > 0 && count_kind(lines, kind) * 2 >= count_kind(
        lines,
        LineKind::NonEmpty,
    )
}

/// The replacement without echoed display prefixes, where at least half of
/// its non-empty lines have one; else without diff markers, where at least
/// half have one; else as it is.
pub open spec fn without_line_prefixes(lines: Seq<Seq<char>>) -> Seq<Seq<char>> {
    if at_least_half(lines, LineKind::Anchored) {
        Seq::new(lines.len(), |i: int| without_prefix(lines[i]))
    } else if at_least_half(lines, LineKind::Plus) {
        Seq::new(lines.len(), |i: int| without_plus(lines[i]))
    } else {
        lines
    }
}

/// No more lines are of a kind than there are lines.
pub proof fn lemma_count_kind_bound(lines: Seq<Seq<char>>, kind: LineKind)
    ensures
        count_kind(lines, kind) <= lines.len(),
    decreases lines.len(),
{
    if lines.len() > 0 {
        lemma_count_kind_bound(lines.drop_last(), kind);
    }
}

/// Where the display prefix of `v` ends, if `v` starts with one.
fn anchor_prefix_end(v: &Vec<char>) -> (r: Option<usize>)
    ensures
        match r {
            Some(e) => e <= v.len() && prefix_end(v@) == Some(e as int),
            None => prefix_end(v@) is None,
        },
{
    let n = v.len();
    let a = scan_forward(v, 0, n, CharClass::Whitespace);
    let am = scan_forward(v, a, n, CharClass::Marker);
    let b = scan_forward(v, am, n, CharClass::Whitespace);
    let c = scan_forward(v, b, n, CharClass::Digit);
    proof {
        assert(v@.subrange(0, n as int) =~= v@);
        assert(v@.subrange(a as int, n as int) =~= v@.skip(a as int));
        assert(v@.subrange(am as int, n as int) =~= v@.skip(am as int));
        assert(v@.subrange(b as int, n as int) =~= v@.skip(b as int));
    }
    let m = am - a;
    if !(m == 0 || m == 2 || m == 3) || !(b < c) || c >= n || v[c] != ':' {
        return None;
    }
    let e = scan_forward(v, c + 1, n, CharClass::Alnum);
    proof {
        assert(v@.subrange(c + 1, n as int) =~= v@.skip(c + 1));
    }
    if c + 1 < e && e - c <= 17 && e < n && v[e] == '|' {
        Some(e + 1)
    } else {
        None
    }
}

/// Whether `s` starts with the diff marker `+` (and not with `++`).
pub fn has_diff_plus_prefix(s: &str) -> (r: bool)
    ensures
        r == has_diff_plus(s@),
{
    let v = str_chars(s);
    v.len() >= 1 && v[0] == '+' && !(v.len() >= 2 && v[1] == '+')
}

/// `s` without its diff marker.
pub fn strip_diff_plus(s: &str) -> (r: String)
    ensures
        r@ == without_plus(s@),
{
    let v = str_chars(s);
    if v.len() >= 1 && v[0] == '+' && !(v.len() >= 2 && v[1] == '+') {
        let r = chars_string(&v, 1, v.len());
        assert(v@.subrange(1, v.len() as int) =~= v@.skip(1));
        r
    } else {
        s.to_owned()
    }
}

/// `s` without its display prefix.
fn strip_anchor_prefix(s: &str) -> (r: String)
    ensures
        r@ == without_prefix(s@),
{
    let v = str_chars(s);
    match anchor_prefix_end(&v) {
        Some(e) => {
            let r = chars_string(&v, e, v.len());
            assert(v@.subrange(e as int, v.len() as int) =~= v@.skip(e as int));
            r
        },
        None => s.to_owned(),
    }
}

/// How many of `lines` are not empty, start with a display prefix, and start
/// with a diff marker.
fn count_kinds(lines: &[String]) -> (r: (usize, usize, usize))
    ensures
        r.0 == count_kind(lines.deep_view(), LineKind::NonEmpty),
        r.1 == count_kind(lines.deep_view(), LineKind::Anchored),
        r.2 == count_kind(lines.deep_view(), LineKind::Plus),
{
    let ghost all = lines.deep_view();
    let mut non_empty: usize = 0;
    let mut anchored: usize = 0;
    let mut plus: usize = 0;
    let mut i: usize = 0;
    assert(all.take(0) =~= Seq::<Seq<char>>::empty());
    while i < lines.len()
        invariant
            i <= lines.len(),
            all == lines.deep_view(),
            non_empty == count_kind(all.take(i as int), LineKind::NonEmpty),
            anchored == count_kind(all.take(i as int), LineKind::Anchored),
            plus == count_kind(all.take(i as int), LineKind::Plus),
        decreases lines.len() - i,
    {
        proof {
            let next = all.take(i + 1);
            assert(next.drop_last() =~= all.take(i as int));
            assert(next.last() == lines@[i as int]@);
            lemma_count_kind_bound(all.take(i as int), LineKind::NonEmpty);
            lemma_count_kind_bound(all.take(i as int), LineKind::Anchored);
            lemma_count_kind_bound(all.take(i as int), LineKind::Plus);
        }
        let v = str_chars(lines[i].as_str());
        if v.len() > 0 {
            non_empty += 1;
        }
        if anchor_prefix_end(&v).is_some() {
            anchored += 1;
        }
        if v.len() >= 1 && v[0] == '+' && !(v.len() >= 2 && v[1] == '+') {
            plus += 1;
        }
        i += 1;
    }
    assert(all.take(lines.len() as int) =~= all);
    (non_empty, anchored, plus)
}

/// Strips what a model echoed in front of its replacement lines: display
/// prefixes (`LINE:HASH|`) where at least half of the non-empty lines start
/// with one, else diff markers (`+`) where at least half start with one.
pub fn strip_new_line_prefixes(lines: &[String]) -> (r: Vec<String>)
    ensures
        r.deep_view() == without_line_prefixes(lines.deep_view()),
{
    let (non_empty, anchored, plus) = count_kinds(lines);
    proof {
        lemma_count_kind_bound(lines.deep_view(), LineKind::NonEmpty);
        lemma_count_kind_bound(lines.deep_view(), LineKind::Anchored);
        lemma_count_kind_bound(lines.deep_view(), LineKind::Plus);
    }
    let strip_hash = anchored > 0 && (anchored as u128) * 2 >= (non_empty as u128);
    let strip_plus = !strip_hash && plus > 0 && (plus as u128) * 2 >= (non_empty as u128);
    if !strip_hash && !strip_plus {
        return clone_lines(lines);
    }
    let ghost want = without_line_prefixes(lines.deep_view());
    let mut r: Vec<String> = Vec::new();
    let mut i: usize = 0;
    assert(r.deep_view() =~= want.take(0));
    while i < lines.len()
        invariant
            i <= lines.len(),
            want == without_line_prefixes(lines.deep_view()),
            want.len() == lines.len(),
            strip_hash == at_least_half(lines.deep_view(), LineKind::Anchored),
            strip_plus == (!strip_hash && at_least_half(lines.deep_view(), LineKind::Plus)),
            strip_hash || strip_plus,
            r.deep_view() == want.take(i as int),
        decreases lines.len() - i,
    {
        let ghost before = r@;
        let line = if strip_hash {
            strip_anchor_prefix(lines[i].as_str())
        } else {
            strip_diff_plus(lines[i].as_str())
        };
        r.push(line);
        proof {
            lemma_deep_view_push(before, r@, line);
            assert(want.take(i + 1) =~= want.take(i as int).push(want[i as int]));
        }
        i += 1;
    }
    assert(want.take(lines.len() as int) =~= want);
    r
}

// ---------------------------------------------------------------------------
// Reflowed lines
// ---------------------------------------------------------------------------

/// The lines of `lines` one after the other, with nothing between them.
pub open spec fn concat_lines(lines: Seq<Seq<char>>) -> Seq<char>
    decreases lines.len(),
{
    if lines.len() == 0 {
        Seq::empty()
    } else {
        concat_lines(lines.drop_last()) + lines.last()
    }
}

/// A span of `len` lines from `start` lies within `new_lines` and has 2 to 10
/// lines.
pub open spec fn span_fits(new_lines: Seq<Seq<char>>, start: int, len: int) -> bool {
    0 <= start && 2 <= len <= 10 && start + len <= new_lines.len()
}

/// The text of a span with its lines run together and whitespace dropped.
pub open spec fn span_canon(new_lines: Seq<Seq<char>>, start: int, len: int) -> Seq<char> {
    strip_whitespace(concat_lines(new_lines.subrange(start, start + len)))
}

/// How many of `old_lines` have the whitespace-stripped text `canon`.
pub open spec fn canon_count(old_lines: Seq<Seq<char>>, canon: Seq<char>) -> nat
    decreases old_lines.len(),
{
    if old_lines.len() == 0 {
        0
    } else {
        canon_count(old_lines.drop_last(), canon) + if strip_whitespace(old_lines.last()) == canon {
            1nat
        } else {
            0nat
        }
    }
}

/// The first of `old_lines` with the whitespace-stripped text `canon`.
pub open spec fn first_with_canon(old_lines: Seq<Seq<char>>, canon: Seq<char>) -> Seq<char>
    decreases old_lines.len(),
{
    if old_lines.len() == 0 {
        Seq::empty()
    } else if strip_whitespace(old_lines[0]) == canon {
        old_lines[0]
    } else {
        first_with_canon(old_lines.skip(1), canon)
    }
}

/// A text is worth restoring where exactly one original line has it and it
/// takes at least 6 bytes.
pub open spec fn restorable(old_lines: Seq<Seq<char>>, canon: Seq<char>) -> bool {
    canon_count(old_lines, canon) == 1 && encode_utf8(canon).len() >= 6
}

/// How many spans that start at `start` and have fewer than `upto` lines run
/// together to `canon`.
pub open spec fn spans_at(new_lines: Seq<Seq<char>>, canon: Seq<char>, start: int, upto: int) -> nat
    decreases upto,
{
    if upto <= 2 {
        0
    } else {
        spans_at(new_lines, canon, start, upto - 1) + if span_fits(new_lines, start, upto - 1)
            && span_canon(new_lines, start, upto - 1) == canon {
            1nat
        } else {
            0nat
        }
    }
}

/// How many spans that start before `upto` run together to `canon`.
pub open spec fn spans_before(new_lines: Seq<Seq<char>>, canon: Seq<char>, upto: int) -> nat
    decreases upto,
{
    if upto <= 0 {
        0
    } else {
        spans_before(new_lines, canon, upto - 1) + spans_at(new_lines, canon, upto - 1, 11)
    }
}

/// The span is a reflowed original line: it fits, its text is worth
/// restoring, and no other span of the replacement runs together to the same
/// text.
pub open spec fn is_reflow(
    old_lines: Seq<Seq<char>>,
    new_lines: Seq<Seq<char>>,
    start: int,
    len: int,
) -> bool {
    &&& span_fits(new_lines, start, len)
    &&& restorable(old_lines, span_canon(new_lines, start, len))
    &&& spans_before(new_lines, span_canon(new_lines, start, len), new_lines.len() as int) == 1
}

/// `out` with the span collapsed to the original line, where the span is a
/// reflow and still lies within `out`; else `out`.
pub open spec fn collapse_span(
    old_lines: Seq<Seq<char>>,
    new_lines: Seq<Seq<char>>,
    out: Seq<Seq<char>>,
    start: int,
    len: int,
) -> Seq<Seq<char>> {
    if is_reflow(old_lines, new_lines, start, len) && start + len <= out.len() {
        out.take(start).push(first_with_canon(old_lines, span_canon(new_lines, start, len)))
            + out.skip(start + len)
    } else {
        out
    }
}

/// `out` after the spans from (`start`, `len`) on are collapsed in turn: back
/// to front by start, and shorter spans first where the start is the same.
pub open spec fn collapse_from(
    old_lines: Seq<Seq<char>>,
    new_lines: Seq<Seq<char>>,
    out: Seq<Seq<char>>,
    start: int,
    len: int,
) -> Seq<Seq<char>>
    decreases start + 1, 11 - len,
{
    if start < 0 {
        out
    } else if len > 10 {
        collapse_from(old_lines, new_lines, out, start - 1, 2)
    } else {
        collapse_from(
            old_lines,
            new_lines,
            collapse_span(old_lines, new_lines, out, start, len),
            start,
            len + 1,
        )
    }
}

/// The replacement with its reflowed spans collapsed back to the original
/// lines.
pub open spec fn unwrapped(old_lines: Seq<Seq<char>>, new_lines: Seq<Seq<char>>) -> Seq<Seq<char>> {
    if old_lines.len() == 0 || new_lines.len() < 2 {
        new_lines
    } else {
        collapse_from(old_lines, new_lines, new_lines, new_lines.len() - 1, 2)
    }
}

/// The text of the span `lines[start..start + len]`, run together and
/// stripped.
fn span_text(lines: &[String], start: usize, len: usize) -> (r: String)
    requires
        start + len <= lines.len(),
    ensures
        r@ == span_canon(lines.deep_view(), start as int, len as int),
{
    let ghost all = lines.deep_view();
    let mut joined = String::new();
    let mut i: usize = start;
    assert(all.subrange(start as int, i as int) =~= Seq::<Seq<char>>::empty());
    while i < start + len
        invariant
            start <= i <= start + len <= lines.len(),
            all == lines.deep_view(),
            joined@ == concat_lines(all.subrange(start as int, i as int)),
        decreases start + len - i,
    {
        proof {
            let next = all.subrange(start as int, i + 1);
            assert(next.drop_last() =~= all.subrange(start as int, i as int));
            assert(next.last() == lines@[i as int]@);
        }
        joined.append(lines[i].as_str());
        i += 1;
    }
    strip_all_whitespace(joined.as_str())
}

/// How many of `old_lines` have the stripped text `canon`, and the first of
/// them.
fn lookup_canon(old_lines: &[String], canon: &str) -> (r: (usize, usize))
    ensures
        r.0 == canon_count(old_lines.deep_view(), canon@),
        r.0 > 0 ==> r.1 < old_lines.len() && old_lines@[r.1 as int]@ == first_with_canon(
            old_lines.deep_view(),
            canon@,
        ),
{
    let ghost all = old_lines.deep_view();
    let mut count: usize = 0;
    let mut first: usize = 0;
    let mut i: usize = 0;
    assert(all.take(0) =~= Seq::<Seq<char>>::empty());
    assert(all.skip(0) =~= all);
    while i < old_lines.len()
        invariant
            i <= old_lines.len(),
            all == old_lines.deep_view(),
            count == canon_count(all.take(i as int), canon@),
            count <= i,
            count == 0 ==> first_with_canon(all, canon@) == first_with_canon(
                all.skip(i as int),
                canon@,
            ),
            count > 0 ==> first < old_lines.len() && old_lines@[first as int]@ == first_with_canon(
                all,
                canon@,
            ),
        decreases old_lines.len() - i,
    {
        proof {
            let next = all.take(i + 1);
            assert(next.drop_last() =~= all.take(i as int));
            assert(next.last() == old_lines@[i as int]@);
            assert(all.skip(i as int)[0] == old_lines@[i as int]@);
            assert(all.skip(i as int).skip(1) =~= all.skip(i + 1));
        }
        let stripped = strip_all_whitespace(old_lines[i].as_str());
        if str_equal(stripped.as_str(), canon) {
            if count == 0 {
                first = i;
            }
            count += 1;
        }
        i += 1;
    }
    assert(all.take(old_lines.len() as int) =~= all);
    (count, first)
}

/// Whether exactly one span of `new_lines` runs together to `canon`.
fn span_is_unique(new_lines: &[String], canon: &str) -> (r: bool)
    ensures
        r == (spans_before(new_lines.deep_view(), canon@, new_lines.len() as int) == 1),
{
    let ghost all = new_lines.deep_view();
    let n = new_lines.len();
    let mut count: usize = 0;
    let mut start: usize = 0;
    while start < n
        invariant
            start <= n,
            n == new_lines.len(),
            all == new_lines.deep_view(),
            count <= 2,
            count < 2 ==> count == spans_before(all, canon@, start as int),
            count == 2 ==> spans_before(all, canon@, start as int) >= 2,
        decreases n - start,
    {
        let mut len: usize = 2;
        let ghost base = spans_before(all, canon@, start as int);
        while len <= 10
            invariant
                2 <= len <= 11,
                start < n,
                n == new_lines.len(),
                all == new_lines.deep_view(),
                base == spans_before(all, canon@, start as int),
                count <= 2,
                count < 2 ==> count == base + spans_at(all, canon@, start as int, len as int),
                count == 2 ==> base + spans_at(all, canon@, start as int, len as int) >= 2,
            decreases 11 - len,
        {
            if len <= n - start {
                let text = span_text(new_lines, start, len);
                if str_equal(text.as_str(), canon) {
                    if count < 2 {
                        count += 1;
                    }
                }
            }
            len += 1;
        }
        start += 1;
    }
    count == 1
}

/// Undoes reflows: where 2 to 10 neighbouring lines of the replacement run
/// together, whitespace aside, to the text of exactly one original line, no
/// other span of the replacement does the same, and the text takes at least
/// 6 bytes, the span collapses back to that original line. Spans are taken
/// back to front; one that no longer lies within what is left is passed
/// over.
pub fn restore_old_wrapped_lines(old_lines: &[String], new_lines: &[String]) -> (r: Vec<String>)
    ensures
        r.deep_view() == unwrapped(old_lines.deep_view(), new_lines.deep_view()),
{
    if old_lines.len() == 0 || new_lines.len() < 2 {
        return clone_lines(new_lines);
    }
    let ghost old_view = old_lines.deep_view();
    let ghost new_view = new_lines.deep_view();
    let n = new_lines.len();
    let mut out = clone_lines(new_lines);
    let mut start: usize = n;
    while start > 0
        invariant
            start <= n,
            n == new_lines.len(),
            old_view == old_lines.deep_view(),
            new_view == new_lines.deep_view(),
            unwrapped(old_view, new_view) == collapse_from(
                old_view,
                new_view,
                out.deep_view(),
                start - 1,
                2,
            ),
        decreases start,
    {
        start -= 1;
        let mut len: usize = 2;
        while len <= 10
            invariant
                2 <= len <= 11,
                start < n,
                n == new_lines.len(),
                old_view == old_lines.deep_view(),
                new_view == new_lines.deep_view(),
                unwrapped(old_view, new_view) == collapse_from(
                    old_view,
                    new_view,
                    out.deep_view(),
                    start as int,
                    len as int,
                ),
            decreases 11 - len,
        {
            let ghost before = out.deep_view();
            let ghost fits = span_fits(new_view, start as int, len as int);
            let ghost canon = span_canon(new_view, start as int, len as int);
            assert(fits == (len <= n - start));
            if len <= n - start {
                let text = span_text(new_lines, start, len);
                assert(text@ == canon);
                let long = utf8_len(text.as_str()) >= 6;
                assert(long == (encode_utf8(canon).len() >= 6));
                if long {
                    let (count, first) = lookup_canon(old_lines, text.as_str());
                    if count == 1 {
                        let unique = span_is_unique(new_lines, text.as_str());
                        assert((unique && count == 1) == is_reflow(
                            old_view,
                            new_view,
                            start as int,
                            len as int,
                        ));
                        if unique && len <= out.len() && start <= out.len() - len {
                            let line = old_lines[first].clone();
                            let one: Vec<String> = vec![line];
                            assert(one.deep_view() =~= seq![line@]);
                            out = splice_lines(out.as_slice(), start, start + len, one.as_slice());
                            assert(out.deep_view() =~= before.take(start as int).push(line@)
                                + before.skip(start + len));
                        }
                    }
                }
            }
            assert(out.deep_view() == collapse_span(
                old_view,
                new_view,
                before,
                start as int,
                len as int,
            ));
            len += 1;
        }
    }
    out
}

// ---------------------------------------------------------------------------
// Absorbed continuation lines
// ---------------------------------------------------------------------------

/// The one-character continuation tokens: `?`, `:`, `=`, `,`, `+`, `-`, `*`,
/// `/`, `.` and `(`.
pub open spec fn is_continuation_char(c: char) -> bool {
    c == '?' || c == ':' || c == '=' || c == ',' || c == '+' || c == '-' || c == '*' || c == '/'
        || c == '.' || c == '('
}

/// The length of the continuation token that `s` ends with (`&&`, `||` and
/// `??` count 2), or 0 where it ends with none.
pub open spec fn continuation_len(s: Seq<char>) -> int {
    if s.len() >= 2 && s[s.len() - 1] == s[s.len() - 2] && (s.last() == '&' || s.last() == '|'
        || s.last() == '?') {
        2
    } else if s.len() >= 1 && is_continuation_char(s.last()) {
        1
    } else {
        0
    }
}

/// `s` without the continuation token and the whitespace that it ends with;
/// `s` itself where there is no such token before the trailing whitespace.
pub open spec fn without_continuation(s: Seq<char>) -> Seq<char> {
    let core = s.take(s.len() - trailing(s, CharClass::Whitespace));
    if continuation_len(core) == 0 {
        s
    } else {
        core.take(core.len() - continuation_len(core))
    }
}

/// The predicate "is none of `|`, `&`, `?`", as a value.
pub open spec fn not_merge_operator() -> spec_fn(char) -> bool {
    |c: char| !(c == '|' || c == '&' || c == '?')
}

/// `s` without the characters `|`, `&` and `?`.
pub open spec fn without_merge_operators(s: Seq<char>) -> Seq<char> {
    s.filter(not_merge_operator())
}

/// Both `first` and `second` stand in `hay`, and the first occurrence of
/// `first` starts before the first occurrence of `second`.
pub open spec fn in_order(hay: Seq<char>, first: Seq<char>, second: Seq<char>) -> bool {
    match (find(hay, first), find(hay, second)) {
        (Some(a), Some(b)) => a < b,
        _ => false,
    }
}

/// The replacement line took in the line after `orig`: `orig` ends with a
/// continuation token, the replacement holds `orig` without that token and
/// then `next` (whitespace aside), and is at most 32 bytes longer than both.
pub open spec fn absorbs_next(new_line: Seq<char>, orig: Seq<char>, next: Seq<char>) -> bool {
    let nc = strip_whitespace(new_line);
    let oc = strip_whitespace(orig);
    let xc = strip_whitespace(next);
    &&& without_continuation(oc).len() < oc.len()
    &&& in_order(nc, without_continuation(oc), xc)
    &&& encode_utf8(nc).len() <= encode_utf8(oc).len() + encode_utf8(xc).len() + 32
}

/// The replacement line took in the line before `orig`: `prev` ends with a
/// continuation token, the replacement holds `prev` without that token and
/// then `orig` (whitespace and the characters `|`, `&`, `?` aside), and is at
/// most 32 bytes longer than both.
pub open spec fn absorbs_prev(new_line: Seq<char>, prev: Seq<char>, orig: Seq<char>) -> bool {
    let nc = strip_whitespace(new_line);
    let pc = strip_whitespace(prev);
    let oc = strip_whitespace(orig);
    &&& without_continuation(pc).len() < pc.len()
    &&& in_order(
        without_merge_operators(nc),
        without_merge_operators(without_continuation(pc)),
        without_merge_operators(oc),
    )
    &&& encode_utf8(nc).len() <= encode_utf8(pc).len() + encode_utf8(oc).len() + 32
}

/// The first line of the two-line span that a one-line replacement of line
/// `line` stands for, where it took in a neighbour that no edit of the batch
/// names: `line` itself where it took in the next line, `line - 1` where it
/// took in the previous one.
pub open spec fn merge_start(
    line: int,
    dst: Seq<Seq<char>>,
    file: Seq<Seq<char>>,
    touched: Set<usize>,
) -> Option<int> {
    if dst.len() != 1 || line < 1 || line > file.len() {
        None
    } else if strip_whitespace(dst[0]).len() == 0 || strip_whitespace(file[line - 1]).len() == 0 {
        None
    } else if line < file.len() && !touched.contains((line + 1) as usize) && absorbs_next(
        dst[0],
        file[line - 1],
        file[line],
    ) {
        Some(line)
    } else if line >= 2 && !touched.contains((line - 1) as usize) && absorbs_prev(
        dst[0],
        file[line - 2],
        file[line - 1],
    ) {
        Some(line - 1)
    } else {
        None
    }
}

fn char_is_continuation(c: char) -> (r: bool)
    ensures
        r == is_continuation_char(c),
{
    c == '?' || c == ':' || c == '=' || c == ',' || c == '+' || c == '-' || c == '*' || c == '/'
        || c == '.' || c == '('
}

/// Drops the continuation token, and the whitespace behind it, that `s` ends
/// with.
pub fn strip_trailing_continuation_tokens(s: &str) -> (r: String)
    ensures
        r@ == without_continuation(s@),
{
    let v = str_chars(s);
    let n = v.len();
    let end = scan_backward(&v, 0, n, CharClass::Whitespace);
    proof {
        assert(v@.subrange(0, n as int) =~= v@);
    }
    let ghost core = v@.take(end as int);
    let t: usize = if end >= 2 && v[end - 1] == v[end - 2] && (v[end - 1] == '&' || v[end - 1]
        == '|' || v[end - 1] == '?') {
        2
    } else if end >= 1 && char_is_continuation(v[end - 1]) {
        1
    } else {
        0
    };
    assert(t == continuation_len(core));
    if t == 0 {
        s.to_owned()
    } else {
        let r = chars_string(&v, 0, end - t);
        assert(v@.subrange(0, end - t) =~= core.take(core.len() - t));
        r
    }
}

/// Drops the characters `|`, `&` and `?`.
pub fn strip_merge_operator_chars(s: &str) -> (r: String)
    ensures
        r@ == without_merge_operators(s@),
{
    let mut r = String::new();
    proof {
        reveal(Seq::filter);
        assert(s@.take(0) =~= Seq::<char>::empty());
        assert(Seq::<char>::empty().filter(not_merge_operator()) =~= Seq::<char>::empty());
    }
    for c in it: s.chars()
        invariant
            it.seq() == s@,
            r@ == without_merge_operators(s@.take(it.index() as int)),
    {
        proof {
            let i = it.index() as int;
            assert(s@.take(i + 1) =~= s@.take(i).push(c));
            Seq::lemma_filter_push(s@.take(i), c, not_merge_operator());
        }
        if !(c == '|' || c == '&' || c == '?') {
            r.push(c);
        }
    }
    proof {
        assert(s@.take(s@.len() as int) =~= s@);
    }
    r
}

/// Whether both texts stand in `hay`, `first` before `second`.
fn found_in_order(hay: &str, first: &str, second: &str) -> (r: bool)
    ensures
        r == in_order(hay@, first@, second@),
{
    match find_text(hay, first) {
        None => false,
        Some(a) => match find_text(hay, second) {
            None => false,
            Some(b) => a < b,
        },
    }
}

/// Whether the replacement line took in the line after `orig`.
fn took_next(new_line: &str, orig: &str, next: &str) -> (r: bool)
    ensures
        r == absorbs_next(new_line@, orig@, next@),
{
    let nc = strip_all_whitespace(new_line);
    let oc = strip_all_whitespace(orig);
    let xc = strip_all_whitespace(next);
    let om = strip_trailing_continuation_tokens(oc.as_str());
    let continued = om.as_str().unicode_len() < oc.as_str().unicode_len();
    continued && found_in_order(nc.as_str(), om.as_str(), xc.as_str()) && (utf8_len(
        nc.as_str(),
    ) as u128) <= (utf8_len(oc.as_str()) as u128) + (utf8_len(xc.as_str()) as u128) + 32
}

/// Whether the replacement line took in the line before `orig`.
fn took_prev(new_line: &str, prev: &str, orig: &str) -> (r: bool)
    ensures
        r == absorbs_prev(new_line@, prev@, orig@),
{
    let nc = strip_all_whitespace(new_line);
    let pc = strip_all_whitespace(prev);
    let oc = strip_all_whitespace(orig);
    let pm = strip_trailing_continuation_tokens(pc.as_str());
    let continued = pm.as_str().unicode_len() < pc.as_str().unicode_len();
    if !continued {
        return false;
    }
    let hay = strip_merge_operator_chars(nc.as_str());
    let first = strip_merge_operator_chars(pm.as_str());
    let second = strip_merge_operator_chars(oc.as_str());
    found_in_order(hay.as_str(), first.as_str(), second.as_str()) && (utf8_len(nc.as_str()) as u128)
        <= (utf8_len(pc.as_str()) as u128) + (utf8_len(oc.as_str()) as u128) + 32
}

/// Detects a one-line replacement that took in a neighbouring line: the line
/// after it, where the target ends with a continuation token, or the line
/// before it, where that line does. The neighbour must not be named by any
/// edit of the batch. The result is the first line of the two-line span to
/// replace, the number 2, and the replacement.
pub fn maybe_expand_single_line_merge(
    line: usize,
    dst: &[String],
    file_lines: &[String],
    explicitly_touched_lines: &HashSet<usize>,
) -> (r: Option<(usize, usize, Vec<String>)>)
    ensures
        match r {
            Some((start, count, lines)) => merge_start(
                line as int,
                dst.deep_view(),
                file_lines.deep_view(),
                explicitly_touched_lines@,
            ) == Some(start as int) && count == 2 && lines.deep_view() == dst.deep_view(),
            None => merge_start(
                line as int,
                dst.deep_view(),
                file_lines.deep_view(),
                explicitly_touched_lines@,
            ) is None,
        },
{
    broadcast use vstd::std_specs::hash::group_hash_axioms;

    if dst.len() != 1 {
        return None;
    }
    if line < 1 || line > file_lines.len() {
        return None;
    }
    let new_line = dst[0].as_str();
    let orig = file_lines[line - 1].as_str();
    if strip_all_whitespace(new_line).as_str().unicode_len() == 0 || strip_all_whitespace(
        orig,
    ).as_str().unicode_len() == 0 {
        return None;
    }
    if line < file_lines.len() {
        let after: usize = line + 1;
        if !explicitly_touched_lines.contains(&after) && took_next(
            new_line,
            orig,
            file_lines[line].as_str(),
        ) {
            return Some((line, 2, clone_lines(dst)));
        }
    }
    if line >= 2 {
        let before: usize = line - 1;
        if !explicitly_touched_lines.contains(&before) && took_prev(
            new_line,
            file_lines[line - 2].as_str(),
            orig,
        ) {
            return Some((line - 1, 2, clone_lines(dst)));
        }
    }
    None
}

} // verus!
