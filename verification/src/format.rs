//! The display form of a text: every line behind its `LINE:HASH` anchor.

use crate::hash::{compute_line_hash, is_lower_hex, lemma_line_hash_shape, line_hash};
use crate::text::{
    decimal, is_digit, join, join_text, lemma_decimal, lemma_deep_view_push,
    lemma_first_index_unique, lemma_split_join, lemma_split_shape, first_index, push_decimal, split,
    split_text,
};
use crate::parse::{
    clean_anchor, cut_suffix, double_space_at, first_double_space, lemma_collapse_plain,
    lemma_first_double_space, lemma_plain_match, parsed_anchor, strip_markers,
};
use crate::text::{
    is_alnum, is_whitespace, lemma_leading_unique, lemma_trailing, trailing, CharClass,
};
use vstd::prelude::*;

verus! {

/// The anchor of line number `num` with content `line`: `LINE:HASH`.
pub open spec fn anchor_text(num: nat, line: Seq<char>) -> Seq<char> {
    decimal(num) + seq![':'] + line_hash(line)
}

/// The display form of one line: `LINE:HASH|CONTENT`.
pub open spec fn display_line(num: nat, line: Seq<char>) -> Seq<char> {
    anchor_text(num, line) + seq!['|'] + line
}

/// The display forms of `lines`, numbered from `start`.
pub open spec fn display_lines(lines: Seq<Seq<char>>, start: nat) -> Seq<Seq<char>> {
    Seq::new(lines.len(), |i: int| display_line((start + i) as nat, lines[i]))
}

/// The anchors of `lines`, numbered from `start`.
pub open spec fn anchor_lines(lines: Seq<Seq<char>>, start: nat) -> Seq<Seq<char>> {
    Seq::new(lines.len(), |i: int| anchor_text((start + i) as nat, lines[i]))
}

/// The display form of a whole text.
pub open spec fn formatted(content: Seq<char>, start: nat) -> Seq<char> {
    join(display_lines(split(content, '\n'), start), '\n')
}

/// The anchors of a whole text, one per line, numbered from 1.
pub open spec fn hashes_only(content: Seq<char>) -> Seq<char> {
    join(anchor_lines(split(content, '\n'), 1), '\n')
}

/// An anchor holds no line feed, no `|`, and its first colon ends the number.
pub proof fn lemma_anchor_text_shape(num: nat, line: Seq<char>)
    ensures
        anchor_text(num, line).len() == decimal(num).len() + 3,
        forall|i: int|
            0 <= i < anchor_text(num, line).len() ==> #[trigger] anchor_text(num, line)[i] != '\n'
                && anchor_text(num, line)[i] != '|',
        first_index(anchor_text(num, line), ':') == decimal(num).len(),
{
    let a = anchor_text(num, line);
    let d = decimal(num);
    lemma_decimal(num);
    lemma_line_hash_shape(line);
    let h = line_hash(line);
    assert forall|i: int| 0 <= i < a.len() implies #[trigger] a[i] != '\n' && a[i] != '|' by {
        if i < d.len() {
            assert(is_digit(d[i]));
        } else if i > d.len() {
            assert(a[i] == h[i - d.len() - 1]);
            assert(is_lower_hex(h[0]) && is_lower_hex(h[1]));
        }
    }
    assert forall|i: int| 0 <= i < d.len() implies a[i] != ':' by {
        assert(is_digit(d[i]));
    }
    lemma_first_index_unique(a, ':', d.len() as int);
}

/// In a display line the first `|` ends the anchor: what stands before it is
/// the number, a colon and the hash of what stands after it.
pub proof fn lemma_display_line_parts(num: nat, line: Seq<char>)
    ensures
        first_index(display_line(num, line), '|') == decimal(num).len() + 3,
        first_index(display_line(num, line), ':') == decimal(num).len(),
        display_line(num, line).take(decimal(num).len() as int) == decimal(num),
        display_line(num, line).subrange(
            decimal(num).len() as int + 1,
            decimal(num).len() as int + 3,
        )
            == line_hash(line),
        display_line(num, line).skip(decimal(num).len() as int + 4) == line,
{
    let a = anchor_text(num, line);
    let s = display_line(num, line);
    let d = decimal(num);
    lemma_anchor_text_shape(num, line);
    lemma_line_hash_shape(line);
    lemma_decimal(num);
    assert forall|i: int| 0 <= i < a.len() implies s[i] != '|' by {
        assert(s[i] == a[i]);
    }
    lemma_first_index_unique(s, '|', a.len() as int);
    assert forall|i: int| 0 <= i < d.len() implies s[i] != ':' by {
        assert(is_digit(d[i]));
    }
    lemma_first_index_unique(s, ':', d.len() as int);
    assert(s.take(d.len() as int) =~= d);
    assert(s.subrange(d.len() as int + 1, d.len() as int + 3) =~= line_hash(line));
    assert(s.skip(d.len() as int + 4) =~= line);
}

/// Formatting keeps the number of lines: splitting the display form of a
/// text gives the display form of each of its lines, numbered from `start`;
/// line `i` starts with the number `start + i` and a colon.
pub proof fn lemma_format_lines(content: Seq<char>, start: nat)
    ensures
        split(formatted(content, start), '\n') == display_lines(split(content, '\n'), start),
        split(formatted(content, start), '\n').len() == split(content, '\n').len(),
        forall|i: int|
            0 <= i < split(content, '\n').len() ==> (#[trigger] split(
                formatted(content, start),
                '\n',
            )[i]).take(decimal((start + i) as nat).len() as int + 1) == decimal((start + i) as nat)
                + seq![':'],
{
    let lines = split(content, '\n');
    let shown = display_lines(lines, start);
    lemma_split_shape(content, '\n');
    assert forall|i: int, j: int| 0 <= i < shown.len() && 0 <= j < shown[i].len() implies shown[i][j]
        != '\n' by {
        let num = (start + i) as nat;
        let a = anchor_text(num, lines[i]);
        lemma_anchor_text_shape(num, lines[i]);
        if j < a.len() {
            assert(shown[i][j] == a[j]);
        } else if j > a.len() {
            assert(shown[i][j] == lines[i][j - a.len() - 1]);
        }
    }
    lemma_split_join(shown, '\n');
    assert forall|i: int| 0 <= i < lines.len() implies (#[trigger] shown[i]).take(
        decimal((start + i) as nat).len() as int + 1,
    ) == decimal((start + i) as nat) + seq![':'] by {
        let num = (start + i) as nat;
        lemma_anchor_text_shape(num, lines[i]);
        assert(shown[i].take(decimal(num).len() as int + 1) =~= decimal(num) + seq![':']);
    }
}

/// A display line parses as an anchor: to the number of the line and the
/// hash of its content.
pub proof fn lemma_display_line_parses(num: nat, line: Seq<char>)
    requires
        1 <= num <= usize::MAX,
    ensures
        parsed_anchor(display_line(num, line)) == Ok::<(usize, Seq<char>), Seq<char>>(
            (num as usize, line_hash(line)),
        ),
{
    let digits = decimal(num);
    let hash = line_hash(line);
    let anchor = anchor_text(num, line);
    let s = display_line(num, line);
    let n = anchor.len() as int;
    lemma_decimal(num);
    lemma_line_hash_shape(line);
    lemma_anchor_text_shape(num, line);
    assert forall|i: int| 0 <= i < hash.len() implies is_alnum(#[trigger] hash[i]) by {
        assert(is_lower_hex(hash[i]));
    }
    assert forall|i: int| 0 <= i < n implies !is_whitespace(#[trigger] s[i]) && s[i] != '>'
        && s[i] != ' ' && s[i] != '|' by {
        assert(s[i] == anchor[i]);
        if i < digits.len() {
            assert(is_digit(digits[i]));
        } else if i > digits.len() {
            assert(anchor[i] == hash[i - digits.len() - 1]);
            assert(is_alnum(hash[i - digits.len() - 1]));
        }
    }
    assert(s[n] == '|');
    // Markers and outer whitespace: only whitespace at the end of the content goes.
    assert(!is_whitespace(s[0]) && s[0] != '>');
    lemma_leading_unique(s, CharClass::Marker, 0);
    assert(s.skip(0) =~= s);
    lemma_leading_unique(s, CharClass::Whitespace, 0);
    lemma_trailing(s, CharClass::Whitespace);
    let t = trailing(s, CharClass::Whitespace);
    if t > line.len() {
        assert(CharClass::Whitespace.holds(s[n]));
    }
    let stripped = s.subrange(0, s.len() - t);
    assert(strip_markers(s) == stripped);
    assert(stripped.len() > n);
    assert forall|i: int| 0 <= i <= n implies stripped[i] == s[i] by {}
    // The suffix is cut at the bar.
    assert forall|i: int| 0 <= i < n implies stripped[i] != '|' by {
        assert(stripped[i] == s[i]);
    }
    lemma_first_index_unique(stripped, '|', n);
    lemma_first_double_space(stripped);
    let q = first_double_space(stripped);
    if q < n {
        assert(double_space_at(stripped, q));
        assert(stripped[q] == s[q]);
    }
    assert(stripped[n] == '|');
    assert(q != n) by {
        if q == n {
            assert(double_space_at(stripped, q));
        }
    }
    assert(stripped.take(n) =~= anchor);
    assert(cut_suffix(stripped) == anchor);
    // Nothing to collapse, and the strict form matches.
    assert(anchor =~= digits + seq![':'] + hash);
    lemma_collapse_plain(digits, hash);
    lemma_plain_match(digits, hash);
    assert(clean_anchor(s) == digits + seq![':'] + hash);
}

/// The anchor of line `num` with content `line`.
pub fn anchor_string(num: u128, line: &str) -> (r: String)
    ensures
        r@ == anchor_text(num as nat, line@),
{
    let mut r = String::new();
    push_decimal(&mut r, num);
    r.push(':');
    r.append(compute_line_hash(0, line).as_str());
    assert(r@ =~= anchor_text(num as nat, line@));
    r
}

/// The display form of line `num` with content `line`.
pub fn display_string(num: u128, line: &str) -> (r: String)
    ensures
        r@ == display_line(num as nat, line@),
{
    let mut r = anchor_string(num, line);
    r.push('|');
    r.append(line);
    assert(r@ =~= display_line(num as nat, line@));
    r
}

/// Formats a text for display: each line becomes `LINE:HASH|CONTENT`, the
/// first line numbered `start_line`, and the lines are joined by line feeds.
pub fn format_hashlines(content: &str, start_line: usize) -> (r: String)
    ensures
        r@ == formatted(content@, start_line as nat),
{
    let lines = split_text(content, '\n');
    let mut shown: Vec<String> = Vec::new();
    let ghost want = display_lines(lines.deep_view(), start_line as nat);
    let mut i: usize = 0;
    assert(shown.deep_view() =~= want.take(0));
    while i < lines.len()
        invariant
            i <= lines.len(),
            want == display_lines(lines.deep_view(), start_line as nat),
            shown.deep_view() == want.take(i as int),
        decreases lines.len() - i,
    {
        let ghost before = shown@;
        let line = display_string(start_line as u128 + i as u128, lines[i].as_str());
        shown.push(line);
        proof {
            lemma_deep_view_push(before, shown@, line);
            assert(want.take(i + 1) =~= want.take(i as int).push(want[i as int]));
        }
        i += 1;
    }
    assert(want.take(lines.len() as int) =~= want);
    join_text(shown.as_slice(), '\n')
}

/// The anchors of a text without the contents: one `LINE:HASH` per line,
/// numbered from 1 and joined by line feeds.
pub fn hash_only(content: &str) -> (r: String)
    ensures
        r@ == hashes_only(content@),
{
    let lines = split_text(content, '\n');
    let mut shown: Vec<String> = Vec::new();
    let ghost want = anchor_lines(lines.deep_view(), 1);
    let mut i: usize = 0;
    assert(shown.deep_view() =~= want.take(0));
    while i < lines.len()
        invariant
            i <= lines.len(),
            want == anchor_lines(lines.deep_view(), 1),
            shown.deep_view() == want.take(i as int),
        decreases lines.len() - i,
    {
        let ghost before = shown@;
        let line = anchor_string(1u128 + i as u128, lines[i].as_str());
        shown.push(line);
        proof {
            lemma_deep_view_push(before, shown@, line);
            assert(want.take(i + 1) =~= want.take(i as int).push(want[i as int]));
        }
        i += 1;
    }
    assert(want.take(lines.len() as int) =~= want);
    join_text(shown.as_slice(), '\n')
}

} // verus!
