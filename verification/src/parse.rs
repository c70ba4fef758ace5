//! The anchor parser: `LINE:HASH` and the variants it tolerates.
//!
//! An anchor text is cleaned in three steps (markers and surrounding
//! whitespace, display or legacy suffix, whitespace around the colon) and
//! then matched, first strictly and then by prefix.

use crate::hash::{is_lower_hex, lemma_line_hash_shape, line_hash};
use crate::text::{
    all_alnum, all_digits, chars_string, debug_quote, debug_quoted, decimal, decimal_value,
    find_char, first_index, is_alnum, is_digit, is_whitespace, leading, lemma_decimal,
    lemma_first_index, lemma_first_index_unique, lemma_leading, lemma_leading_unique,
    lemma_trailing_unique, parse_decimal, push_range, scan_backward, scan_forward, str_chars,
    trailing, CharClass,
};
use vstd::prelude::*;

verus! {

/// A parsed line reference: a line number, counted from 1, and a hash.
#[derive(Debug, Clone, PartialEq, Eq)]
pub struct LineRef {
    pub line: usize,
    pub hash: String,
}

impl LineRef {
    /// The line number is positive and the hash is 1 to 16 digits or letters.
    pub open spec fn wf(&self) -> bool {
        &&& self.line >= 1
        &&& 1 <= self.hash@.len() <= 16
        &&& all_alnum(self.hash@)
    }
}

// ---------------------------------------------------------------------------
// Cleaning
// ---------------------------------------------------------------------------

/// `s` without the whitespace at its two ends.
pub open spec fn trim(s: Seq<char>) -> Seq<char> {
    let a = leading(s, CharClass::Whitespace);
    let b = trailing(s.skip(a), CharClass::Whitespace);
    s.subrange(a, s.len() - b)
}

/// `s` without its longest prefix of `>` and then without the whitespace at
/// its two ends.
pub open spec fn strip_markers(s: Seq<char>) -> Seq<char> {
    trim(s.skip(leading(s, CharClass::Marker)))
}

/// Two neighbouring spaces start at position `j` of `s`.
pub open spec fn double_space_at(s: Seq<char>, j: int) -> bool {
    0 <= j && j + 1 < s.len() && s[j] == ' ' && s[j + 1] == ' '
}

/// The position of the first two neighbouring spaces in `s`, or `s.len()`
/// where there are none.
pub open spec fn first_double_space(s: Seq<char>) -> int
    decreases s.len(),
{
    if s.len() < 2 {
        s.len() as int
    } else if s[0] == ' ' && s[1] == ' ' {
        0
    } else {
        1 + first_double_space(s.skip(1))
    }
}

/// `s` up to its first `|` or its first double space, whichever comes first.
pub open spec fn cut_suffix(s: Seq<char>) -> Seq<char> {
    let p = first_index(s, '|');
    let q = first_double_space(s);
    s.take(if p <= q { p } else { q })
}

/// `s` with the whitespace on both sides of its first colon removed.
pub open spec fn collapse_colon(s: Seq<char>) -> Seq<char> {
    let k = first_index(s, ':');
    if 0 <= k < s.len() {
        let left = s.take(k);
        let right = s.skip(k + 1);
        left.take(left.len() - trailing(left, CharClass::Whitespace)) + seq![':'] + right.skip(
            leading(right, CharClass::Whitespace),
        )
    } else {
        s
    }
}

/// The cleaned form of an anchor text.
pub open spec fn clean_anchor(s: Seq<char>) -> Seq<char> {
    collapse_colon(cut_suffix(strip_markers(s)))
}

// ---------------------------------------------------------------------------
// Matching
// ---------------------------------------------------------------------------

/// The digits and the hash of a text that is digits, a colon and 1 to 16
/// digits or letters, and nothing else.
pub open spec fn strict_match(s: Seq<char>) -> Option<(Seq<char>, Seq<char>)> {
    let d = leading(s, CharClass::Digit);
    if d >= 1 && d < s.len() && s[d] == ':' && 1 <= s.len() - d - 1 <= 16 && all_alnum(
        s.skip(d + 1),
    ) {
        Some((s.take(d), s.skip(d + 1)))
    } else {
        None
    }
}

/// The digits and the two hash characters of a text that starts with digits,
/// a colon and two digits or letters; what follows is ignored.
pub open spec fn prefix_match(s: Seq<char>) -> Option<(Seq<char>, Seq<char>)> {
    let d = leading(s, CharClass::Digit);
    if d >= 1 && d + 2 < s.len() && s[d] == ':' && is_alnum(s[d + 1]) && is_alnum(s[d + 2]) {
        Some((s.take(d), s.subrange(d + 1, d + 3)))
    } else {
        None
    }
}

/// The strict match where there is one, else the prefix match.
pub open spec fn anchor_match(s: Seq<char>) -> Option<(Seq<char>, Seq<char>)> {
    if strict_match(s) is Some {
        strict_match(s)
    } else {
        prefix_match(s)
    }
}

/// The message for a line number of zero.
pub open spec fn zero_line_message(s: Seq<char>) -> Seq<char> {
    "Line number must be >= 1, got 0 in "@ + debug_quoted(s) + "."@
}

/// The message for a text that is no anchor.
pub open spec fn invalid_message(s: Seq<char>) -> Seq<char> {
    "Invalid line reference "@ + debug_quoted(s)
        + ". Expected format \"LINE:HASH\" (e.g. \"5:aa\")."@
}

/// What parsing `s` gives: the line and the hash, or the error message.
pub open spec fn parsed_anchor(s: Seq<char>) -> Result<(usize, Seq<char>), Seq<char>> {
    match anchor_match(clean_anchor(s)) {
        Some((digits, hash)) => {
            let n = decimal_value(digits);
            if n == 0 {
                Err(zero_line_message(s))
            } else if n > usize::MAX {
                Err(invalid_message(s))
            } else {
                Ok((n as usize, hash))
            }
        },
        None => Err(invalid_message(s)),
    }
}

/// `first_double_space` is in range, points at two spaces unless it is the
/// length, and no two neighbouring spaces start before it.
pub proof fn lemma_first_double_space(s: Seq<char>)
    ensures
        0 <= first_double_space(s) <= s.len(),
        first_double_space(s) < s.len() ==> double_space_at(s, first_double_space(s)),
        forall|j: int| 0 <= j < first_double_space(s) ==> !#[trigger] double_space_at(s, j),
    decreases s.len(),
{
    if s.len() < 2 {
    } else if s[0] == ' ' && s[1] == ' ' {
    } else {
        let t = s.skip(1);
        lemma_first_double_space(t);
        let k = first_double_space(t);
        assert forall|j: int| 0 <= j < 1 + k implies !#[trigger] double_space_at(s, j) by {
            if j > 0 {
                assert(!double_space_at(t, j - 1));
                if j + 1 < s.len() {
                    assert(t[j - 1] == s[j]);
                    assert(t[j] == s[j + 1]);
                }
            }
        }
        if k < t.len() {
            assert(double_space_at(t, k));
            assert(t[k] == s[k + 1]);
            assert(t[k + 1] == s[k + 2]);
        }
    }
}

/// The position with the properties of `lemma_first_double_space` is
/// `first_double_space`.
pub proof fn lemma_first_double_space_unique(s: Seq<char>, k: int)
    requires
        0 <= k <= s.len(),
        k < s.len() ==> double_space_at(s, k),
        forall|j: int| 0 <= j < k ==> !#[trigger] double_space_at(s, j),
    ensures
        first_double_space(s) == k,
{
    lemma_first_double_space(s);
    let f = first_double_space(s);
    if f < k {
        assert(!double_space_at(s, f));
    } else if k < f {
        assert(!double_space_at(s, k));
    }
}

/// What a match hands out: a non-empty run of digits and a hash of 1 to 16
/// digits or letters.
pub proof fn lemma_anchor_match_shape(s: Seq<char>)
    requires
        anchor_match(s) is Some,
    ensures
        ({
            let (digits, hash) = anchor_match(s).unwrap();
            &&& all_digits(digits)
            &&& digits.len() >= 1
            &&& 1 <= hash.len() <= 16
            &&& all_alnum(hash)
        }),
{
    lemma_leading(s, CharClass::Digit);
    let d = leading(s, CharClass::Digit);
    let digits = s.take(d);
    assert forall|i: int| 0 <= i < digits.len() implies is_digit(#[trigger] digits[i]) by {
        assert(CharClass::Digit.holds(s[i]));
    }
    if strict_match(s) is None {
        let h = s.subrange(d + 1, d + 3);
        assert forall|i: int| 0 <= i < h.len() implies is_alnum(#[trigger] h[i]) by {
            assert(h[i] == s[d + 1 + i]);
        }
    }
}

/// A text made of digits, a colon and digits or letters is its own cleaned
/// form.
pub proof fn lemma_clean_plain(digits: Seq<char>, hash: Seq<char>)
    requires
        digits.len() >= 1,
        all_digits(digits),
        hash.len() >= 1,
        all_alnum(hash),
    ensures
        clean_anchor(digits + seq![':'] + hash) == digits + seq![':'] + hash,
{
    let s = digits + seq![':'] + hash;
    let d = digits.len() as int;
    assert forall|i: int| 0 <= i < s.len() implies !is_whitespace(#[trigger] s[i]) && s[i] != '>'
        && s[i] != '|' && s[i] != ' ' by {
        if i < d {
            assert(is_digit(digits[i]));
        } else if i > d {
            assert(is_alnum(hash[i - d - 1]));
        }
    }
    assert(!is_whitespace(s[0]));
    assert(!is_whitespace(s[s.len() - 1]));
    lemma_leading_unique(s, CharClass::Marker, 0);
    assert(s.skip(0) =~= s);
    lemma_leading_unique(s, CharClass::Whitespace, 0);
    lemma_trailing_unique(s, CharClass::Whitespace, 0);
    assert(s.subrange(0, s.len() as int) =~= s);
    assert(strip_markers(s) == s);
    lemma_first_index(s, '|');
    lemma_first_double_space(s);
    if first_double_space(s) < s.len() {
        assert(double_space_at(s, first_double_space(s)));
    }
    assert(s.take(s.len() as int) =~= s);
    assert(cut_suffix(s) == s);
    lemma_collapse_plain(digits, hash);
}

/// Digits, a colon and digits or letters have no whitespace to collapse
/// around the colon.
pub proof fn lemma_collapse_plain(digits: Seq<char>, hash: Seq<char>)
    requires
        digits.len() >= 1,
        all_digits(digits),
        hash.len() >= 1,
        all_alnum(hash),
    ensures
        collapse_colon(digits + seq![':'] + hash) == digits + seq![':'] + hash,
{
    let s = digits + seq![':'] + hash;
    let d = digits.len() as int;
    assert forall|i: int| 0 <= i < d implies s[i] != ':' by {
        assert(is_digit(digits[i]));
    }
    lemma_first_index_unique(s, ':', d);
    let left = s.take(d);
    let right = s.skip(d + 1);
    assert(left =~= digits);
    assert(right =~= hash);
    assert(!is_whitespace(digits[d - 1])) by {
        assert(is_digit(digits[d - 1]));
    }
    assert(!is_whitespace(hash[0])) by {
        assert(is_alnum(hash[0]));
    }
    lemma_trailing_unique(left, CharClass::Whitespace, 0);
    lemma_leading_unique(right, CharClass::Whitespace, 0);
    assert(left.take(left.len() - 0) =~= left);
    assert(right.skip(0) =~= right);
}

/// The line and the hash that a cleaned text of digits, a colon and a hash
/// stands for.
pub proof fn lemma_plain_match(digits: Seq<char>, hash: Seq<char>)
    requires
        digits.len() >= 1,
        all_digits(digits),
        1 <= hash.len() <= 16,
        all_alnum(hash),
    ensures
        anchor_match(digits + seq![':'] + hash) == Some((digits, hash)),
{
    let s = digits + seq![':'] + hash;
    let d = digits.len() as int;
    assert forall|i: int| 0 <= i < d implies CharClass::Digit.holds(s[i]) by {
        assert(is_digit(digits[i]));
    }
    lemma_leading_unique(s, CharClass::Digit, d);
    assert(s.take(d) =~= digits);
    assert(s.skip(d + 1) =~= hash);
    assert(s[d] == ':');
}

/// A line number at least 1, a colon and a hash of 1 to 16 digits or letters
/// parse back to that line and that hash.
pub proof fn lemma_anchor_round_trip(line: usize, hash: Seq<char>)
    requires
        line >= 1,
        1 <= hash.len() <= 16,
        all_alnum(hash),
    ensures
        parsed_anchor(decimal(line as nat) + seq![':'] + hash) == Ok::<
            (usize, Seq<char>),
            Seq<char>,
        >((line, hash)),
{
    let digits = decimal(line as nat);
    lemma_decimal(line as nat);
    lemma_clean_plain(digits, hash);
    lemma_plain_match(digits, hash);
}

/// The anchor written from a line number and the hash of any line parses
/// back to that number and that hash.
pub proof fn lemma_line_anchor_round_trip(line: usize, content: Seq<char>)
    requires
        line >= 1,
    ensures
        parsed_anchor(decimal(line as nat) + seq![':'] + line_hash(content)) == Ok::<
            (usize, Seq<char>),
            Seq<char>,
        >((line, line_hash(content))),
{
    lemma_line_hash_shape(content);
    let h = line_hash(content);
    assert forall|i: int| 0 <= i < h.len() implies is_alnum(#[trigger] h[i]) by {
        assert(is_lower_hex(h[i]));
    }
    lemma_anchor_round_trip(line, h);
}

// ---------------------------------------------------------------------------
// The parser
// ---------------------------------------------------------------------------

fn find_double_space(v: &Vec<char>, from: usize, to: usize) -> (r: usize)
    requires
        from <= to <= v.len(),
    ensures
        from <= r <= to,
        r == from + first_double_space(v@.subrange(from as int, to as int)),
{
    let ghost s = v@.subrange(from as int, to as int);
    let mut i: usize = from;
    while i < to && !(i + 1 < to && v[i] == ' ' && v[i + 1] == ' ')
        invariant
            from <= i <= to <= v.len(),
            s == v@.subrange(from as int, to as int),
            forall|j: int| 0 <= j < i - from ==> !#[trigger] double_space_at(s, j),
        decreases to - i,
    {
        proof {
            if i + 1 < to {
                assert(s[i - from] == v@[i as int]);
                assert(s[i - from + 1] == v@[i + 1]);
            }
            assert(!double_space_at(s, i - from));
        }
        i += 1;
    }
    proof {
        if i < to {
            assert(s[i - from] == v@[i as int]);
            assert(s[i - from + 1] == v@[i + 1]);
        }
        lemma_first_double_space_unique(s, i - from);
    }
    i
}

/// The range of `v` that is left once markers and outer whitespace are gone.
fn marker_range(v: &Vec<char>) -> (r: (usize, usize))
    ensures
        r.0 <= r.1 <= v.len(),
        v@.subrange(r.0 as int, r.1 as int) == strip_markers(v@),
{
    let n = v.len();
    let m = scan_forward(v, 0, n, CharClass::Marker);
    let a = scan_forward(v, m, n, CharClass::Whitespace);
    let b = scan_backward(v, a, n, CharClass::Whitespace);
    proof {
        assert(v@.subrange(0, n as int) =~= v@);
        let t = v@.skip(m as int);
        assert(t =~= v@.subrange(m as int, n as int));
        assert(t.skip(a - m) =~= v@.subrange(a as int, n as int));
        assert(t.subrange(a - m, t.len() - (n - b)) =~= v@.subrange(a as int, b as int));
    }
    (a, b)
}

/// The end of `v[a..b]` once a display or legacy suffix is cut off.
fn cut_end(v: &Vec<char>, a: usize, b: usize) -> (e: usize)
    requires
        a <= b <= v.len(),
    ensures
        a <= e <= b,
        v@.subrange(a as int, e as int) == cut_suffix(v@.subrange(a as int, b as int)),
{
    let p = find_char(v, a, b, '|');
    let q = find_double_space(v, a, b);
    let e = if p <= q {
        p
    } else {
        q
    };
    assert(v@.subrange(a as int, b as int).take(e - a) =~= v@.subrange(a as int, e as int));
    e
}

/// `v[a..e]` with the whitespace around its first colon removed.
fn collapse(v: &Vec<char>, a: usize, e: usize) -> (norm: Vec<char>)
    requires
        a <= e <= v.len(),
    ensures
        norm@ == collapse_colon(v@.subrange(a as int, e as int)),
{
    let ghost cut = v@.subrange(a as int, e as int);
    let k = find_char(v, a, e, ':');
    let mut norm: Vec<char> = Vec::new();
    if k < e {
        let l = scan_backward(v, a, k, CharClass::Whitespace);
        let r = scan_forward(v, k + 1, e, CharClass::Whitespace);
        push_range(&mut norm, v, a, l);
        norm.push(':');
        push_range(&mut norm, v, r, e);
        proof {
            let left = cut.take(k - a);
            let right = cut.skip(k - a + 1);
            assert(left =~= v@.subrange(a as int, k as int));
            assert(right =~= v@.subrange(k + 1, e as int));
            assert(left.take(left.len() - (k - l)) =~= v@.subrange(a as int, l as int));
            assert(right.skip(r - (k + 1)) =~= v@.subrange(r as int, e as int));
            assert(norm@ =~= v@.subrange(a as int, l as int) + seq![':'] + v@.subrange(
                r as int,
                e as int,
            ));
        }
    } else {
        push_range(&mut norm, v, a, e);
        assert(norm@ =~= cut);
    }
    norm
}

/// The cleaned form of the anchor text `v`.
fn clean(v: &Vec<char>) -> (norm: Vec<char>)
    ensures
        norm@ == clean_anchor(v@),
{
    let (a, b) = marker_range(v);
    let e = cut_end(v, a, b);
    collapse(v, a, e)
}

/// The message for a line number of zero in the reference whose quoted
/// form is `quoted`.
pub fn zero_line_error(quoted: &str) -> (m: String)
    ensures
        m@ == "Line number must be >= 1, got 0 in "@ + quoted@ + "."@,
{
    let mut m = String::from_str("Line number must be >= 1, got 0 in ");
    m.append(quoted);
    m.append(".");
    m
}

/// The message for a text that is no reference; `quoted` is its quoted
/// form.
pub fn invalid_error(quoted: &str) -> (m: String)
    ensures
        m@ == "Invalid line reference "@ + quoted@
            + ". Expected format \"LINE:HASH\" (e.g. \"5:aa\")."@,
{
    let mut m = String::from_str("Invalid line reference ");
    m.append(quoted);
    m.append(". Expected format \"LINE:HASH\" (e.g. \"5:aa\").");
    m
}

/// The digits and the hash that `norm` matches, as index ranges: the digits
/// are `norm[0..d]` and the hash is `norm[d + 1..end]`.
fn match_anchor(norm: &Vec<char>) -> (r: Option<(usize, usize)>)
    ensures
        match r {
            Some((d, end)) => d < end <= norm.len() && anchor_match(norm@) == Some(
                (norm@.subrange(0, d as int), norm@.subrange(d + 1, end as int)),
            ),
            None => anchor_match(norm@) is None,
        },
{
    let n = norm.len();
    let d = scan_forward(norm, 0, n, CharClass::Digit);
    proof {
        assert(norm@.subrange(0, n as int) =~= norm@);
    }
    if d < 1 || d >= n || norm[d] != ':' {
        return None;
    }
    let h = scan_forward(norm, d + 1, n, CharClass::Alnum);
    proof {
        let rest = norm@.subrange(d + 1, n as int);
        assert(rest =~= norm@.skip(d + 1));
        lemma_leading(rest, CharClass::Alnum);
        assert(norm@.take(d as int) =~= norm@.subrange(0, d as int));
        if h == n {
            assert forall|i: int| 0 <= i < rest.len() implies is_alnum(#[trigger] rest[i]) by {
                assert(CharClass::Alnum.holds(rest[i]));
            }
        } else {
            assert(!CharClass::Alnum.holds(rest[h - d - 1]));
            assert(!all_alnum(rest));
        }
        if h >= d + 3 {
            assert(CharClass::Alnum.holds(rest[0]));
            assert(CharClass::Alnum.holds(rest[1]));
            assert(rest[0] == norm@[d + 1]);
            assert(rest[1] == norm@[d + 2]);
        } else if d + 2 < n {
            if h == d + 1 {
                assert(!CharClass::Alnum.holds(rest[0]));
                assert(rest[0] == norm@[d + 1]);
            } else {
                assert(!CharClass::Alnum.holds(rest[1]));
                assert(rest[1] == norm@[d + 2]);
            }
        }
    }
    if h == n && 1 <= n - d - 1 && n - d - 1 <= 16 {
        Some((d, n))
    } else if h - d >= 3 {
        Some((d, d + 3))
    } else {
        None
    }
}

/// Parses a line reference such as `5:ab`.
///
/// Accepted besides the plain form: a leading run of `>` with whitespace, a
/// display suffix (`5:ab|content`), a legacy suffix (`5:ab  content`),
/// whitespace around the colon, and anything after two hash characters. The
/// result is the line and the hash, or a message that says why the text is
/// no reference.
pub fn parse_line_ref(ref_str: &str) -> (r: Result<LineRef, String>)
    ensures
        match r {
            Ok(lr) => parsed_anchor(ref_str@) == Ok::<(usize, Seq<char>), Seq<char>>(
                (lr.line, lr.hash@),
            ) && lr.wf(),
            Err(m) => parsed_anchor(ref_str@) == Err::<(usize, Seq<char>), Seq<char>>(m@),
        },
{
    let v = str_chars(ref_str);
    let norm = clean(&v);
    match match_anchor(&norm) {
        None => Err(invalid_error(debug_quote(ref_str).as_str())),
        Some((d, end)) => {
            proof {
                lemma_anchor_match_shape(norm@);
            }
            match parse_decimal(&norm, 0, d) {
                None => Err(invalid_error(debug_quote(ref_str).as_str())),
                Some(line) => {
                    if line < 1 {
                        Err(zero_line_error(debug_quote(ref_str).as_str()))
                    } else {
                        let hash = chars_string(&norm, d + 1, end);
                        Ok(LineRef { line, hash })
                    }
                },
            }
        },
    }
}

} // verus!
