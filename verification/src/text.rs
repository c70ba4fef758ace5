//! Character-level vocabulary shared by the hasher, the anchor parser and the
//! edit engine: whitespace, line splitting and joining, decimal numerals and
//! substring search, each as a spec function with the executable code proved
//! against it.

use vstd::prelude::*;

verus! {

// ---------------------------------------------------------------------------
// Character classes
// ---------------------------------------------------------------------------

/// The code points that carry the Unicode `White_Space` property.
pub open spec fn is_whitespace(c: char) -> bool {
    let v = c as u32;
    ||| 0x09 <= v <= 0x0D
    ||| v == 0x20
    ||| v == 0x85
    ||| v == 0xA0
    ||| v == 0x1680
    ||| 0x2000 <= v <= 0x200A
    ||| v == 0x2028
    ||| v == 0x2029
    ||| v == 0x202F
    ||| v == 0x205F
    ||| v == 0x3000
}

/// Decides whether `c` is a whitespace code point.
pub fn char_is_whitespace(c: char) -> (r: bool)
    ensures
        r == is_whitespace(c),
{
    let v: u32 = c as u32;
    (0x09 <= v && v <= 0x0D) || v == 0x20 || v == 0x85 || v == 0xA0 || v == 0x1680 || (0x2000 <= v
        && v <= 0x200A) || v == 0x2028 || v == 0x2029 || v == 0x202F || v == 0x205F || v == 0x3000
}

/// `0` to `9`.
pub open spec fn is_digit(c: char) -> bool {
    '0' <= c <= '9'
}

/// `0` to `9`, `a` to `z`, `A` to `Z`.
pub open spec fn is_alnum(c: char) -> bool {
    ||| '0' <= c <= '9'
    ||| 'a' <= c <= 'z'
    ||| 'A' <= c <= 'Z'
}

/// Decides whether `c` is one of `0` to `9`.
pub fn char_is_digit(c: char) -> (r: bool)
    ensures
        r == is_digit(c),
{
    '0' <= c && c <= '9'
}

/// Decides whether `c` is a digit or an ASCII letter.
pub fn char_is_alnum(c: char) -> (r: bool)
    ensures
        r == is_alnum(c),
{
    ('0' <= c && c <= '9') || ('a' <= c && c <= 'z') || ('A' <= c && c <= 'Z')
}

/// The lower-case form of an ASCII letter; every other character unchanged.
pub open spec fn ascii_lower(c: char) -> char {
    if 'A' <= c <= 'Z' {
        ((c as u8) + 32) as u8 as char
    } else {
        c
    }
}

/// The lower-case form of `c` where it is an ASCII letter.
pub fn char_ascii_lower(c: char) -> (r: char)
    ensures
        r == ascii_lower(c),
{
    if 'A' <= c && c <= 'Z' {
        let b: u8 = c as u8;
        (b + 32) as char
    } else {
        c
    }
}

/// `s` with every ASCII letter in lower case.
pub open spec fn lowercase(s: Seq<char>) -> Seq<char> {
    s.map_values(|c: char| ascii_lower(c))
}

// ---------------------------------------------------------------------------
// Strings as character sequences
// ---------------------------------------------------------------------------

/// `String::push` of std: the string gets `c` as its last character.
pub assume_specification[ std::string::String::push ](s: &mut std::string::String, c: char)
    ensures
        final(s)@ == old(s)@.push(c),
;

/// `==` on `str` of std: two strings are equal where they hold the same
/// characters.
pub assume_specification[ <str as PartialEq>::eq ](a: &str, b: &str) -> (r: bool)
    ensures
        r == (a@ == b@),
;

/// Whether `a` and `b` hold the same text.
pub fn str_equal(a: &str, b: &str) -> (r: bool)
    ensures
        r == (a@ == b@),
{
    a.eq(b)
}

/// The number of bytes that `s` takes in UTF-8.
pub fn utf8_len(s: &str) -> (n: usize)
    ensures
        n == vstd::utf8::encode_utf8(s@).len(),
{
    s.as_bytes().len()
}

/// The characters of `s`, in order.
pub fn str_chars(s: &str) -> (v: Vec<char>)
    ensures
        v@ == s@,
{
    let mut v: Vec<char> = Vec::new();
    for c in it: s.chars()
        invariant
            it.seq() == s@,
            v@ == s@.take(it.index() as int),
    {
        v.push(c);
    }
    v
}

/// The string whose characters are `v[from..to]`.
pub fn chars_string(v: &Vec<char>, from: usize, to: usize) -> (s: String)
    requires
        from <= to <= v.len(),
    ensures
        s@ == v@.subrange(from as int, to as int),
{
    let mut s = String::new();
    let mut i: usize = from;
    while i < to
        invariant
            from <= i <= to <= v.len(),
            s@ == v@.subrange(from as int, i as int),
        decreases to - i,
    {
        s.push(v[i]);
        i += 1;
    }
    s
}

/// An owned copy of `s`.
pub fn owned(s: &str) -> (r: String)
    ensures
        r@ == s@,
{
    s.to_owned()
}

/// Appending a line to a vector appends its text to the vector's deep view.
pub proof fn lemma_deep_view_push(before: Seq<String>, after: Seq<String>, line: String)
    requires
        after == before.push(line),
    ensures
        Seq::new(after.len(), |i: int| after[i]@) == Seq::new(
            before.len(),
            |i: int| before[i]@,
        ).push(line@),
{
    assert(Seq::new(after.len(), |i: int| after[i]@) =~= Seq::new(
        before.len(),
        |i: int| before[i]@,
    ).push(line@));
}

/// A copy of the lines `lines[from..to]`.
pub fn clone_range(lines: &[String], from: usize, to: usize) -> (r: Vec<String>)
    requires
        from <= to <= lines.len(),
    ensures
        r.deep_view() == lines.deep_view().subrange(from as int, to as int),
{
    let mut r: Vec<String> = Vec::new();
    let mut i: usize = from;
    assert(r.deep_view() =~= lines.deep_view().subrange(from as int, i as int));
    while i < to
        invariant
            from <= i <= to <= lines.len(),
            r.deep_view() == lines.deep_view().subrange(from as int, i as int),
        decreases to - i,
    {
        let ghost before = r@;
        let line = lines[i].clone();
        r.push(line);
        proof {
            lemma_deep_view_push(before, r@, line);
            assert(lines.deep_view().subrange(from as int, i + 1) =~= lines.deep_view().subrange(
                from as int,
                i as int,
            ).push(lines@[i as int]@));
        }
        i += 1;
    }
    r
}

/// A copy of every line of `lines`.
pub fn clone_lines(lines: &[String]) -> (r: Vec<String>)
    ensures
        r.deep_view() == lines.deep_view(),
{
    let r = clone_range(lines, 0, lines.len());
    assert(lines.deep_view().subrange(0, lines.len() as int) =~= lines.deep_view());
    r
}

/// The lines of `lines` with `lines[from..to]` replaced by `insert`.
pub fn splice_lines(lines: &[String], from: usize, to: usize, insert: &[String]) -> (r: Vec<
    String,
>)
    requires
        from <= to <= lines.len(),
    ensures
        r.deep_view() == lines.deep_view().take(from as int) + insert.deep_view()
            + lines.deep_view().skip(to as int),
{
    let ghost a = lines.deep_view().take(from as int);
    let ghost b = insert.deep_view();
    let ghost c = lines.deep_view().skip(to as int);
    let mut r = clone_range(lines, 0, from);
    assert(r.deep_view() =~= a);
    let mut i: usize = 0;
    assert(r.deep_view() =~= a + b.take(0));
    while i < insert.len()
        invariant
            i <= insert.len(),
            b == insert.deep_view(),
            r.deep_view() == a + b.take(i as int),
        decreases insert.len() - i,
    {
        let ghost before = r@;
        let line = insert[i].clone();
        r.push(line);
        proof {
            lemma_deep_view_push(before, r@, line);
            assert((a + b.take(i as int)).push(b[i as int]) =~= a + b.take(i + 1));
        }
        i += 1;
    }
    assert(b.take(insert.len() as int) =~= b);
    let mut j: usize = to;
    assert(r.deep_view() =~= a + b + lines.deep_view().subrange(to as int, j as int));
    while j < lines.len()
        invariant
            to <= j <= lines.len(),
            r.deep_view() == a + b + lines.deep_view().subrange(to as int, j as int),
        decreases lines.len() - j,
    {
        let ghost before = r@;
        let line = lines[j].clone();
        r.push(line);
        proof {
            lemma_deep_view_push(before, r@, line);
            assert((a + b + lines.deep_view().subrange(to as int, j as int)).push(
                lines.deep_view()[j as int],
            ) =~= a + b + lines.deep_view().subrange(to as int, j + 1));
        }
        j += 1;
    }
    assert(lines.deep_view().subrange(to as int, lines.len() as int) =~= c);
    r
}

// ---------------------------------------------------------------------------
// Whitespace stripping
// ---------------------------------------------------------------------------

/// The predicate "is not whitespace", as a value.
pub open spec fn not_whitespace() -> spec_fn(char) -> bool {
    |c: char| !is_whitespace(c)
}

/// `s` without its whitespace code points.
pub open spec fn strip_whitespace(s: Seq<char>) -> Seq<char> {
    s.filter(not_whitespace())
}

/// Drops every whitespace code point of `s`.
pub fn strip_all_whitespace(s: &str) -> (r: String)
    ensures
        r@ == strip_whitespace(s@),
{
    let mut r = String::new();
    proof {
        lemma_strip_whitespace_empty();
        assert(s@.take(0) =~= Seq::<char>::empty());
    }
    for c in it: s.chars()
        invariant
            it.seq() == s@,
            r@ == strip_whitespace(s@.take(it.index() as int)),
    {
        proof {
            let i = it.index() as int;
            assert(s@.take(i + 1) =~= s@.take(i).push(c));
            lemma_strip_whitespace_push(s@.take(i), c);
        }
        if !char_is_whitespace(c) {
            r.push(c);
        }
    }
    proof {
        assert(s@.take(s@.len() as int) =~= s@);
    }
    r
}

/// Stripping the empty sequence leaves it empty.
pub proof fn lemma_strip_whitespace_empty()
    ensures
        strip_whitespace(Seq::<char>::empty()) == Seq::<char>::empty(),
{
    reveal(Seq::filter);
}

/// Stripping after appending one character.
pub proof fn lemma_strip_whitespace_push(s: Seq<char>, c: char)
    ensures
        strip_whitespace(s.push(c)) == if is_whitespace(c) {
            strip_whitespace(s)
        } else {
            strip_whitespace(s).push(c)
        },
{
    Seq::lemma_filter_push(s, c, not_whitespace());
}

/// Stripping whitespace twice is stripping it once.
pub proof fn lemma_strip_whitespace_idempotent(s: Seq<char>)
    ensures
        strip_whitespace(strip_whitespace(s)) == strip_whitespace(s),
    decreases s.len(),
{
    if s.len() == 0 {
        lemma_strip_whitespace_empty();
        assert(s =~= Seq::<char>::empty());
    } else {
        lemma_strip_whitespace_idempotent(s.drop_last());
        let p = strip_whitespace(s.drop_last());
        assert(s.drop_last().push(s.last()) =~= s);
        lemma_strip_whitespace_push(s.drop_last(), s.last());
        lemma_strip_whitespace_push(p, s.last());
    }
}

// ---------------------------------------------------------------------------
// Splitting into lines and joining back
// ---------------------------------------------------------------------------

/// The position of the first `c` in `s`, or `s.len()` where there is none.
pub open spec fn first_index(s: Seq<char>, c: char) -> int
    decreases s.len(),
{
    if s.len() == 0 || s[0] == c {
        0
    } else {
        1 + first_index(s.skip(1), c)
    }
}

/// `first_index` is in range, nothing before it is `c`, and it points at `c`
/// unless it is the length.
pub proof fn lemma_first_index(s: Seq<char>, c: char)
    ensures
        0 <= first_index(s, c) <= s.len(),
        forall|j: int| 0 <= j < first_index(s, c) ==> s[j] != c,
        first_index(s, c) < s.len() ==> s[first_index(s, c)] == c,
    decreases s.len(),
{
    if s.len() == 0 || s[0] == c {
    } else {
        lemma_first_index(s.skip(1), c);
        let k = first_index(s.skip(1), c);
        assert forall|j: int| 0 <= j < 1 + k implies s[j] != c by {
            if j > 0 {
                assert(s.skip(1)[j - 1] == s[j]);
            }
        }
        if k < s.skip(1).len() {
            assert(s.skip(1)[k] == s[k + 1]);
        }
    }
}

/// The position with the properties of `lemma_first_index` is `first_index`.
pub proof fn lemma_first_index_unique(s: Seq<char>, c: char, k: int)
    requires
        0 <= k <= s.len(),
        forall|j: int| 0 <= j < k ==> s[j] != c,
        k < s.len() ==> s[k] == c,
    ensures
        first_index(s, c) == k,
{
    lemma_first_index(s, c);
    let f = first_index(s, c);
    if f < k {
        assert(s[f] != c);
    } else if k < f {
        assert(s[k] == c);
    }
}

/// The pieces of `s` between occurrences of `sep`; always at least one piece.
pub open spec fn split(s: Seq<char>, sep: char) -> Seq<Seq<char>>
    decreases s.len(),
{
    let i = first_index(s, sep);
    if 0 <= i < s.len() {
        seq![s.take(i)] + split(s.skip(i + 1), sep)
    } else {
        seq![s]
    }
}

/// The pieces of `lines` with `sep` between each two neighbours.
pub open spec fn join(lines: Seq<Seq<char>>, sep: char) -> Seq<char>
    decreases lines.len(),
{
    if lines.len() == 0 {
        Seq::empty()
    } else if lines.len() == 1 {
        lines[0]
    } else {
        join(lines.drop_last(), sep) + seq![sep] + lines.last()
    }
}

/// No piece holds the separator.
pub open spec fn free_of(lines: Seq<Seq<char>>, sep: char) -> bool {
    forall|i: int, j: int| 0 <= i < lines.len() && 0 <= j < lines[i].len() ==> lines[i][j] != sep
}

/// A split yields at least one piece, and no piece holds the separator.
pub proof fn lemma_split_shape(s: Seq<char>, sep: char)
    ensures
        split(s, sep).len() >= 1,
        free_of(split(s, sep), sep),
    decreases s.len(),
{
    lemma_first_index(s, sep);
    let i = first_index(s, sep);
    if 0 <= i < s.len() {
        lemma_split_shape(s.skip(i + 1), sep);
        let rest = split(s.skip(i + 1), sep);
        let all = seq![s.take(i)] + rest;
        assert forall|a: int, b: int| 0 <= a < all.len() && 0 <= b < all[a].len() implies all[a][b]
            != sep by {
            if a == 0 {
                assert(all[0] == s.take(i));
                assert(s.take(i)[b] == s[b]);
            } else {
                assert(all[a] == rest[a - 1]);
            }
        }
    } else {
        assert(split(s, sep) =~= seq![s]);
    }
}

/// Joining with one more piece in front.
pub proof fn lemma_join_prepend(first: Seq<char>, rest: Seq<Seq<char>>, sep: char)
    requires
        rest.len() >= 1,
    ensures
        join(seq![first] + rest, sep) == first + seq![sep] + join(rest, sep),
    decreases rest.len(),
{
    let all = seq![first] + rest;
    assert(all.last() == rest.last());
    if rest.len() == 1 {
        assert(all.drop_last() =~= seq![first]);
        assert(join(all.drop_last(), sep) == first);
    } else {
        assert(all.drop_last() =~= seq![first] + rest.drop_last());
        lemma_join_prepend(first, rest.drop_last(), sep);
        assert(join(all, sep) =~= first + seq![sep] + join(rest, sep));
    }
}

/// Joining what a split gave restores the text.
pub proof fn lemma_join_split(s: Seq<char>, sep: char)
    ensures
        join(split(s, sep), sep) == s,
    decreases s.len(),
{
    lemma_first_index(s, sep);
    let i = first_index(s, sep);
    if 0 <= i < s.len() {
        lemma_join_split(s.skip(i + 1), sep);
        lemma_split_shape(s.skip(i + 1), sep);
        lemma_join_prepend(s.take(i), split(s.skip(i + 1), sep), sep);
        assert(s.take(i) + seq![sep] + s.skip(i + 1) =~= s);
    } else {
        assert(split(s, sep) =~= seq![s]);
    }
}

/// Splitting a join of separator-free pieces restores the pieces.
pub proof fn lemma_split_join(lines: Seq<Seq<char>>, sep: char)
    requires
        lines.len() >= 1,
        free_of(lines, sep),
    ensures
        split(join(lines, sep), sep) == lines,
    decreases lines.len(),
{
    if lines.len() == 1 {
        let s = lines[0];
        lemma_first_index_unique(s, sep, s.len() as int);
        assert(split(s, sep) =~= lines);
    } else {
        let first = lines[0];
        let rest = lines.skip(1);
        assert(lines =~= seq![first] + rest);
        lemma_join_prepend(first, rest, sep);
        let joined = join(lines, sep);
        let tail = join(rest, sep);
        assert(joined == first + seq![sep] + tail);
        assert forall|j: int| 0 <= j < first.len() implies joined[j] != sep by {
            assert(joined[j] == lines[0][j]);
        }
        lemma_first_index_unique(joined, sep, first.len() as int);
        assert(joined.take(first.len() as int) =~= first);
        assert(joined.skip(first.len() as int + 1) =~= tail);
        assert forall|a: int, b: int| 0 <= a < rest.len() && 0 <= b < rest[a].len() implies rest[a][b]
            != sep by {
            assert(rest[a] == lines[a + 1]);
        }
        lemma_split_join(rest, sep);
    }
}

/// Splits `s` at every `sep`.
pub fn split_text(s: &str, sep: char) -> (lines: Vec<String>)
    ensures
        lines.deep_view() == split(s@, sep),
{
    let mut lines: Vec<String> = Vec::new();
    let mut cur = String::new();
    let ghost mut start: int = 0;
    proof {
        assert(s@.skip(0) =~= s@);
        assert(lines.deep_view() + split(s@, sep) =~= split(s@, sep));
    }
    for c in it: s.chars()
        invariant
            it.seq() == s@,
            0 <= start <= it.index() <= s@.len(),
            cur@ == s@.subrange(start, it.index() as int),
            forall|j: int| start <= j < it.index() ==> s@[j] != sep,
            split(s@, sep) == lines.deep_view() + split(s@.skip(start), sep),
    {
        let ghost i = it.index() as int;
        if c == sep {
            let ghost before = lines@;
            let ghost done = lines.deep_view();
            proof {
                let rest = s@.skip(start);
                assert forall|j: int| 0 <= j < i - start implies rest[j] != sep by {
                    assert(rest[j] == s@[start + j]);
                }
                lemma_first_index_unique(rest, sep, i - start);
                assert(rest.take(i - start) =~= cur@);
                assert(rest.skip(i - start + 1) =~= s@.skip(i + 1));
                assert(split(rest, sep) == seq![cur@] + split(s@.skip(i + 1), sep));
            }
            lines.push(cur);
            cur = String::new();
            proof {
                lemma_deep_view_push(before, lines@, lines@.last());
                assert(lines.deep_view() == done.push(s@.subrange(start, i)));
                assert(done + (seq![s@.subrange(start, i)] + split(s@.skip(i + 1), sep))
                    =~= done.push(s@.subrange(start, i)) + split(s@.skip(i + 1), sep));
                start = i + 1;
                assert(cur@ =~= s@.subrange(start, i + 1));
            }
        } else {
            cur.push(c);
            proof {
                assert(cur@ =~= s@.subrange(start, i + 1));
            }
        }
    }
    let ghost before = lines@;
    let ghost done = lines.deep_view();
    proof {
        let rest = s@.skip(start);
        assert(rest =~= cur@);
        assert forall|j: int| 0 <= j < rest.len() implies rest[j] != sep by {
            assert(rest[j] == s@[start + j]);
        }
        lemma_first_index_unique(rest, sep, rest.len() as int);
        assert(split(rest, sep) =~= seq![cur@]);
    }
    lines.push(cur);
    proof {
        lemma_deep_view_push(before, lines@, lines@.last());
        assert(done + seq![lines@.last()@] =~= done.push(lines@.last()@));
    }
    lines
}

/// Joins `lines` with `sep` between each two neighbours.
pub fn join_text(lines: &[String], sep: char) -> (r: String)
    ensures
        r@ == join(lines.deep_view(), sep),
{
    let mut r = String::new();
    let mut i: usize = 0;
    assert(lines.deep_view().take(0) =~= Seq::<Seq<char>>::empty());
    while i < lines.len()
        invariant
            i <= lines.len(),
            r@ == join(lines.deep_view().take(i as int), sep),
        decreases lines.len() - i,
    {
        proof {
            let next = lines.deep_view().take(i + 1);
            assert(next.drop_last() =~= lines.deep_view().take(i as int));
            assert(next.last() == lines@[i as int]@);
            if i == 0 {
                assert(r@ + lines@[i as int]@ =~= lines@[i as int]@);
            }
        }
        if i > 0 {
            r.push(sep);
        }
        r.append(lines[i].as_str());
        i += 1;
    }
    assert(lines.deep_view().take(lines.len() as int) =~= lines.deep_view());
    r
}

/// The pieces of `parts` one after the other, with nothing between them.
pub open spec fn concat_all(parts: Seq<Seq<char>>) -> Seq<char>
    decreases parts.len(),
{
    if parts.len() == 0 {
        Seq::empty()
    } else {
        concat_all(parts.drop_last()) + parts.last()
    }
}

// ---------------------------------------------------------------------------
// Decimal numerals
// ---------------------------------------------------------------------------

/// The character for the digit `d`.
pub open spec fn digit_char(d: int) -> char {
    (('0' as u8) + d) as u8 as char
}

/// The numeral of `n` in base ten, without leading zeros.
pub open spec fn decimal(n: nat) -> Seq<char>
    decreases n,
{
    if n < 10 {
        seq![digit_char(n as int)]
    } else {
        decimal(n / 10).push(digit_char((n % 10) as int))
    }
}

/// The number that a run of digits stands for (leading zeros accepted).
pub open spec fn decimal_value(s: Seq<char>) -> nat
    decreases s.len(),
{
    if s.len() == 0 {
        0
    } else {
        decimal_value(s.drop_last()) * 10 + ((s.last() as u8) - ('0' as u8)) as nat
    }
}

/// Every character of `s` is a digit.
pub open spec fn all_digits(s: Seq<char>) -> bool {
    forall|i: int| 0 <= i < s.len() ==> is_digit(#[trigger] s[i])
}

/// Every character of `s` is a digit or an ASCII letter.
pub open spec fn all_alnum(s: Seq<char>) -> bool {
    forall|i: int| 0 <= i < s.len() ==> is_alnum(#[trigger] s[i])
}

/// A numeral is a non-empty run of digits that reads back as its number.
pub proof fn lemma_decimal(n: nat)
    ensures
        decimal(n).len() >= 1,
        all_digits(decimal(n)),
        decimal_value(decimal(n)) == n,
    decreases n,
{
    if n < 10 {
        let s = decimal(n);
        assert(s.drop_last() =~= Seq::<char>::empty());
        assert(decimal_value(s.drop_last()) == 0);
    } else {
        lemma_decimal(n / 10);
        let s = decimal(n);
        assert(s.drop_last() =~= decimal(n / 10));
    }
}

/// A prefix of a run of digits stands for no more than the whole run.
pub proof fn lemma_decimal_value_prefix(s: Seq<char>, k: int)
    requires
        0 <= k <= s.len(),
        all_digits(s),
    ensures
        decimal_value(s.take(k)) <= decimal_value(s),
    decreases s.len() - k,
{
    if k < s.len() {
        lemma_decimal_value_prefix(s, k + 1);
        assert(s.take(k + 1).drop_last() =~= s.take(k));
    } else {
        assert(s.take(k) =~= s);
    }
}

/// Appends the numeral of `n` to `out`.
pub fn push_decimal(out: &mut String, n: u128)
    ensures
        final(out)@ == old(out)@ + decimal(n as nat),
    decreases n,
{
    if n >= 10 {
        push_decimal(out, n / 10);
    }
    let d: u8 = (n % 10) as u8;
    out.push((48u8 + d) as char);
    proof {
        if n >= 10 {
            assert(old(out)@ + decimal((n / 10) as nat).push(digit_char((n % 10) as int)) =~= (old(
                out,
            )@ + decimal((n / 10) as nat)).push(digit_char((n % 10) as int)));
        } else {
            assert(old(out)@ + seq![digit_char(n as int)] =~= old(out)@.push(digit_char(n as int)));
        }
    }
}

/// Reads the run of digits `v[from..to]` as a number, or `None` where it does
/// not fit in a `usize`.
pub fn parse_decimal(v: &Vec<char>, from: usize, to: usize) -> (r: Option<usize>)
    requires
        from <= to <= v.len(),
        all_digits(v@.subrange(from as int, to as int)),
    ensures
        r == if decimal_value(v@.subrange(from as int, to as int)) <= usize::MAX {
            Some(decimal_value(v@.subrange(from as int, to as int)) as usize)
        } else {
            None
        },
{
    let ghost digits = v@.subrange(from as int, to as int);
    let mut acc: usize = 0;
    let mut i: usize = from;
    assert(digits.take(0) =~= Seq::<char>::empty());
    while i < to
        invariant
            from <= i <= to <= v.len(),
            digits == v@.subrange(from as int, to as int),
            all_digits(digits),
            acc == decimal_value(digits.take(i - from)),
        decreases to - i,
    {
        let c = v[i];
        proof {
            assert(digits.take(i - from + 1).drop_last() =~= digits.take(i - from));
            assert(digits.take(i - from + 1).last() == c);
            assert(is_digit(digits[i - from]));
            lemma_decimal_value_prefix(digits, i - from + 1);
        }
        let d: usize = ((c as u8) - 48u8) as usize;
        if acc > (usize::MAX - d) / 10 {
            return None;
        }
        acc = acc * 10 + d;
        i += 1;
    }
    assert(digits.take(to - from) =~= digits);
    Some(acc)
}

// ---------------------------------------------------------------------------
// Runs of one character class
// ---------------------------------------------------------------------------

/// The character classes that the anchor grammar is written in.
#[derive(Clone, Copy, Debug)]
pub enum CharClass {
    /// A whitespace code point.
    Whitespace,
    /// `0` to `9`.
    Digit,
    /// A digit or an ASCII letter.
    Alnum,
    /// The marker character `>`.
    Marker,
}

impl CharClass {
    /// Whether `c` belongs to the class.
    pub open spec fn holds(self, c: char) -> bool {
        match self {
            CharClass::Whitespace => is_whitespace(c),
            CharClass::Digit => is_digit(c),
            CharClass::Alnum => is_alnum(c),
            CharClass::Marker => c == '>',
        }
    }

    /// Decides whether `c` belongs to the class.
    pub fn test(self, c: char) -> (r: bool)
        ensures
            r == self.holds(c),
    {
        match self {
            CharClass::Whitespace => char_is_whitespace(c),
            CharClass::Digit => char_is_digit(c),
            CharClass::Alnum => char_is_alnum(c),
            CharClass::Marker => c == '>',
        }
    }
}

/// The length of the longest prefix of `s` within the class.
pub open spec fn leading(s: Seq<char>, class: CharClass) -> int
    decreases s.len(),
{
    if s.len() > 0 && class.holds(s[0]) {
        1 + leading(s.skip(1), class)
    } else {
        0
    }
}

/// The length of the longest suffix of `s` within the class.
pub open spec fn trailing(s: Seq<char>, class: CharClass) -> int
    decreases s.len(),
{
    if s.len() > 0 && class.holds(s.last()) {
        1 + trailing(s.drop_last(), class)
    } else {
        0
    }
}

/// The prefix counted by `leading` is within the class and cannot be extended.
pub proof fn lemma_leading(s: Seq<char>, class: CharClass)
    ensures
        0 <= leading(s, class) <= s.len(),
        forall|j: int| 0 <= j < leading(s, class) ==> class.holds(s[j]),
        leading(s, class) < s.len() ==> !class.holds(s[leading(s, class)]),
    decreases s.len(),
{
    if s.len() > 0 && class.holds(s[0]) {
        lemma_leading(s.skip(1), class);
        let k = leading(s.skip(1), class);
        assert forall|j: int| 0 <= j < 1 + k implies class.holds(s[j]) by {
            if j > 0 {
                assert(s.skip(1)[j - 1] == s[j]);
            }
        }
        if k < s.skip(1).len() {
            assert(s.skip(1)[k] == s[k + 1]);
        }
    }
}

/// The prefix length with the properties of `lemma_leading` is `leading`.
pub proof fn lemma_leading_unique(s: Seq<char>, class: CharClass, k: int)
    requires
        0 <= k <= s.len(),
        forall|j: int| 0 <= j < k ==> class.holds(s[j]),
        k < s.len() ==> !class.holds(s[k]),
    ensures
        leading(s, class) == k,
{
    lemma_leading(s, class);
    let f = leading(s, class);
    if f < k {
        assert(class.holds(s[f]));
    } else if k < f {
        assert(class.holds(s[k]));
    }
}

/// The suffix counted by `trailing` is within the class and cannot be extended.
pub proof fn lemma_trailing(s: Seq<char>, class: CharClass)
    ensures
        0 <= trailing(s, class) <= s.len(),
        forall|j: int| s.len() - trailing(s, class) <= j < s.len() ==> class.holds(s[j]),
        trailing(s, class) < s.len() ==> !class.holds(s[s.len() - trailing(s, class) - 1]),
    decreases s.len(),
{
    if s.len() > 0 && class.holds(s.last()) {
        lemma_trailing(s.drop_last(), class);
        let k = trailing(s.drop_last(), class);
        assert forall|j: int| s.len() - (1 + k) <= j < s.len() implies class.holds(s[j]) by {
            if j < s.len() - 1 {
                assert(s.drop_last()[j] == s[j]);
            }
        }
        if k < s.drop_last().len() {
            assert(s.drop_last()[s.len() - 1 - k - 1] == s[s.len() - 1 - k - 1]);
        }
    }
}

/// The suffix length with the properties of `lemma_trailing` is `trailing`.
pub proof fn lemma_trailing_unique(s: Seq<char>, class: CharClass, k: int)
    requires
        0 <= k <= s.len(),
        forall|j: int| s.len() - k <= j < s.len() ==> class.holds(s[j]),
        k < s.len() ==> !class.holds(s[s.len() - k - 1]),
    ensures
        trailing(s, class) == k,
{
    lemma_trailing(s, class);
    let f = trailing(s, class);
    if f < k {
        assert(class.holds(s[s.len() - f - 1]));
    } else if k < f {
        assert(class.holds(s[s.len() - k - 1]));
    }
}

/// The end of the run of `class` that starts at `from`, within `v[from..to]`.
pub fn scan_forward(v: &Vec<char>, from: usize, to: usize, class: CharClass) -> (r: usize)
    requires
        from <= to <= v.len(),
    ensures
        from <= r <= to,
        r == from + leading(v@.subrange(from as int, to as int), class),
{
    let mut i: usize = from;
    while i < to && class.test(v[i])
        invariant
            from <= i <= to <= v.len(),
            forall|j: int| from <= j < i ==> class.holds(v@[j]),
        decreases to - i,
    {
        i += 1;
    }
    proof {
        let s = v@.subrange(from as int, to as int);
        assert forall|j: int| 0 <= j < i - from implies class.holds(s[j]) by {
            assert(s[j] == v@[from + j]);
        }
        lemma_leading_unique(s, class, i - from);
    }
    i
}

/// The start of the run of `class` that ends at `to`, within `v[from..to]`.
pub fn scan_backward(v: &Vec<char>, from: usize, to: usize, class: CharClass) -> (r: usize)
    requires
        from <= to <= v.len(),
    ensures
        from <= r <= to,
        r == to - trailing(v@.subrange(from as int, to as int), class),
{
    let mut i: usize = to;
    while i > from && class.test(v[i - 1])
        invariant
            from <= i <= to <= v.len(),
            forall|j: int| i <= j < to ==> class.holds(v@[j]),
        decreases i - from,
    {
        i -= 1;
    }
    proof {
        let s = v@.subrange(from as int, to as int);
        assert forall|j: int| s.len() - (to - i) <= j < s.len() implies class.holds(s[j]) by {
            assert(s[j] == v@[from + j]);
        }
        lemma_trailing_unique(s, class, to - i);
    }
    i
}

/// The position of the first `c` in `v[from..to]`, or `to` where there is none.
pub fn find_char(v: &Vec<char>, from: usize, to: usize, c: char) -> (r: usize)
    requires
        from <= to <= v.len(),
    ensures
        from <= r <= to,
        r == from + first_index(v@.subrange(from as int, to as int), c),
{
    let mut i: usize = from;
    while i < to && v[i] != c
        invariant
            from <= i <= to <= v.len(),
            forall|j: int| from <= j < i ==> v@[j] != c,
        decreases to - i,
    {
        i += 1;
    }
    proof {
        let s = v@.subrange(from as int, to as int);
        assert forall|j: int| 0 <= j < i - from implies s[j] != c by {
            assert(s[j] == v@[from + j]);
        }
        lemma_first_index_unique(s, c, i - from);
    }
    i
}

/// Appends `src[from..to]` to `dst`.
pub fn push_range(dst: &mut Vec<char>, src: &Vec<char>, from: usize, to: usize)
    requires
        from <= to <= src.len(),
    ensures
        final(dst)@ == old(dst)@ + src@.subrange(from as int, to as int),
{
    let mut i: usize = from;
    assert(dst@ =~= old(dst)@ + src@.subrange(from as int, i as int));
    while i < to
        invariant
            from <= i <= to <= src.len(),
            dst@ == old(dst)@ + src@.subrange(from as int, i as int),
        decreases to - i,
    {
        dst.push(src[i]);
        assert(dst@ =~= old(dst)@ + src@.subrange(from as int, i + 1));
        i += 1;
    }
}

// ---------------------------------------------------------------------------
// Quoting for messages
// ---------------------------------------------------------------------------

/// What `{:?}` prints for a string: the text between double quotes, with the
/// escapes of `str`'s `Debug` impl.
pub uninterp spec fn debug_quoted(s: Seq<char>) -> Seq<char>;

/// Formats `s` with `{:?}`. The result is a function of the text alone; the
/// contract gives it its name and claims no more.
#[verifier::external_body]
pub(crate) fn debug_quote(s: &str) -> (r: String)
    ensures
        r@ == debug_quoted(s@),
{
    format!("{:?}", s)
}

// ---------------------------------------------------------------------------
// Substring search
// ---------------------------------------------------------------------------

/// `needle` stands in `hay` at position `i`.
pub open spec fn occurs_at(hay: Seq<char>, needle: Seq<char>, i: int) -> bool {
    0 <= i && i + needle.len() <= hay.len() && hay.subrange(i, i + needle.len()) == needle
}

/// The first position from `from` on at which `needle` stands in `hay`.
pub open spec fn find_from(hay: Seq<char>, needle: Seq<char>, from: int) -> Option<int>
    decreases hay.len() + 1 - from,
{
    if from < 0 || from + needle.len() > hay.len() {
        None
    } else if occurs_at(hay, needle, from) {
        Some(from)
    } else {
        find_from(hay, needle, from + 1)
    }
}

/// The first position at which `needle` stands in `hay`.
pub open spec fn find(hay: Seq<char>, needle: Seq<char>) -> Option<int> {
    find_from(hay, needle, 0)
}

/// What `find_from` returns is the first occurrence from `from` on, and
/// `None` means that there is none.
pub proof fn lemma_find_from(hay: Seq<char>, needle: Seq<char>, from: int)
    requires
        0 <= from,
    ensures
        match find_from(hay, needle, from) {
            Some(i) => from <= i && occurs_at(hay, needle, i) && forall|j: int|
                from <= j < i ==> !occurs_at(hay, needle, j),
            None => forall|j: int| from <= j ==> !occurs_at(hay, needle, j),
        },
    decreases hay.len() + 1 - from,
{
    if from + needle.len() > hay.len() {
    } else if occurs_at(hay, needle, from) {
    } else {
        lemma_find_from(hay, needle, from + 1);
    }
}

/// Whether `needle` stands in `hay` at position `i`.
pub fn matches_at(hay: &Vec<char>, needle: &Vec<char>, i: usize) -> (r: bool)
    requires
        i + needle.len() <= hay.len(),
    ensures
        r == occurs_at(hay@, needle@, i as int),
{
    let mut k: usize = 0;
    while k < needle.len()
        invariant
            k <= needle.len(),
            i + needle.len() <= hay.len(),
            forall|j: int| 0 <= j < k ==> hay@[i + j] == needle@[j],
        decreases needle.len() - k,
    {
        if hay[i + k] != needle[k] {
            assert(hay@.subrange(i as int, i + needle.len())[k as int] != needle@[k as int]);
            return false;
        }
        k += 1;
    }
    assert(hay@.subrange(i as int, i + needle.len()) =~= needle@);
    true
}

/// The first position from `from` on at which `needle` stands in `hay`.
pub fn find_chars(hay: &Vec<char>, needle: &Vec<char>, from: usize) -> (r: Option<usize>)
    ensures
        match r {
            Some(i) => find_from(hay@, needle@, from as int) == Some(i as int) && i
                + needle.len() <= hay.len(),
            None => find_from(hay@, needle@, from as int) is None,
        },
{
    if needle.len() > hay.len() {
        return None;
    }
    if needle.len() == 0 {
        if from <= hay.len() {
            assert(hay@.subrange(from as int, from as int) =~= needle@);
            return Some(from);
        } else {
            return None;
        }
    }
    let last = hay.len() - needle.len();
    let mut i: usize = from;
    while i <= last
        invariant
            from <= i,
            needle.len() >= 1,
            last == hay.len() - needle.len(),
            find_from(hay@, needle@, from as int) == find_from(hay@, needle@, i as int),
        decreases last + 1 - i,
    {
        if matches_at(hay, needle, i) {
            return Some(i);
        }
        i += 1;
    }
    None
}

/// The first position at which `needle` stands in `hay`, counted in
/// characters.
pub fn find_text(hay: &str, needle: &str) -> (r: Option<usize>)
    ensures
        match r {
            Some(i) => find(hay@, needle@) == Some(i as int),
            None => find(hay@, needle@) is None,
        },
{
    let h = str_chars(hay);
    let n = str_chars(needle);
    find_chars(&h, &n, 0)
}

} // verus!
