//! Paths into a JSON tree and anchors on them.
//!
//! A path is `$` followed by steps: `.key` for a member whose key is plain,
//! `["key"]` for any key, and `[index]` for an item of an array.

use crate::json::fault::{JsonError, JsonFault};
use crate::text::{
    all_alnum, chars_string, decimal, decimal_value, first_index, find_char, is_alnum, is_digit,
    leading, lemma_leading, parse_decimal, push_decimal, scan_forward, str_chars, CharClass,
};
use vstd::prelude::*;

verus! {

/// One step of a path.
#[derive(Debug, Clone, PartialEq, Eq)]
pub enum PathSegment {
    /// Into the member of an object with this key.
    Key(String),
    /// Into the item of an array at this place, counted from 0.
    Index(usize),
}

/// One step of a path, as plain values.
pub enum Segment {
    Key(Seq<char>),
    Index(nat),
}

impl PathSegment {
    /// The plain values of the step.
    pub open spec fn view(&self) -> Segment {
        match self {
            PathSegment::Key(k) => Segment::Key(k@),
            PathSegment::Index(i) => Segment::Index(*i as nat),
        }
    }
}

/// The plain values of a list of steps.
pub open spec fn segments_view(segs: Seq<PathSegment>) -> Seq<Segment> {
    Seq::new(segs.len(), |i: int| segs[i]@)
}

// ---------------------------------------------------------------------------
// The grammar
// ---------------------------------------------------------------------------

/// The length of the run at the start of `s` that holds neither `.` nor `[`.
pub open spec fn key_run(s: Seq<char>) -> int
    decreases s.len(),
{
    if s.len() == 0 || s[0] == '.' || s[0] == '[' {
        0
    } else {
        1 + key_run(s.skip(1))
    }
}

/// The key that `s` holds up to its closing quote, and how many characters
/// that takes, the quote included. A backslash takes the next character as
/// it is.
pub open spec fn quoted_key(s: Seq<char>) -> Option<(Seq<char>, int)>
    decreases s.len(),
{
    if s.len() == 0 {
        None
    } else if s[0] == '"' {
        Some((Seq::empty(), 1))
    } else if s[0] == '\\' {
        if s.len() < 2 {
            None
        } else {
            match quoted_key(s.skip(2)) {
                Some((k, n)) => Some((seq![s[1]] + k, n + 2)),
                None => None,
            }
        }
    } else {
        match quoted_key(s.skip(1)) {
            Some((k, n)) => Some((seq![s[0]] + k, n + 1)),
            None => None,
        }
    }
}

/// The message for a path that does not start with `$`.
pub open spec fn bad_start_message(path: Seq<char>) -> Seq<char> {
    "Path must start with '$': "@ + path
}

/// The message for a dot with no key behind it.
pub open spec fn empty_key_message(path: Seq<char>) -> Seq<char> {
    "Empty key segment in path: "@ + path
}

/// The message for brackets that hold no index.
pub open spec fn bad_index_message(index: Seq<char>, path: Seq<char>) -> Seq<char> {
    "Invalid array index '"@ + index + "' in path: "@ + path
}

/// The message for a quoted key that is not closed by `"]`.
pub open spec fn bad_key_message(path: Seq<char>) -> Seq<char> {
    "Invalid quoted key in path: "@ + path
}

/// The message for a step that starts with neither `.` nor `[`.
pub open spec fn bad_char_message(c: char, path: Seq<char>) -> Seq<char> {
    "Unexpected character '"@ + seq![c] + "' in path: "@ + path
}

/// The steps with one more in front, where there are steps.
pub open spec fn with_first(first: Segment, rest: Result<Seq<Segment>, Seq<char>>) -> Result<
    Seq<Segment>,
    Seq<char>,
> {
    match rest {
        Ok(segs) => Ok(seq![first] + segs),
        Err(m) => Err(m),
    }
}

/// The steps that `rest` spells, or the message that says why it spells
/// none; `path` is the whole path, for the message.
pub open spec fn segments_from(path: Seq<char>, rest: Seq<char>) -> Result<
    Seq<Segment>,
    Seq<char>,
>
    decreases rest.len(),
{
    if rest.len() == 0 {
        Ok(Seq::empty())
    } else if rest[0] == '.' {
        let body = rest.skip(1);
        let n = key_run(body);
        if 0 < n <= body.len() {
            with_first(Segment::Key(body.take(n)), segments_from(path, body.skip(n)))
        } else {
            Err(empty_key_message(path))
        }
    } else if rest[0] == '[' {
        let body = rest.skip(1);
        if body.len() > 0 && body[0] == '"' {
            match quoted_key(body.skip(1)) {
                Some((key, used)) => if 0 < used && 1 + used < body.len() && body[1 + used] == ']' {
                    with_first(Segment::Key(key), segments_from(path, body.skip(used + 2)))
                } else {
                    Err(bad_key_message(path))
                },
                None => Err(bad_key_message(path)),
            }
        } else {
            let d = leading(body, CharClass::Digit);
            if 0 < d < body.len() && body[d] == ']' && decimal_value(body.take(d)) <= usize::MAX {
                with_first(
                    Segment::Index(decimal_value(body.take(d))),
                    segments_from(path, body.skip(d + 1)),
                )
            } else {
                Err(bad_index_message(body.take(first_index(body, ']')), path))
            }
        }
    } else {
        Err(bad_char_message(rest[0], path))
    }
}

/// The steps of a path, or the message that says why it is none.
pub open spec fn parsed_path(path: Seq<char>) -> Result<Seq<Segment>, Seq<char>> {
    if path.len() == 0 || path[0] != '$' {
        Err(bad_start_message(path))
    } else {
        segments_from(path, path.skip(1))
    }
}

/// A key run is in range, holds neither `.` nor `[`, and stops at one of
/// them or at the end.
pub proof fn lemma_key_run(s: Seq<char>)
    ensures
        0 <= key_run(s) <= s.len(),
        forall|j: int| 0 <= j < key_run(s) ==> s[j] != '.' && s[j] != '[',
        key_run(s) < s.len() ==> s[key_run(s)] == '.' || s[key_run(s)] == '[',
    decreases s.len(),
{
    if s.len() == 0 || s[0] == '.' || s[0] == '[' {
    } else {
        let t = s.skip(1);
        lemma_key_run(t);
        let k = key_run(t);
        assert forall|j: int| 0 <= j < 1 + k implies s[j] != '.' && s[j] != '[' by {
            if j > 0 {
                assert(t[j - 1] == s[j]);
            }
        }
        if k < t.len() {
            assert(t[k] == s[k + 1]);
        }
    }
}

/// The run with the properties of `lemma_key_run` is `key_run`.
pub proof fn lemma_key_run_unique(s: Seq<char>, k: int)
    requires
        0 <= k <= s.len(),
        forall|j: int| 0 <= j < k ==> s[j] != '.' && s[j] != '[',
        k < s.len() ==> s[k] == '.' || s[k] == '[',
    ensures
        key_run(s) == k,
{
    lemma_key_run(s);
    let f = key_run(s);
    if f < k {
        assert(s[f] != '.' && s[f] != '[');
    } else if k < f {
        assert(s[k] != '.' && s[k] != '[');
    }
}

// ---------------------------------------------------------------------------
// The parser
// ---------------------------------------------------------------------------

fn path_error(prefix: &str, path: &str) -> (m: String)
    ensures
        m@ == prefix@ + path@,
{
    let mut m = String::from_str(prefix);
    m.append(path);
    m
}

fn bad_index_error(v: &Vec<char>, from: usize, path: &str) -> (m: String)
    requires
        from <= v.len(),
    ensures
        m@ == bad_index_message(
            v@.skip(from as int).take(first_index(v@.skip(from as int), ']')),
            path@,
        ),
{
    let end = find_char(v, from, v.len(), ']');
    let mut m = String::from_str("Invalid array index '");
    proof {
        assert(v@.subrange(from as int, v.len() as int) =~= v@.skip(from as int));
        assert(v@.subrange(from as int, end as int) =~= v@.skip(from as int).take(end - from));
    }
    m.append(chars_string(v, from, end).as_str());
    m.append("' in path: ");
    m.append(path);
    m
}

fn bad_char_error(c: char, path: &str) -> (m: String)
    ensures
        m@ == bad_char_message(c, path@),
{
    let mut m = String::from_str("Unexpected character '");
    m.push(c);
    m.append("' in path: ");
    m.append(path);
    assert(m@ =~= bad_char_message(c, path@));
    m
}

/// What is left of a quoted key from place `i` on, behind what was read.
pub open spec fn key_after(acc: Seq<char>, i: int, rest: Option<(Seq<char>, int)>) -> Option<
    (Seq<char>, int),
> {
    match rest {
        Some((k, n)) => Some((acc + k, n + i)),
        None => None,
    }
}

/// Reads the quoted key that starts at `v[from]`: the key and the place
/// behind its closing quote.
fn read_quoted_key(v: &Vec<char>, from: usize) -> (r: Option<(String, usize)>)
    requires
        from <= v.len(),
    ensures
        match r {
            Some((key, end)) => from < end <= v.len() && quoted_key(v@.skip(from as int)) == Some(
                (key@, end - from),
            ),
            None => quoted_key(v@.skip(from as int)) is None,
        },
{
    let ghost s = v@.skip(from as int);
    let mut key = String::new();
    let mut i: usize = from;
    proof {
        assert(s.skip(0) =~= s);
        assert(quoted_key(s) == key_after(key@, 0, quoted_key(s.skip(0)))) by {
            match quoted_key(s) {
                Some((k, n)) => {
                    assert(Seq::<char>::empty() + k =~= k);
                },
                None => {},
            }
        }
    }
    loop
        invariant
            from <= i <= v.len(),
            s == v@.skip(from as int),
            quoted_key(s) == key_after(key@, i - from, quoted_key(s.skip(i - from))),
        decreases v.len() - i,
    {
        let ghost t = s.skip(i - from);
        let ghost acc = key@;
        if i >= v.len() {
            assert(t.len() == 0);
            return None;
        }
        let c = v[i];
        assert(t[0] == c);
        if c == '"' {
            proof {
                assert(acc + Seq::<char>::empty() =~= acc);
            }
            return Some((key, i + 1));
        }
        if c == '\\' {
            if i + 1 >= v.len() {
                return None;
            }
            let d = v[i + 1];
            key.push(d);
            proof {
                assert(t[1] == d);
                assert(t.skip(2) =~= s.skip(i + 2 - from));
                match quoted_key(t.skip(2)) {
                    Some((k, n)) => {
                        assert(acc + (seq![d] + k) =~= acc.push(d) + k);
                    },
                    None => {},
                }
            }
            i += 2;
        } else {
            key.push(c);
            proof {
                assert(t.skip(1) =~= s.skip(i + 1 - from));
                match quoted_key(t.skip(1)) {
                    Some((k, n)) => {
                        assert(acc + (seq![c] + k) =~= acc.push(c) + k);
                    },
                    None => {},
                }
            }
            i += 1;
        }
    }
}

/// The steps read so far in front of what the rest spells.
pub open spec fn steps_after(done: Seq<Segment>, rest: Result<Seq<Segment>, Seq<char>>) -> Result<
    Seq<Segment>,
    Seq<char>,
> {
    match rest {
        Ok(segs) => Ok(done + segs),
        Err(m) => Err(m),
    }
}

/// One more step read.
pub proof fn lemma_steps_after_push(
    done: Seq<Segment>,
    first: Segment,
    rest: Result<Seq<Segment>, Seq<char>>,
)
    ensures
        steps_after(done, with_first(first, rest)) == steps_after(done.push(first), rest),
{
    match rest {
        Ok(segs) => {
            assert(done + (seq![first] + segs) =~= done.push(first) + segs);
        },
        Err(m) => {},
    }
}

/// Parses a path such as `$.users[0].name` into its steps. `$` alone is the
/// root and has no steps.
pub fn parse_path_segments(path: &str) -> (r: Result<Vec<PathSegment>, JsonError>)
    ensures
        match r {
            Ok(segs) => parsed_path(path@) == Ok::<Seq<Segment>, Seq<char>>(segments_view(segs@)),
            Err(e) => e@ == JsonFault::Other(parsed_path(path@)->Err_0) && parsed_path(path@) is Err,
        },
{
    let v = str_chars(path);
    if v.len() == 0 || v[0] != '$' {
        return Err(JsonError::Other(path_error("Path must start with '$': ", path)));
    }
    let ghost whole = path@;
    let n = v.len();
    let mut segs: Vec<PathSegment> = Vec::new();
    let mut i: usize = 1;
    proof {
        assert(segments_view(segs@) =~= Seq::<Segment>::empty());
        match segments_from(whole, whole.skip(1)) {
            Ok(s) => {
                assert(Seq::<Segment>::empty() + s =~= s);
            },
            Err(m) => {},
        }
    }
    while i < n
        invariant
            1 <= i <= n,
            n == v.len(),
            v@ == whole,
            whole == path@,
            parsed_path(whole) == steps_after(
                segments_view(segs@),
                segments_from(whole, whole.skip(i as int)),
            ),
        decreases n - i,
    {
        let ghost rest = whole.skip(i as int);
        let ghost done = segments_view(segs@);
        assert(rest[0] == v@[i as int]);
        let c = v[i];
        if c == '.' {
            let start = i + 1;
            let mut end = start;
            while end < n && v[end] != '.' && v[end] != '['
                invariant
                    start <= end <= n,
                    n == v.len(),
                    forall|j: int| start <= j < end ==> v@[j] != '.' && v@[j] != '[',
                decreases n - end,
            {
                end += 1;
            }
            let ghost body = rest.skip(1);
            proof {
                assert(body =~= whole.skip(start as int));
                assert forall|j: int| 0 <= j < end - start implies body[j] != '.' && body[j]
                    != '[' by {
                    assert(body[j] == v@[start + j]);
                }
                if end < n {
                    assert(body[end - start] == v@[end as int]);
                }
                lemma_key_run_unique(body, end - start);
            }
            if end == start {
                return Err(JsonError::Other(path_error("Empty key segment in path: ", path)));
            }
            let key = chars_string(&v, start, end);
            let seg = PathSegment::Key(key);
            proof {
                assert(v@.subrange(start as int, end as int) =~= body.take(end - start));
                assert(body.skip(end - start) =~= whole.skip(end as int));
                lemma_steps_after_push(done, seg@, segments_from(whole, whole.skip(end as int)));
                assert(segments_view(segs@.push(seg)) =~= done.push(seg@));
            }
            segs.push(seg);
            i = end;
        } else if c == '[' {
            let start = i + 1;
            let ghost body = rest.skip(1);
            proof {
                assert(body =~= whole.skip(start as int));
            }
            if start < n && v[start] == '"' {
                assert(body[0] == v@[start as int]);
                proof {
                    assert(body.skip(1) =~= v@.skip(start + 1));
                }
                match read_quoted_key(&v, start + 1) {
                    None => {
                        return Err(
                            JsonError::Other(path_error("Invalid quoted key in path: ", path)),
                        );
                    },
                    Some((key, end)) => {
                        let ghost used = end - (start + 1);
                        if end < n && v[end] == ']' {
                            assert(body[1 + used] == v@[end as int]);
                            let seg = PathSegment::Key(key);
                            proof {
                                assert(body.skip(used + 2) =~= whole.skip(end + 1));
                                lemma_steps_after_push(
                                    done,
                                    seg@,
                                    segments_from(whole, whole.skip(end + 1)),
                                );
                                assert(segments_view(segs@.push(seg)) =~= done.push(seg@));
                            }
                            segs.push(seg);
                            i = end + 1;
                        } else {
                            proof {
                                if end < n {
                                    assert(body[1 + used] == v@[end as int]);
                                }
                            }
                            return Err(
                                JsonError::Other(
                                    path_error("Invalid quoted key in path: ", path),
                                ),
                            );
                        }
                    },
                }
            } else {
                let end = scan_forward(&v, start, n, CharClass::Digit);
                proof {
                    assert(v@.subrange(start as int, n as int) =~= body);
                    lemma_leading(body, CharClass::Digit);
                    assert(v@.subrange(start as int, end as int) =~= body.take(end - start));
                    assert forall|j: int| 0 <= j < end - start implies is_digit(
                        #[trigger] body.take(end - start)[j],
                    ) by {
                        assert(CharClass::Digit.holds(body[j]));
                    }
                    if end < n {
                        assert(body[end - start] == v@[end as int]);
                    }
                }
                if end == start || end >= n || v[end] != ']' {
                    return Err(JsonError::Other(bad_index_error(&v, start, path)));
                }
                match parse_decimal(&v, start, end) {
                    None => {
                        return Err(JsonError::Other(bad_index_error(&v, start, path)));
                    },
                    Some(index) => {
                        let seg = PathSegment::Index(index);
                        proof {
                            assert(body.skip(end - start + 1) =~= whole.skip(end + 1));
                            lemma_steps_after_push(
                                done,
                                seg@,
                                segments_from(whole, whole.skip(end + 1)),
                            );
                            assert(segments_view(segs@.push(seg)) =~= done.push(seg@));
                        }
                        segs.push(seg);
                        i = end + 1;
                    },
                }
            }
        } else {
            return Err(JsonError::Other(bad_char_error(c, path)));
        }
    }
    proof {
        assert(whole.skip(n as int) =~= Seq::<char>::empty());
        assert(segments_view(segs@) + Seq::<Segment>::empty() =~= segments_view(segs@));
    }
    Ok(segs)
}

// ---------------------------------------------------------------------------
// Writing paths
// ---------------------------------------------------------------------------

/// A key that can stand behind a dot: not empty, and free of `.`, `[` and
/// the space.
pub open spec fn plain_key(key: Seq<char>) -> bool {
    key.len() > 0 && forall|i: int|
        0 <= i < key.len() ==> #[trigger] key[i] != '.' && key[i] != '[' && key[i] != ' '
}

/// The characters of a key as they stand between quotes: `"` and `\` behind
/// a backslash, every other character as it is.
pub open spec fn quote_key(key: Seq<char>) -> Seq<char>
    decreases key.len(),
{
    if key.len() == 0 {
        Seq::empty()
    } else if key[0] == '"' || key[0] == '\\' {
        seq!['\\', key[0]] + quote_key(key.skip(1))
    } else {
        seq![key[0]] + quote_key(key.skip(1))
    }
}

/// The step into the member with the key `key`: `.key` for a plain key,
/// else `["key"]`.
pub open spec fn key_step(key: Seq<char>) -> Seq<char> {
    if plain_key(key) {
        seq!['.'] + key
    } else {
        seq!['[', '"'] + quote_key(key) + seq!['"', ']']
    }
}

/// The step into the item at `index`: `[index]`.
pub open spec fn index_step(index: nat) -> Seq<char> {
    seq!['['] + decimal(index) + seq![']']
}

/// The text of one step.
pub open spec fn step_text(seg: Segment) -> Seq<char> {
    match seg {
        Segment::Key(k) => key_step(k),
        Segment::Index(i) => index_step(i),
    }
}

/// The text of the steps, one after the other.
pub open spec fn steps_text(segs: Seq<Segment>) -> Seq<char>
    decreases segs.len(),
{
    if segs.len() == 0 {
        Seq::empty()
    } else {
        step_text(segs[0]) + steps_text(segs.skip(1))
    }
}

/// The text of the path with these steps.
pub open spec fn path_text(segs: Seq<Segment>) -> Seq<char> {
    seq!['$'] + steps_text(segs)
}

/// The path `path` with one more step, into the member with the key `key`.
pub fn member_path(path: &str, key: &str) -> (r: String)
    ensures
        r@ == path@ + key_step(key@),
{
    let v = str_chars(key);
    let mut plain = v.len() > 0;
    let mut i: usize = 0;
    while i < v.len()
        invariant
            i <= v.len(),
            plain == (v.len() > 0 && forall|j: int|
                0 <= j < i ==> #[trigger] v@[j] != '.' && v@[j] != '[' && v@[j] != ' '),
        decreases v.len() - i,
    {
        if v[i] == '.' || v[i] == '[' || v[i] == ' ' {
            plain = false;
        }
        i += 1;
    }
    let mut r = path.to_owned();
    if plain {
        r.push('.');
        r.append(key);
        assert(r@ =~= path@ + key_step(key@));
        return r;
    }
    r.push('[');
    r.push('"');
    let mut body = String::new();
    let mut j: usize = 0;
    proof {
        assert(v@.skip(0) =~= v@);
        assert(body@ + quote_key(v@.skip(0)) =~= quote_key(v@));
    }
    while j < v.len()
        invariant
            j <= v.len(),
            body@ + quote_key(v@.skip(j as int)) == quote_key(v@),
        decreases v.len() - j,
    {
        let ghost before = body@;
        let ghost rest = v@.skip(j as int);
        let c = v[j];
        proof {
            assert(rest[0] == c);
            assert(rest.skip(1) =~= v@.skip(j + 1));
        }
        if c == '"' || c == '\\' {
            body.push('\\');
            body.push(c);
            assert(body@ + quote_key(v@.skip(j + 1)) =~= before + (seq!['\\', c] + quote_key(
                rest.skip(1),
            )));
        } else {
            body.push(c);
            assert(body@ + quote_key(v@.skip(j + 1)) =~= before + (seq![c] + quote_key(
                rest.skip(1),
            )));
        }
        j += 1;
    }
    proof {
        assert(v@.skip(v@.len() as int) =~= Seq::<char>::empty());
        assert(body@ + Seq::<char>::empty() =~= body@);
    }
    r.append(body.as_str());
    r.push('"');
    r.push(']');
    assert(r@ =~= path@ + key_step(key@));
    r
}

/// The path `path` with one more step, into the item at `index`.
pub fn item_path(path: &str, index: usize) -> (r: String)
    ensures
        r@ == path@ + index_step(index as nat),
{
    let mut r = path.to_owned();
    r.push('[');
    push_decimal(&mut r, index as u128);
    r.push(']');
    assert(r@ =~= path@ + index_step(index as nat));
    r
}

// ---------------------------------------------------------------------------
// Anchors
// ---------------------------------------------------------------------------

/// The position of the last `c` in `s`, or -1 where there is none.
pub open spec fn last_index(s: Seq<char>, c: char) -> int
    decreases s.len(),
{
    if s.len() == 0 {
        -1
    } else if s.last() == c {
        s.len() - 1
    } else {
        last_index(s.drop_last(), c)
    }
}

/// The message for an anchor without a colon.
pub open spec fn missing_colon_message(anchor: Seq<char>) -> Seq<char> {
    "Invalid anchor format, missing ':': "@ + anchor
}

/// The message for an anchor whose hash is not 1 to 16 digits or letters.
pub open spec fn bad_hash_message(anchor: Seq<char>) -> Seq<char> {
    "Invalid hash format in anchor (must be 1-16 alphanumeric chars): "@ + anchor
}

/// The path and the hash of an anchor `PATH:HASH`, cut at its last colon; the
/// hash is 1 to 16 digits or letters.
pub open spec fn parsed_json_anchor(anchor: Seq<char>) -> Result<(Seq<char>, Seq<char>), Seq<char>> {
    let k = last_index(anchor, ':');
    if k < 0 {
        Err(missing_colon_message(anchor))
    } else {
        let hash = anchor.skip(k + 1);
        if 1 <= hash.len() <= 16 && all_alnum(hash) {
            Ok((anchor.take(k), hash))
        } else {
            Err(bad_hash_message(anchor))
        }
    }
}

/// The last position of `c` is in range and holds `c`, and nothing behind it
/// does.
pub proof fn lemma_last_index(s: Seq<char>, c: char)
    ensures
        -1 <= last_index(s, c) < s.len(),
        last_index(s, c) >= 0 ==> s[last_index(s, c)] == c,
        forall|j: int| last_index(s, c) < j < s.len() ==> s[j] != c,
    decreases s.len(),
{
    if s.len() == 0 {
    } else if s.last() == c {
    } else {
        lemma_last_index(s.drop_last(), c);
        assert forall|j: int| last_index(s, c) < j < s.len() implies s[j] != c by {
            if j < s.len() - 1 {
                assert(s.drop_last()[j] == s[j]);
            }
        }
        if last_index(s, c) >= 0 {
            assert(s.drop_last()[last_index(s, c)] == s[last_index(s, c)]);
        }
    }
}

/// The position with the properties of `lemma_last_index` is `last_index`.
pub proof fn lemma_last_index_unique(s: Seq<char>, c: char, k: int)
    requires
        -1 <= k < s.len(),
        k >= 0 ==> s[k] == c,
        forall|j: int| k < j < s.len() ==> s[j] != c,
    ensures
        last_index(s, c) == k,
{
    lemma_last_index(s, c);
    let f = last_index(s, c);
    if f < k {
        assert(s[k] == c);
    } else if k < f {
        assert(s[f] == c);
    }
}

/// Cuts an anchor `PATH:HASH` at its last colon.
pub fn parse_anchor(anchor: &str) -> (r: Result<(String, String), JsonError>)
    ensures
        match r {
            Ok((path, hash)) => parsed_json_anchor(anchor@) == Ok::<
                (Seq<char>, Seq<char>),
                Seq<char>,
            >((path@, hash@)),
            Err(e) => parsed_json_anchor(anchor@) is Err && e@ == JsonFault::Other(
                parsed_json_anchor(anchor@)->Err_0,
            ),
        },
{
    let v = str_chars(anchor);
    let n = v.len();
    let mut i: usize = n;
    while i > 0 && v[i - 1] != ':'
        invariant
            i <= n,
            n == v.len(),
            forall|j: int| i <= j < n ==> v@[j] != ':',
        decreases i,
    {
        i -= 1;
    }
    proof {
        lemma_last_index_unique(v@, ':', i - 1);
    }
    if i == 0 {
        return Err(JsonError::Other(path_error("Invalid anchor format, missing ':': ", anchor)));
    }
    let end = scan_forward(&v, i, n, CharClass::Alnum);
    proof {
        let hash = v@.skip(i as int);
        assert(v@.subrange(i as int, n as int) =~= hash);
        lemma_leading(hash, CharClass::Alnum);
        if end == n {
            assert forall|j: int| 0 <= j < hash.len() implies is_alnum(#[trigger] hash[j]) by {
                assert(CharClass::Alnum.holds(hash[j]));
            }
        } else {
            assert(!CharClass::Alnum.holds(hash[end - i]));
        }
    }
    if end == n && n - i >= 1 && n - i <= 16 {
        let path = chars_string(&v, 0, i - 1);
        let hash = chars_string(&v, i, n);
        proof {
            assert(v@.subrange(0, i - 1) =~= v@.take(i - 1));
            assert(v@.subrange(i as int, n as int) =~= v@.skip(i as int));
        }
        Ok((path, hash))
    } else {
        Err(
            JsonError::Other(
                path_error(
                    "Invalid hash format in anchor (must be 1-16 alphanumeric chars): ",
                    anchor,
                ),
            ),
        )
    }
}

} // verus!
