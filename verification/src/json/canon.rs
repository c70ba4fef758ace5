//! The canonical form of a JSON value and its hash.
//!
//! The canonical form has no insignificant whitespace, writes the members of
//! an object in the order of their keys, and escapes strings in one fixed
//! way. Its UTF-8 bytes are hashed like a line of text.

use crate::hash::{bytes_hash, hash_text, hex_char};
use crate::json::value::{lemma_array_view, lemma_object_view, members_view, values_view, Json, JsonValue};
use crate::text::{join, str_chars};
use vstd::prelude::*;
use vstd::utf8::encode_utf8;

verus! {

// ---------------------------------------------------------------------------
// Strings
// ---------------------------------------------------------------------------

/// How one character of a string is written: the short escapes for `"`,
/// `\`, line feed, carriage return, tab, backspace and form feed; `\u00XX`
/// for the other characters below U+0020; every other character as it is.
pub open spec fn escape_char(c: char) -> Seq<char> {
    if c == '"' {
        seq!['\\', '"']
    } else if c == '\\' {
        seq!['\\', '\\']
    } else if c == '\n' {
        seq!['\\', 'n']
    } else if c == '\r' {
        seq!['\\', 'r']
    } else if c == '\t' {
        seq!['\\', 't']
    } else if c as u32 == 0x08 {
        seq!['\\', 'b']
    } else if c as u32 == 0x0c {
        seq!['\\', 'f']
    } else if (c as u32) < 0x20 {
        seq!['\\', 'u', '0', '0', hex_char((c as u32) as int / 16), hex_char((c as u32) as int % 16)]
    } else {
        seq![c]
    }
}

/// The characters of `s`, each as it is written inside a string.
pub open spec fn escaped(s: Seq<char>) -> Seq<char>
    decreases s.len(),
{
    if s.len() == 0 {
        Seq::empty()
    } else {
        escaped(s.drop_last()) + escape_char(s.last())
    }
}

/// `s` as a JSON string: escaped, between double quotes.
pub open spec fn quoted(s: Seq<char>) -> Seq<char> {
    seq!['"'] + escaped(s) + seq!['"']
}

fn hex_digit(d: u32) -> (c: char)
    requires
        d < 16,
    ensures
        c == hex_char(d as int),
{
    if d < 10 {
        (48u8 + d as u8) as char
    } else {
        (97u8 + (d as u8 - 10)) as char
    }
}

/// Appends `s` as a JSON string.
pub fn push_quoted(out: &mut String, s: &str)
    ensures
        final(out)@ == old(out)@ + quoted(s@),
{
    out.push('"');
    assert(out@ =~= old(out)@ + seq!['"'] + escaped(s@.take(0)));
    for c in it: s.chars()
        invariant
            it.seq() == s@,
            out@ == old(out)@ + seq!['"'] + escaped(s@.take(it.index() as int)),
    {
        let ghost i = it.index() as int;
        let ghost before = out@;
        proof {
            assert(s@.take(i + 1).drop_last() =~= s@.take(i));
            assert(s@.take(i + 1).last() == c);
        }
        let v: u32 = c as u32;
        if c == '"' {
            out.push('\\');
            out.push('"');
        } else if c == '\\' {
            out.push('\\');
            out.push('\\');
        } else if c == '\n' {
            out.push('\\');
            out.push('n');
        } else if c == '\r' {
            out.push('\\');
            out.push('r');
        } else if c == '\t' {
            out.push('\\');
            out.push('t');
        } else if v == 0x08 {
            out.push('\\');
            out.push('b');
        } else if v == 0x0c {
            out.push('\\');
            out.push('f');
        } else if v < 0x20 {
            out.push('\\');
            out.push('u');
            out.push('0');
            out.push('0');
            out.push(hex_digit(v / 16));
            out.push(hex_digit(v % 16));
        } else {
            out.push(c);
        }
        assert(out@ =~= before + escape_char(c));
        assert(out@ =~= old(out)@ + seq!['"'] + escaped(s@.take(i + 1)));
    }
    out.push('"');
    proof {
        assert(s@.take(s@.len() as int) =~= s@);
        assert(out@ =~= old(out)@ + quoted(s@));
    }
}

// ---------------------------------------------------------------------------
// The order of keys
// ---------------------------------------------------------------------------

/// `a` comes before `b` in the order of the dictionary, character by
/// character.
pub open spec fn lex_lt(a: Seq<char>, b: Seq<char>) -> bool
    decreases a.len(),
{
    if b.len() == 0 {
        false
    } else if a.len() == 0 {
        true
    } else if a[0] != b[0] {
        a[0] < b[0]
    } else {
        lex_lt(a.skip(1), b.skip(1))
    }
}

/// The key at place `i` is written before the key at place `j`: it comes
/// first in the dictionary, or is the same key at an earlier place.
pub open spec fn key_before(keys: Seq<Seq<char>>, i: int, j: int) -> bool {
    lex_lt(keys[i], keys[j]) || (keys[i] == keys[j] && i < j)
}

/// Where place `k` goes among the places `order`: before the first place
/// whose key it is written before.
pub open spec fn rank_position(keys: Seq<Seq<char>>, order: Seq<int>, k: int) -> int
    decreases order.len(),
{
    if order.len() == 0 || key_before(keys, k, order[0]) {
        0
    } else {
        1 + rank_position(keys, order.skip(1), k)
    }
}

/// The first `n` places in the order in which their keys are written.
pub open spec fn key_order(keys: Seq<Seq<char>>, n: int) -> Seq<int>
    decreases n,
{
    if n <= 0 {
        Seq::empty()
    } else {
        let order = key_order(keys, n - 1);
        order.insert(rank_position(keys, order, n - 1), n - 1)
    }
}

/// The keys of the members.
pub open spec fn keys_of(members: Seq<(Seq<char>, Json)>) -> Seq<Seq<char>> {
    Seq::new(members.len(), |i: int| members[i].0)
}

/// A rank is in range; the place goes before no place in front of its rank,
/// and before the place at its rank.
pub proof fn lemma_rank_position(keys: Seq<Seq<char>>, order: Seq<int>, k: int)
    ensures
        0 <= rank_position(keys, order, k) <= order.len(),
        forall|j: int|
            0 <= j < rank_position(keys, order, k) ==> !key_before(keys, k, #[trigger] order[j]),
        rank_position(keys, order, k) < order.len() ==> key_before(
            keys,
            k,
            order[rank_position(keys, order, k)],
        ),
    decreases order.len(),
{
    if order.len() == 0 || key_before(keys, k, order[0]) {
    } else {
        let rest = order.skip(1);
        lemma_rank_position(keys, rest, k);
        let r = rank_position(keys, rest, k);
        assert forall|j: int| 0 <= j < 1 + r implies !key_before(keys, k, #[trigger] order[j]) by {
            if j > 0 {
                assert(rest[j - 1] == order[j]);
            }
        }
        if r < rest.len() {
            assert(rest[r] == order[r + 1]);
        }
    }
}

/// The rank with the properties of `lemma_rank_position` is `rank_position`.
pub proof fn lemma_rank_position_unique(keys: Seq<Seq<char>>, order: Seq<int>, k: int, r: int)
    requires
        0 <= r <= order.len(),
        forall|j: int| 0 <= j < r ==> !key_before(keys, k, #[trigger] order[j]),
        r < order.len() ==> key_before(keys, k, order[r]),
    ensures
        rank_position(keys, order, k) == r,
{
    lemma_rank_position(keys, order, k);
    let f = rank_position(keys, order, k);
    if f < r {
        assert(!key_before(keys, k, order[f]));
    } else if r < f {
        assert(!key_before(keys, k, order[r]));
    }
}

/// The order of `n` places holds `n` places, each below `n`.
pub proof fn lemma_key_order(keys: Seq<Seq<char>>, n: int)
    requires
        0 <= n,
    ensures
        key_order(keys, n).len() == n,
        forall|r: int| 0 <= r < n ==> 0 <= #[trigger] key_order(keys, n)[r] < n,
    decreases n,
{
    if n > 0 {
        lemma_key_order(keys, n - 1);
        let order = key_order(keys, n - 1);
        lemma_rank_position(keys, order, n - 1);
    }
}

/// Whether `a` comes before `b` in the order of the dictionary.
pub fn chars_less(a: &Vec<char>, b: &Vec<char>) -> (r: bool)
    ensures
        r == lex_lt(a@, b@),
{
    let mut i: usize = 0;
    assert(a@.skip(0) =~= a@);
    assert(b@.skip(0) =~= b@);
    loop
        invariant
            i <= a.len(),
            i <= b.len(),
            lex_lt(a@, b@) == lex_lt(a@.skip(i as int), b@.skip(i as int)),
        decreases a.len() - i,
    {
        if i >= b.len() {
            return false;
        }
        if i >= a.len() {
            return true;
        }
        proof {
            assert(a@.skip(i as int)[0] == a@[i as int]);
            assert(b@.skip(i as int)[0] == b@[i as int]);
            assert(a@.skip(i as int).skip(1) =~= a@.skip(i + 1));
            assert(b@.skip(i as int).skip(1) =~= b@.skip(i + 1));
        }
        if a[i] != b[i] {
            return a[i] < b[i];
        }
        i += 1;
    }
}

/// The places of the members in the order in which their keys are written.
pub fn sorted_key_order(members: &Vec<(String, JsonValue)>) -> (order: Vec<usize>)
    ensures
        order@.len() == members@.len(),
        forall|r: int| 0 <= r < order@.len() ==> (#[trigger] order@[r]) < members@.len(),
        order@.map_values(|k: usize| k as int) == key_order(
            keys_of(members_view(members@)),
            members@.len() as int,
        ),
{
    let ghost keys = keys_of(members_view(members@));
    let n = members.len();
    let mut texts: Vec<Vec<char>> = Vec::new();
    let mut i: usize = 0;
    while i < n
        invariant
            i <= n,
            n == members@.len(),
            keys == keys_of(members_view(members@)),
            texts@.len() == i,
            forall|k: int| 0 <= k < i ==> (#[trigger] texts@[k])@ == keys[k],
        decreases n - i,
    {
        texts.push(str_chars(members[i].0.as_str()));
        i += 1;
    }
    let mut order: Vec<usize> = Vec::new();
    let mut k: usize = 0;
    assert(order@.map_values(|k: usize| k as int) =~= key_order(keys, 0));
    while k < n
        invariant
            k <= n,
            n == members@.len(),
            keys == keys_of(members_view(members@)),
            texts@.len() == n,
            forall|j: int| 0 <= j < n ==> (#[trigger] texts@[j])@ == keys[j],
            order@.len() == k,
            forall|r: int| 0 <= r < order@.len() ==> (#[trigger] order@[r]) < k,
            order@.map_values(|k: usize| k as int) == key_order(keys, k as int),
        decreases n - k,
    {
        let ghost ranks = order@.map_values(|k: usize| k as int);
        let mut pos: usize = 0;
        loop
            invariant
                pos <= order@.len(),
                k < n,
                n == members@.len(),
                texts@.len() == n,
                forall|j: int| 0 <= j < n ==> (#[trigger] texts@[j])@ == keys[j],
                forall|r: int| 0 <= r < order@.len() ==> (#[trigger] order@[r]) < k,
                ranks == order@.map_values(|k: usize| k as int),
                forall|j: int| 0 <= j < pos ==> !key_before(keys, k as int, #[trigger] ranks[j]),
            ensures
                pos <= order@.len(),
                forall|j: int| 0 <= j < pos ==> !key_before(keys, k as int, #[trigger] ranks[j]),
                pos < order@.len() ==> key_before(keys, k as int, ranks[pos as int]),
            decreases order@.len() - pos,
        {
            if pos >= order.len() {
                break;
            }
            let other = order[pos];
            assert(ranks[pos as int] == other);
            let before = chars_less(&texts[k], &texts[other]);
            // A later place with the same key never goes first.
            assert(before == key_before(keys, k as int, other as int));
            if before {
                break;
            }
            pos += 1;
        }
        proof {
            lemma_rank_position_unique(keys, ranks, k as int, pos as int);
        }
        order.insert(pos, k);
        assert(order@.map_values(|k: usize| k as int) =~= ranks.insert(pos as int, k as int));
        k += 1;
    }
    order
}

// ---------------------------------------------------------------------------
// The canonical form
// ---------------------------------------------------------------------------

/// The canonical text of a value: `null`, `true`, `false`, a number as it is
/// written, a string escaped, an array as its items between brackets, an
/// object as its members between braces in the order of their keys; commas
/// between neighbours and no whitespace.
pub open spec fn canonical(j: Json) -> Seq<char>
    decreases j, 1int,
{
    match j {
        Json::Null => "null"@,
        Json::Bool(b) => if b {
            "true"@
        } else {
            "false"@
        },
        Json::Number(n) => n,
        Json::Text(s) => quoted(s),
        Json::Array(items) => seq!['['] + join(item_texts(items), ',') + seq![']'],
        Json::Object(members) => seq!['{'] + join(member_texts(members), ',') + seq!['}'],
    }
}

/// The canonical texts of the items of an array.
pub open spec fn item_texts(items: Seq<Json>) -> Seq<Seq<char>>
    decreases items, 0int,
{
    Seq::new(
        items.len(),
        |i: int|
            if 0 <= i < items.len() {
                canonical(items[i])
            } else {
                Seq::empty()
            },
    )
}

/// The canonical texts of the members of an object, in the order of their
/// keys: each key as a string, a colon, and the value.
pub open spec fn member_texts(members: Seq<(Seq<char>, Json)>) -> Seq<Seq<char>>
    decreases members, 0int,
{
    Seq::new(
        members.len(),
        |r: int|
            {
                let k = key_order(keys_of(members), members.len() as int)[r];
                if 0 <= k < members.len() {
                    quoted(members[k].0) + seq![':'] + canonical(members[k].1)
                } else {
                    Seq::empty()
                }
            },
    )
}

/// The hash of a value: the hash of the UTF-8 bytes of its canonical text.
pub open spec fn canonical_hash(j: Json) -> Seq<char> {
    bytes_hash(encode_utf8(canonical(j)))
}

/// The anchor of a value at a path: the path, a colon and the hash.
pub open spec fn json_anchor(path: Seq<char>, j: Json) -> Seq<char> {
    path + seq![':'] + canonical_hash(j)
}

/// Appends the canonical text of `v`.
#[verifier::loop_isolation(false)]
pub fn write_canonical(out: &mut String, v: &JsonValue)
    ensures
        final(out)@ == old(out)@ + canonical(v@),
    decreases v,
{
    match v {
        JsonValue::Null => {
            out.append("null");
        },
        JsonValue::Bool(b) => {
            if *b {
                out.append("true");
            } else {
                out.append("false");
            }
        },
        JsonValue::Number(n) => {
            out.append(n.as_str());
        },
        JsonValue::String(s) => {
            push_quoted(out, s.as_str());
        },
        JsonValue::Array(items) => {
            proof {
                lemma_array_view(*items);
            }
            let ghost parts = item_texts(values_view(items@));
            out.push('[');
            let mut i: usize = 0;
            assert(out@ =~= old(out)@ + seq!['['] + join(parts.take(0), ','));
            while i < items.len()
                invariant
                    i <= items.len(),
                    out@ == old(out)@ + seq!['['] + join(parts.take(i as int), ','),
                decreases items.len() - i,
            {
                if i > 0 {
                    out.push(',');
                }
                write_canonical(out, &items[i]);
                proof {
                    let next = parts.take(i + 1);
                    assert(next.drop_last() =~= parts.take(i as int));
                    assert(next.last() == canonical(items@[i as int]@));
                    if i == 0 {
                        assert(out@ =~= old(out)@ + seq!['['] + join(next, ','));
                    } else {
                        assert(out@ =~= old(out)@ + seq!['['] + join(next, ','));
                    }
                }
                i += 1;
            }
            out.push(']');
            proof {
                assert(parts.take(items@.len() as int) =~= parts);
                assert(out@ =~= old(out)@ + canonical(v@));
            }
        },
        JsonValue::Object(members) => {
            proof {
                lemma_object_view(*members);
                lemma_key_order(keys_of(members_view(members@)), members@.len() as int);
            }
            let ghost parts = member_texts(members_view(members@));
            let order = sorted_key_order(members);
            out.push('{');
            let mut r: usize = 0;
            assert(out@ =~= old(out)@ + seq!['{'] + join(parts.take(0), ','));
            while r < order.len()
                invariant
                    r <= order.len(),
                    out@ == old(out)@ + seq!['{'] + join(parts.take(r as int), ','),
                decreases order.len() - r,
            {
                if r > 0 {
                    out.push(',');
                }
                let k = order[r];
                assert(order@.map_values(|k: usize| k as int)[r as int] == k);
                push_quoted(out, members[k].0.as_str());
                out.push(':');
                write_canonical(out, &members[k].1);
                proof {
                    let next = parts.take(r + 1);
                    assert(next.drop_last() =~= parts.take(r as int));
                    assert(next.last() == quoted(members@[k as int].0@) + seq![':'] + canonical(
                        members@[k as int].1@,
                    ));
                    assert(out@ =~= old(out)@ + seq!['{'] + join(next, ','));
                }
                r += 1;
            }
            out.push('}');
            proof {
                assert(parts.take(members@.len() as int) =~= parts);
                assert(out@ =~= old(out)@ + canonical(v@));
            }
        },
    }
}

/// The canonical text of `v`.
pub fn canonical_text(v: &JsonValue) -> (r: String)
    ensures
        r@ == canonical(v@),
{
    let mut r = String::new();
    write_canonical(&mut r, v);
    assert(Seq::<char>::empty() + canonical(v@) =~= canonical(v@));
    r
}

/// The two-character hash of a value, whatever the order of the members of
/// its objects.
pub fn compute_canonical_hash(value: &JsonValue) -> (r: String)
    ensures
        r@ == canonical_hash(value@),
{
    let text = canonical_text(value);
    hash_text(text.as_str())
}

/// The anchor of `value` at `path`: `PATH:HASH`.
pub fn compute_json_anchor(path: &str, value: &JsonValue) -> (r: String)
    ensures
        r@ == json_anchor(path@, value@),
{
    let mut r = path.to_owned();
    r.push(':');
    r.append(compute_canonical_hash(value).as_str());
    assert(r@ =~= json_anchor(path@, value@));
    r
}

} // verus!
