//! What holds of the JSON engine, stated over its spec functions and proved.

use crate::json::apply::{
    edit_anchor, json_applied, path_set, staged, staged_upto, validated, validated_upto, JsonEdit,
};
use crate::json::canon::canonical_hash;
use crate::json::fault::JsonFault;
use crate::json::path::{
    lemma_key_run_unique, parsed_json_anchor, parsed_path, path_text, plain_key, quote_key,
    quoted_key, segments_from, step_text, steps_text, with_first, Segment,
};
use crate::text::{decimal, is_digit, lemma_decimal, lemma_leading_unique, CharClass};
use crate::json::tree::{
    changed, child, lemma_member_index, lemma_member_index_unique, lookup, member_index, spliced,
    updated, ChangeView,
};
use crate::json::value::{well_formed, Json};
use vstd::prelude::*;

verus! {

// ---------------------------------------------------------------------------
// A batch of one edit
// ---------------------------------------------------------------------------

/// What a batch of one edit gives: the refusal of its validation, else what
/// the edit makes of the tree.
pub proof fn lemma_single_json_edit(j: Json, edit: JsonEdit)
    ensures
        json_applied(j, seq![edit]) == match validated(j, edit) {
            Err(f) => Err::<Json, JsonFault>(f),
            Ok(_) => staged(j, edit),
        },
{
    let edits = seq![edit];
    assert(validated_upto(j, edits, 0) == Ok::<(), JsonFault>(()));
    assert(staged_upto(j, edits, 0) == Ok::<Json, JsonFault>(j));
    assert(edits[0] == edit);
}

/// An anchor whose hash is not the hash of the value at its path refuses the
/// batch with the path, the expected hash and the hash that the value has.
pub proof fn lemma_wrong_hash_refuses(
    j: Json,
    edit: JsonEdit,
    path: Seq<char>,
    expected: Seq<char>,
    node: Json,
)
    requires
        parsed_json_anchor(edit_anchor(edit)) == Ok::<(Seq<char>, Seq<char>), Seq<char>>(
            (path, expected),
        ),
        parsed_path(path) is Ok,
        lookup(j, parsed_path(path)->Ok_0, 0, parsed_path(path)->Ok_0.len() as int) == Ok::<
            Json,
            Seq<char>,
        >(node),
        canonical_hash(node) != expected,
    ensures
        json_applied(j, seq![edit]) == Err::<Json, JsonFault>(
            JsonFault::HashMismatch { path, expected, actual: canonical_hash(node) },
        ),
{
    lemma_single_json_edit(j, edit);
}

// ---------------------------------------------------------------------------
// Setting a value
// ---------------------------------------------------------------------------

/// The members with one value replaced keep their keys.
pub proof fn lemma_member_index_after_set(
    members: Seq<(Seq<char>, Json)>,
    i: int,
    value: Json,
    key: Seq<char>,
)
    requires
        0 <= i < members.len(),
    ensures
        member_index(spliced(members, i, i + 1, seq![(members[i].0, value)]), key) == member_index(
            members,
            key,
        ),
        spliced(members, i, i + 1, seq![(members[i].0, value)]).len() == members.len(),
        spliced(members, i, i + 1, seq![(members[i].0, value)])[i] == (members[i].0, value),
        forall|k: int|
            0 <= k < members.len() && k != i ==> #[trigger] spliced(
                members,
                i,
                i + 1,
                seq![(members[i].0, value)],
            )[k] == members[k],
{
    let after = spliced(members, i, i + 1, seq![(members[i].0, value)]);
    lemma_member_index(members, key);
    let f = member_index(members, key);
    assert forall|k: int| 0 <= k < f implies after[k].0 != key by {
        assert(members[k].0 != key);
    }
    lemma_member_index_unique(after, key, f);
}

/// The value that a path leads to, after a change was made at the end of
/// that path, is the changed value.
pub proof fn lemma_lookup_updated(j: Json, segs: Seq<Segment>, at: int, upto: int, change: ChangeView)
    requires
        0 <= at <= upto <= segs.len(),
        updated(j, segs, at, upto, change) is Ok,
    ensures
        lookup(j, segs, at, upto) is Ok,
        changed(lookup(j, segs, at, upto)->Ok_0, change) is Ok,
        lookup(updated(j, segs, at, upto, change)->Ok_0, segs, at, upto) == changed(
            lookup(j, segs, at, upto)->Ok_0,
            change,
        ),
    decreases upto - at,
{
    if at < upto {
        match segs[at] {
            Segment::Key(k) => {
                let members = j->Object_0;
                let i = member_index(members, k);
                lemma_member_index(members, k);
                lemma_lookup_updated(members[i].1, segs, at + 1, upto, change);
                let c = updated(members[i].1, segs, at + 1, upto, change)->Ok_0;
                lemma_member_index_after_set(members, i, c, k);
            },
            Segment::Index(n) => {
                let items = j->Array_0;
                lemma_lookup_updated(items[n as int], segs, at + 1, upto, change);
            },
        }
    }
}

/// After a value is set at a path, the path leads to that value.
pub proof fn lemma_set_then_lookup(j: Json, segs: Seq<Segment>, value: Json)
    requires
        path_set(j, segs, value) is Ok,
    ensures
        lookup(path_set(j, segs, value)->Ok_0, segs, 0, segs.len() as int) == Ok::<Json, Seq<char>>(
            value,
        ),
{
    let n = segs.len() as int;
    if n > 0 {
        let change = match segs.last() {
            Segment::Key(k) => ChangeView::SetMember(k, value),
            Segment::Index(i) => ChangeView::SetItem(i, value),
        };
        lemma_lookup_updated(j, segs, 0, n - 1, change);
        let after = path_set(j, segs, value)->Ok_0;
        let parent = lookup(j, segs, 0, n - 1)->Ok_0;
        lemma_lookup_split(after, segs, 0, n - 1);
        match segs.last() {
            Segment::Key(k) => {
                let members = parent->Object_0;
                let i = member_index(members, k);
                lemma_member_index(members, k);
                assert(members[i].0 == k);
                lemma_member_index_after_set(members, i, value, k);
            },
            Segment::Index(i) => {},
        }
    }
}

/// Looking up a path is looking up all but its last step and then taking
/// that step.
pub proof fn lemma_lookup_split(j: Json, segs: Seq<Segment>, at: int, upto: int)
    requires
        0 <= at <= upto < segs.len(),
    ensures
        lookup(j, segs, at, upto + 1) == match lookup(j, segs, at, upto) {
            Ok(parent) => child(parent, segs[upto], upto),
            Err(m) => Err(m),
        },
    decreases upto - at,
{
    if at < upto {
        match child(j, segs[at], at) {
            Ok(c) => {
                lemma_lookup_split(c, segs, at + 1, upto);
            },
            Err(m) => {},
        }
    } else {
        match child(j, segs[at], at) {
            Ok(c) => {
                assert(lookup(c, segs, at + 1, upto + 1) == Ok::<Json, Seq<char>>(c));
            },
            Err(m) => {},
        }
    }
}

/// A `set_path` whose anchor fits puts its value at the path: the batch
/// gives a tree in which the path leads to the new value.
pub proof fn lemma_set_path_fits(
    j: Json,
    edit: JsonEdit,
    path: Seq<char>,
    node: Json,
)
    requires
        edit is SetPath,
        parsed_json_anchor(edit_anchor(edit)) == Ok::<(Seq<char>, Seq<char>), Seq<char>>(
            (path, canonical_hash(node)),
        ),
        parsed_path(path) is Ok,
        lookup(j, parsed_path(path)->Ok_0, 0, parsed_path(path)->Ok_0.len() as int) == Ok::<
            Json,
            Seq<char>,
        >(node),
        path_set(j, parsed_path(path)->Ok_0, edit->set_path.value@) is Ok,
    ensures
        json_applied(j, seq![edit]) is Ok,
        lookup(
            json_applied(j, seq![edit])->Ok_0,
            parsed_path(path)->Ok_0,
            0,
            parsed_path(path)->Ok_0.len() as int,
        ) == Ok::<Json, Seq<char>>(edit->set_path.value@),
{
    lemma_single_json_edit(j, edit);
    lemma_set_then_lookup(j, parsed_path(path)->Ok_0, edit->set_path.value@);
}

// ---------------------------------------------------------------------------
// What a change leaves alone
// ---------------------------------------------------------------------------

/// The two paths part at step `p`: they agree before it and differ at it.
pub open spec fn part_at(a: Seq<Segment>, b: Seq<Segment>, p: int) -> bool {
    &&& 0 <= p < a.len()
    &&& p < b.len()
    &&& a[p] != b[p]
    &&& forall|q: int| 0 <= q < p ==> a[q] == b[q]
}

/// Paths that agree on the steps `at` to `upto` lead to the same value.
pub proof fn lemma_lookup_same_steps(j: Json, a: Seq<Segment>, b: Seq<Segment>, at: int, upto: int)
    requires
        0 <= at <= upto,
        upto <= a.len(),
        upto <= b.len(),
        forall|q: int| at <= q < upto ==> a[q] == b[q],
    ensures
        lookup(j, a, at, upto) == lookup(j, b, at, upto),
    decreases upto - at,
{
    if at < upto {
        assert(a[at] == b[at]);
        match child(j, a[at], at) {
            Ok(c) => {
                lemma_lookup_same_steps(c, a, b, at + 1, upto);
            },
            Err(m) => {},
        }
    }
}

/// Looking up a path is looking up a part of it and going on from there.
pub proof fn lemma_lookup_compose(j: Json, segs: Seq<Segment>, at: int, mid: int, upto: int)
    requires
        0 <= at <= mid <= upto <= segs.len(),
    ensures
        lookup(j, segs, at, upto) == match lookup(j, segs, at, mid) {
            Ok(node) => lookup(node, segs, mid, upto),
            Err(m) => Err(m),
        },
    decreases mid - at,
{
    if at < mid {
        match child(j, segs[at], at) {
            Ok(c) => {
                lemma_lookup_compose(c, segs, at + 1, mid, upto);
            },
            Err(m) => {},
        }
    }
}

/// A step into another member or item than the one that was replaced leads
/// where it led before.
pub proof fn lemma_child_beside(j: Json, taken: Segment, other: Segment, c: Json, at: int)
    requires
        taken != other,
        child(j, taken, at) is Ok,
    ensures
        child(
            match taken {
                Segment::Key(k) => Json::Object(
                    spliced(
                        j->Object_0,
                        member_index(j->Object_0, k),
                        member_index(j->Object_0, k) + 1,
                        seq![(j->Object_0[member_index(j->Object_0, k)].0, c)],
                    ),
                ),
                Segment::Index(n) => Json::Array(
                    spliced(j->Array_0, n as int, n as int + 1, seq![c]),
                ),
            },
            other,
            at,
        ) == child(j, other, at),
{
    match taken {
        Segment::Key(k) => {
            let members = j->Object_0;
            let i = member_index(members, k);
            lemma_member_index(members, k);
            match other {
                Segment::Key(k2) => {
                    lemma_member_index_after_set(members, i, c, k2);
                    lemma_member_index(members, k2);
                },
                Segment::Index(n2) => {},
            }
        },
        Segment::Index(n) => {
            let items = j->Array_0;
            let after = spliced(items, n as int, n as int + 1, seq![c]);
            match other {
                Segment::Key(k2) => {},
                Segment::Index(n2) => {
                    if n2 < items.len() {
                        assert(after[n2 as int] == items[n2 as int]);
                    }
                },
            }
        },
    }
}

/// A change made along one path leaves the values alone that a path leads
/// to which parts from it before the changed value is reached.
pub proof fn lemma_updated_frame(
    j: Json,
    segs: Seq<Segment>,
    other: Seq<Segment>,
    at: int,
    upto: int,
    change: ChangeView,
    p: int,
)
    requires
        0 <= at <= p < upto <= segs.len(),
        p < other.len(),
        forall|q: int| at <= q < p ==> segs[q] == other[q],
        segs[p] != other[p],
        updated(j, segs, at, upto, change) is Ok,
    ensures
        lookup(updated(j, segs, at, upto, change)->Ok_0, other, at, other.len() as int) == lookup(
            j,
            other,
            at,
            other.len() as int,
        ),
    decreases p - at,
{
    let after = updated(j, segs, at, upto, change)->Ok_0;
    let step = segs[at];
    let inner = match step {
        Segment::Key(k) => j->Object_0[member_index(j->Object_0, k)].1,
        Segment::Index(n) => j->Array_0[n as int],
    };
    let c = updated(inner, segs, at + 1, upto, change)->Ok_0;
    match step {
        Segment::Key(k) => {
            lemma_member_index(j->Object_0, k);
        },
        Segment::Index(n) => {},
    }
    assert(child(j, step, at) == Ok::<Json, Seq<char>>(inner));
    if at < p {
        assert(other[at] == step);
        lemma_updated_frame(inner, segs, other, at + 1, upto, change, p);
        match step {
            Segment::Key(k) => {
                lemma_member_index_after_set(j->Object_0, member_index(j->Object_0, k), c, k);
            },
            Segment::Index(n) => {},
        }
        assert(child(after, step, at) == Ok::<Json, Seq<char>>(c));
    } else {
        lemma_child_beside(j, step, other[at], c, at);
    }
}

/// Setting the value at a path changes exactly the value at that path: a
/// path that parts from it leads where it led before.
pub proof fn lemma_set_path_frame(
    j: Json,
    segs: Seq<Segment>,
    value: Json,
    other: Seq<Segment>,
    p: int,
)
    requires
        path_set(j, segs, value) is Ok,
        part_at(segs, other, p),
    ensures
        lookup(path_set(j, segs, value)->Ok_0, other, 0, other.len() as int) == lookup(
            j,
            other,
            0,
            other.len() as int,
        ),
{
    let n = segs.len() as int;
    let m = other.len() as int;
    let change = match segs.last() {
        Segment::Key(k) => ChangeView::SetMember(k, value),
        Segment::Index(i) => ChangeView::SetItem(i, value),
    };
    let after = path_set(j, segs, value)->Ok_0;
    if p < n - 1 {
        lemma_updated_frame(j, segs, other, 0, n - 1, change, p);
    } else {
        lemma_lookup_updated(j, segs, 0, n - 1, change);
        let parent = lookup(j, segs, 0, n - 1)->Ok_0;
        let new_parent = changed(parent, change)->Ok_0;
        lemma_lookup_same_steps(j, segs, other, 0, n - 1);
        lemma_lookup_same_steps(after, segs, other, 0, n - 1);
        lemma_lookup_compose(j, other, 0, n - 1, m);
        lemma_lookup_compose(after, other, 0, n - 1, m);
        assert(lookup(after, other, 0, m) == lookup(new_parent, other, n - 1, m));
        assert(lookup(j, other, 0, m) == lookup(parent, other, n - 1, m));
        match segs.last() {
            Segment::Key(k) => {
                let members = parent->Object_0;
                lemma_member_index(members, k);
                assert(child(parent, segs[n - 1], n - 1) is Ok);
                lemma_child_beside(parent, segs[n - 1], other[n - 1], value, n - 1);
            },
            Segment::Index(i) => {
                assert(child(parent, segs[n - 1], n - 1) is Ok);
                lemma_child_beside(parent, segs[n - 1], other[n - 1], value, n - 1);
            },
        }
    }
}

// ---------------------------------------------------------------------------
// Paths are read as they are written
// ---------------------------------------------------------------------------

/// The text of steps is empty or starts with `.` or `[`.
pub proof fn lemma_steps_text_start(segs: Seq<Segment>)
    ensures
        steps_text(segs).len() == 0 || steps_text(segs)[0] == '.' || steps_text(segs)[0] == '[',
        segs.len() > 0 ==> steps_text(segs).len() > 0,
    decreases segs.len(),
{
    if segs.len() > 0 {
        let first = step_text(segs[0]);
        match segs[0] {
            Segment::Key(k) => {
                if plain_key(k) {
                    assert(first[0] == '.');
                } else {
                    assert(first[0] == '[');
                }
            },
            Segment::Index(i) => {
                assert(first[0] == '[');
            },
        }
        assert(steps_text(segs)[0] == first[0]);
    }
}

/// A quoted key is read back as the key, up to the quote that follows it.
pub proof fn lemma_quoted_key_reads_back(key: Seq<char>, tail: Seq<char>)
    requires
        tail.len() > 0,
        tail[0] == '"',
    ensures
        quoted_key(quote_key(key) + tail) == Some((key, quote_key(key).len() as int + 1)),
    decreases key.len(),
{
    let text = quote_key(key) + tail;
    if key.len() == 0 {
        assert(text =~= tail);
    } else {
        let rest = key.skip(1);
        lemma_quoted_key_reads_back(rest, tail);
        if key[0] == '"' || key[0] == '\\' {
            assert(text[0] == '\\');
            assert(text[1] == key[0]);
            assert(text.skip(2) =~= quote_key(rest) + tail);
            assert(seq![key[0]] + rest =~= key);
        } else {
            assert(text[0] == key[0]);
            assert(text.skip(1) =~= quote_key(rest) + tail);
            assert(seq![key[0]] + rest =~= key);
        }
    }
}

/// One step followed by whatever steps is read back as that step, and what
/// follows is left to read.
pub proof fn lemma_step_reads_back(path: Seq<char>, seg: Segment, rest: Seq<Segment>)
    requires
        seg is Index ==> seg->Index_0 <= usize::MAX,
    ensures
        segments_from(path, step_text(seg) + steps_text(rest)) == with_first(
            seg,
            segments_from(path, steps_text(rest)),
        ),
{
    let tail = steps_text(rest);
    let text = step_text(seg) + tail;
    lemma_steps_text_start(rest);
    match seg {
        Segment::Key(k) => {
            if plain_key(k) {
                assert(text[0] == '.');
                let body = text.skip(1);
                assert(body =~= k + tail);
                assert forall|j: int| 0 <= j < k.len() implies body[j] != '.' && body[j] != '[' by {
                    assert(body[j] == k[j]);
                }
                if tail.len() > 0 {
                    assert(body[k.len() as int] == tail[0]);
                }
                lemma_key_run_unique(body, k.len() as int);
                assert(body.take(k.len() as int) =~= k);
                assert(body.skip(k.len() as int) =~= tail);
            } else {
                assert(text[0] == '[');
                let body = text.skip(1);
                let q = quote_key(k);
                let closing = seq!['"', ']'] + tail;
                assert(body =~= seq!['"'] + q + closing);
                assert(body[0] == '"');
                assert(body.skip(1) =~= q + closing);
                lemma_quoted_key_reads_back(k, closing);
                let used = q.len() as int + 1;
                assert(body[1 + used] == ']');
                assert(body.skip(used + 2) =~= tail);
            }
        },
        Segment::Index(i) => {
            assert(text[0] == '[');
            let body = text.skip(1);
            let digits = decimal(i);
            lemma_decimal(i);
            assert(body =~= digits + seq![']'] + tail);
            assert(is_digit(digits[0]));
            assert(body[0] == digits[0]);
            assert forall|j: int| 0 <= j < digits.len() implies CharClass::Digit.holds(body[j]) by {
                assert(body[j] == digits[j]);
                assert(is_digit(digits[j]));
            }
            assert(body[digits.len() as int] == ']');
            lemma_leading_unique(body, CharClass::Digit, digits.len() as int);
            assert(body.take(digits.len() as int) =~= digits);
            assert(body.skip(digits.len() as int + 1) =~= tail);
        },
    }
}

/// Steps that are written are read back as they are.
pub proof fn lemma_steps_read_back(path: Seq<char>, segs: Seq<Segment>)
    requires
        forall|i: int|
            0 <= i < segs.len() && (#[trigger] segs[i]) is Index ==> segs[i]->Index_0 <= usize::MAX,
    ensures
        segments_from(path, steps_text(segs)) == Ok::<Seq<Segment>, Seq<char>>(segs),
    decreases segs.len(),
{
    if segs.len() == 0 {
        assert(segs =~= Seq::<Segment>::empty());
    } else {
        let rest = segs.skip(1);
        assert forall|i: int| 0 <= i < rest.len() && (#[trigger] rest[i]) is Index implies rest[i]->Index_0
            <= usize::MAX by {
            assert(rest[i] == segs[i + 1]);
        }
        lemma_steps_read_back(path, rest);
        lemma_step_reads_back(path, segs[0], rest);
        assert(seq![segs[0]] + rest =~= segs);
    }
}

/// A path that is written from steps is parsed back to those steps: what
/// the display form prints for a value, the parser accepts.
pub proof fn lemma_path_round_trip(segs: Seq<Segment>)
    requires
        forall|i: int|
            0 <= i < segs.len() && (#[trigger] segs[i]) is Index ==> segs[i]->Index_0 <= usize::MAX,
    ensures
        parsed_path(path_text(segs)) == Ok::<Seq<Segment>, Seq<char>>(segs),
{
    let path = path_text(segs);
    assert(path[0] == '$');
    assert(path.skip(1) =~= steps_text(segs));
    lemma_steps_read_back(path, segs);
}

// ---------------------------------------------------------------------------
// Edits keep trees well formed
// ---------------------------------------------------------------------------

/// The values that a change carries are well formed.
pub open spec fn change_well_formed(change: ChangeView) -> bool {
    match change {
        ChangeView::Replace(v) => well_formed(v),
        ChangeView::SetMember(_, v) => well_formed(v),
        ChangeView::SetItem(_, v) => well_formed(v),
        ChangeView::Upsert(_, v) => well_formed(v),
        ChangeView::InsertItem(_, v) => well_formed(v),
        ChangeView::Append(v) => well_formed(v),
        ChangeView::RemoveMember(_) => true,
        ChangeView::RemoveItem(_) => true,
    }
}

/// The value that an edit carries is well formed.
pub open spec fn edit_well_formed(e: JsonEdit) -> bool {
    match e {
        JsonEdit::SetPath { set_path } => well_formed(set_path.value@),
        JsonEdit::InsertAtPath { insert_at_path } => well_formed(insert_at_path.value@),
        JsonEdit::DeletePath { delete_path } => true,
    }
}

/// A member put in the place of the member with its key keeps the keys
/// single and the values well formed.
pub proof fn lemma_set_member_well_formed(
    members: Seq<(Seq<char>, Json)>,
    i: int,
    key: Seq<char>,
    value: Json,
)
    requires
        well_formed(Json::Object(members)),
        0 <= i < members.len(),
        members[i].0 == key,
        well_formed(value),
    ensures
        well_formed(Json::Object(spliced(members, i, i + 1, seq![(key, value)]))),
{
    let after = spliced(members, i, i + 1, seq![(key, value)]);
    assert forall|a: int, b: int| 0 <= a < b < after.len() implies after[a].0 != after[b].0 by {
        assert(after[a].0 == members[a].0);
        assert(after[b].0 == members[b].0);
    }
    assert forall|a: int| 0 <= a < after.len() implies well_formed((#[trigger] after[a]).1) by {
        if a != i {
            assert(after[a] == members[a]);
            assert(well_formed(members[a].1));
        }
    }
}

/// A change with well-formed values makes a well-formed value of a
/// well-formed value.
pub proof fn lemma_changed_well_formed(j: Json, change: ChangeView)
    requires
        well_formed(j),
        change_well_formed(change),
        changed(j, change) is Ok,
    ensures
        well_formed(changed(j, change)->Ok_0),
{
    match change {
        ChangeView::Replace(v) => {},
        ChangeView::SetMember(k, v) => {
            let members = j->Object_0;
            lemma_member_index(members, k);
            lemma_set_member_well_formed(members, member_index(members, k), k, v);
        },
        ChangeView::SetItem(i, v) => {
            let items = j->Array_0;
            let after = spliced(items, i as int, i as int + 1, seq![v]);
            assert forall|a: int| 0 <= a < after.len() implies well_formed(#[trigger] after[a]) by {
                if a != i {
                    assert(after[a] == items[a]);
                }
            }
        },
        ChangeView::Upsert(k, v) => {
            let members = j->Object_0;
            lemma_member_index(members, k);
            if member_index(members, k) < members.len() {
                lemma_set_member_well_formed(members, member_index(members, k), k, v);
            } else {
                let after = members.push((k, v));
                assert forall|a: int, b: int| 0 <= a < b < after.len() implies after[a].0
                    != after[b].0 by {
                    assert(after[a] == members[a]);
                    if b < members.len() {
                        assert(after[b] == members[b]);
                    }
                }
                assert forall|a: int| 0 <= a < after.len() implies well_formed(
                    (#[trigger] after[a]).1,
                ) by {
                    if a < members.len() {
                        assert(after[a] == members[a]);
                        assert(well_formed(members[a].1));
                    }
                }
            }
        },
        ChangeView::InsertItem(i, v) => {
            let items = j->Array_0;
            let after = spliced(items, i as int, i as int, seq![v]);
            assert forall|a: int| 0 <= a < after.len() implies well_formed(#[trigger] after[a]) by {
                if a < i {
                    assert(after[a] == items[a]);
                } else if a > i {
                    assert(after[a] == items[a - 1]);
                }
            }
        },
        ChangeView::Append(v) => {
            let items = j->Array_0;
            let after = items.push(v);
            assert forall|a: int| 0 <= a < after.len() implies well_formed(#[trigger] after[a]) by {
                if a < items.len() {
                    assert(after[a] == items[a]);
                }
            }
        },
        ChangeView::RemoveMember(k) => {
            let members = j->Object_0;
            lemma_member_index(members, k);
            let i = member_index(members, k);
            if i < members.len() {
                let after = spliced(members, i, i + 1, Seq::empty());
                assert forall|a: int, b: int| 0 <= a < b < after.len() implies after[a].0
                    != after[b].0 by {
                    let a0 = if a < i {
                        a
                    } else {
                        a + 1
                    };
                    let b0 = if b < i {
                        b
                    } else {
                        b + 1
                    };
                    assert(after[a] == members[a0]);
                    assert(after[b] == members[b0]);
                }
                assert forall|a: int| 0 <= a < after.len() implies well_formed(
                    (#[trigger] after[a]).1,
                ) by {
                    let a0 = if a < i {
                        a
                    } else {
                        a + 1
                    };
                    assert(after[a] == members[a0]);
                    assert(well_formed(members[a0].1));
                }
            }
        },
        ChangeView::RemoveItem(i) => {
            let items = j->Array_0;
            let after = spliced(items, i as int, i as int + 1, Seq::empty());
            assert forall|a: int| 0 <= a < after.len() implies well_formed(#[trigger] after[a]) by {
                if a < i {
                    assert(after[a] == items[a]);
                } else {
                    assert(after[a] == items[a + 1]);
                }
            }
        },
    }
}

/// A change made along a path keeps a well-formed tree well formed.
pub proof fn lemma_updated_well_formed(
    j: Json,
    segs: Seq<Segment>,
    at: int,
    upto: int,
    change: ChangeView,
)
    requires
        0 <= at <= upto <= segs.len(),
        well_formed(j),
        change_well_formed(change),
        updated(j, segs, at, upto, change) is Ok,
    ensures
        well_formed(updated(j, segs, at, upto, change)->Ok_0),
    decreases upto - at,
{
    if at >= upto {
        lemma_changed_well_formed(j, change);
    } else {
        match segs[at] {
            Segment::Key(k) => {
                let members = j->Object_0;
                let i = member_index(members, k);
                lemma_member_index(members, k);
                assert(well_formed(members[i].1));
                lemma_updated_well_formed(members[i].1, segs, at + 1, upto, change);
                let c = updated(members[i].1, segs, at + 1, upto, change)->Ok_0;
                lemma_set_member_well_formed(members, i, members[i].0, c);
            },
            Segment::Index(n) => {
                let items = j->Array_0;
                assert(well_formed(items[n as int]));
                lemma_updated_well_formed(items[n as int], segs, at + 1, upto, change);
                let c = updated(items[n as int], segs, at + 1, upto, change)->Ok_0;
                let after = spliced(items, n as int, n as int + 1, seq![c]);
                assert forall|a: int| 0 <= a < after.len() implies well_formed(
                    #[trigger] after[a],
                ) by {
                    if a != n {
                        assert(after[a] == items[a]);
                    }
                }
            },
        }
    }
}

/// One edit with a well-formed value keeps a well-formed tree well formed.
pub proof fn lemma_staged_well_formed(j: Json, e: JsonEdit)
    requires
        well_formed(j),
        edit_well_formed(e),
        staged(j, e) is Ok,
    ensures
        well_formed(staged(j, e)->Ok_0),
{
    let path = parsed_json_anchor(edit_anchor(e))->Ok_0.0;
    let segs = parsed_path(path)->Ok_0;
    let n = segs.len() as int;
    match e {
        JsonEdit::SetPath { set_path } => {
            if n > 0 {
                lemma_updated_well_formed(
                    j,
                    segs,
                    0,
                    n - 1,
                    match segs.last() {
                        Segment::Key(k) => ChangeView::SetMember(k, set_path.value@),
                        Segment::Index(i) => ChangeView::SetItem(i, set_path.value@),
                    },
                );
            }
        },
        JsonEdit::InsertAtPath { insert_at_path } => {
            lemma_updated_well_formed(
                j,
                segs,
                0,
                n,
                match insert_at_path.key {
                    Some(k) => ChangeView::Upsert(k@, insert_at_path.value@),
                    None => match insert_at_path.index {
                        Some(i) => ChangeView::InsertItem(i as nat, insert_at_path.value@),
                        None => ChangeView::Append(insert_at_path.value@),
                    },
                },
            );
        },
        JsonEdit::DeletePath { delete_path } => {
            lemma_updated_well_formed(
                j,
                segs,
                0,
                n - 1,
                match segs.last() {
                    Segment::Key(k) => ChangeView::RemoveMember(k),
                    Segment::Index(i) => ChangeView::RemoveItem(i),
                },
            );
        },
    }
}

/// The edits made so far keep a well-formed tree well formed.
pub proof fn lemma_staged_upto_well_formed(j: Json, edits: Seq<JsonEdit>, n: int)
    requires
        0 <= n <= edits.len(),
        well_formed(j),
        forall|i: int| 0 <= i < edits.len() ==> edit_well_formed(#[trigger] edits[i]),
        staged_upto(j, edits, n) is Ok,
    ensures
        well_formed(staged_upto(j, edits, n)->Ok_0),
    decreases n,
{
    if n > 0 {
        lemma_staged_upto_well_formed(j, edits, n - 1);
        lemma_staged_well_formed(staged_upto(j, edits, n - 1)->Ok_0, edits[n - 1]);
    }
}

/// A batch whose values are well formed makes a well-formed tree of a
/// well-formed tree.
pub proof fn lemma_applied_well_formed(j: Json, edits: Seq<JsonEdit>)
    requires
        well_formed(j),
        forall|i: int| 0 <= i < edits.len() ==> edit_well_formed(#[trigger] edits[i]),
        json_applied(j, edits) is Ok,
    ensures
        well_formed(json_applied(j, edits)->Ok_0),
{
    lemma_staged_upto_well_formed(j, edits, edits.len() as int);
}

} // verus!
