//! Finding and changing values in a JSON tree by path.
//!
//! A change never touches the tree it is made on: it gives a new tree.

use crate::json::fault::{JsonError, JsonFault};
use crate::json::path::{segments_view, PathSegment, Segment};
use crate::json::value::{
    clone_value, lemma_array_view, lemma_members_view_push, lemma_object_view,
    lemma_values_view_push, members_view, values_view, Json, JsonValue,
};
use crate::text::{decimal, push_decimal, str_equal};
use vstd::prelude::*;

verus! {

// ---------------------------------------------------------------------------
// Finding
// ---------------------------------------------------------------------------

/// The place of the first member with the key `key`, or the number of
/// members where none has it.
pub open spec fn member_index(members: Seq<(Seq<char>, Json)>, key: Seq<char>) -> int
    decreases members.len(),
{
    if members.len() == 0 || members[0].0 == key {
        0
    } else {
        1 + member_index(members.skip(1), key)
    }
}

/// The message for a key step into a value that is no object.
pub open spec fn not_object_message(at: int) -> Seq<char> {
    "Expected object at segment "@ + decimal(at as nat) + " but got non-object"@
}

/// The message for an index step into a value that is no array.
pub open spec fn not_array_message(at: int) -> Seq<char> {
    "Expected array at segment "@ + decimal(at as nat) + " but got non-array"@
}

/// The message for a key that the object does not hold.
pub open spec fn no_key_message(key: Seq<char>) -> Seq<char> {
    "Key not found: "@ + key
}

/// The message for an index that the array does not reach.
pub open spec fn no_index_message(index: nat) -> Seq<char> {
    "Array index "@ + decimal(index) + " out of bounds"@
}

/// The value one step into `j`; `at` is the number of the step, for the
/// message.
pub open spec fn child(j: Json, seg: Segment, at: int) -> Result<Json, Seq<char>> {
    match seg {
        Segment::Key(k) => match j {
            Json::Object(members) => if member_index(members, k) < members.len() {
                Ok(members[member_index(members, k)].1)
            } else {
                Err(no_key_message(k))
            },
            _ => Err(not_object_message(at)),
        },
        Segment::Index(i) => match j {
            Json::Array(items) => if i < items.len() {
                Ok(items[i as int])
            } else {
                Err(no_index_message(i))
            },
            _ => Err(not_array_message(at)),
        },
    }
}

/// The value that the steps `segs[at..upto]` lead to from `j`.
pub open spec fn lookup(j: Json, segs: Seq<Segment>, at: int, upto: int) -> Result<Json, Seq<char>>
    decreases upto - at,
{
    if at >= upto {
        Ok(j)
    } else {
        match child(j, segs[at], at) {
            Ok(c) => lookup(c, segs, at + 1, upto),
            Err(m) => Err(m),
        }
    }
}

/// The place of a member is in range, no member in front of it has the key,
/// and the member at it has the key unless it is the length.
pub proof fn lemma_member_index(members: Seq<(Seq<char>, Json)>, key: Seq<char>)
    ensures
        0 <= member_index(members, key) <= members.len(),
        forall|j: int| 0 <= j < member_index(members, key) ==> members[j].0 != key,
        member_index(members, key) < members.len() ==> members[member_index(members, key)].0 == key,
    decreases members.len(),
{
    if members.len() == 0 || members[0].0 == key {
    } else {
        let rest = members.skip(1);
        lemma_member_index(rest, key);
        let k = member_index(rest, key);
        assert forall|j: int| 0 <= j < 1 + k implies members[j].0 != key by {
            if j > 0 {
                assert(rest[j - 1] == members[j]);
            }
        }
        if k < rest.len() {
            assert(rest[k] == members[k + 1]);
        }
    }
}

/// The place with the properties of `lemma_member_index` is `member_index`.
pub proof fn lemma_member_index_unique(members: Seq<(Seq<char>, Json)>, key: Seq<char>, k: int)
    requires
        0 <= k <= members.len(),
        forall|j: int| 0 <= j < k ==> members[j].0 != key,
        k < members.len() ==> members[k].0 == key,
    ensures
        member_index(members, key) == k,
{
    lemma_member_index(members, key);
    let f = member_index(members, key);
    if f < k {
        assert(members[f].0 != key);
    } else if k < f {
        assert(members[k].0 != key);
    }
}

/// The place of the first member with the key `key`.
pub fn find_member(members: &Vec<(String, JsonValue)>, key: &str) -> (r: usize)
    ensures
        r == member_index(members_view(members@), key@),
        r <= members.len(),
{
    let mut i: usize = 0;
    while i < members.len() && !str_equal(members[i].0.as_str(), key)
        invariant
            i <= members.len(),
            forall|j: int| 0 <= j < i ==> members_view(members@)[j].0 != key@,
        decreases members.len() - i,
    {
        i += 1;
    }
    proof {
        lemma_member_index_unique(members_view(members@), key@, i as int);
    }
    i
}

fn message_with_number(prefix: &str, n: usize, suffix: &str) -> (m: String)
    ensures
        m@ == prefix@ + decimal(n as nat) + suffix@,
{
    let mut m = String::from_str(prefix);
    push_decimal(&mut m, n as u128);
    m.append(suffix);
    m
}

fn message_with_text(prefix: &str, text: &str) -> (m: String)
    ensures
        m@ == prefix@ + text@,
{
    let mut m = String::from_str(prefix);
    m.append(text);
    m
}

/// The value one step into `v`.
pub fn step_into<'a>(v: &'a JsonValue, seg: &PathSegment, at: usize) -> (r: Result<
    &'a JsonValue,
    JsonError,
>)
    ensures
        match r {
            Ok(c) => child(v@, seg@, at as int) == Ok::<Json, Seq<char>>(c@),
            Err(e) => child(v@, seg@, at as int) is Err && e@ == JsonFault::Other(
                child(v@, seg@, at as int)->Err_0,
            ),
        },
{
    match seg {
        PathSegment::Key(k) => match v {
            JsonValue::Object(members) => {
                proof {
                    lemma_object_view(*members);
                }
                let i = find_member(members, k.as_str());
                if i < members.len() {
                    Ok(&members[i].1)
                } else {
                    Err(JsonError::Other(message_with_text("Key not found: ", k.as_str())))
                }
            },
            _ => Err(
                JsonError::Other(
                    message_with_number("Expected object at segment ", at, " but got non-object"),
                ),
            ),
        },
        PathSegment::Index(i) => match v {
            JsonValue::Array(items) => {
                proof {
                    lemma_array_view(*items);
                }
                if *i < items.len() {
                    Ok(&items[*i])
                } else {
                    Err(JsonError::Other(message_with_number("Array index ", *i, " out of bounds")))
                }
            },
            _ => Err(
                JsonError::Other(
                    message_with_number("Expected array at segment ", at, " but got non-array"),
                ),
            ),
        },
    }
}

/// The value that the steps lead to from `ast`.
pub fn query_path_segments<'a>(ast: &'a JsonValue, segments: &Vec<PathSegment>) -> (r: Result<
    &'a JsonValue,
    JsonError,
>)
    ensures
        match r {
            Ok(c) => lookup(ast@, segments_view(segments@), 0, segments@.len() as int) == Ok::<
                Json,
                Seq<char>,
            >(c@),
            Err(e) => lookup(ast@, segments_view(segments@), 0, segments@.len() as int) is Err
                && e@ == JsonFault::Other(
                lookup(ast@, segments_view(segments@), 0, segments@.len() as int)->Err_0,
            ),
        },
{
    let ghost segs = segments_view(segments@);
    let upto = segments.len();
    let mut current = ast;
    let mut i: usize = 0;
    while i < upto
        invariant
            i <= upto == segments.len(),
            segs == segments_view(segments@),
            lookup(ast@, segs, 0, upto as int) == lookup(current@, segs, i as int, upto as int),
        decreases upto - i,
    {
        match step_into(current, &segments[i], i) {
            Ok(c) => {
                current = c;
            },
            Err(e) => {
                return Err(e);
            },
        }
        i += 1;
    }
    Ok(current)
}

// ---------------------------------------------------------------------------
// Changing
// ---------------------------------------------------------------------------

/// What is done to the value that a path leads to.
pub enum Change {
    /// Put this value in its place.
    Replace(JsonValue),
    /// Put this value in the place of its member with this key.
    SetMember(String, JsonValue),
    /// Put this value in the place of its item at this index.
    SetItem(usize, JsonValue),
    /// Give it a member with this key and this value, in the place of the
    /// member with the key where there is one, else at the end.
    Upsert(String, JsonValue),
    /// Put this value in front of its item at this index.
    InsertItem(usize, JsonValue),
    /// Put this value behind its last item.
    Append(JsonValue),
    /// Take away its member with this key, where there is one.
    RemoveMember(String),
    /// Take away its item at this index.
    RemoveItem(usize),
}

/// What is done to a value, as plain values.
pub enum ChangeView {
    Replace(Json),
    SetMember(Seq<char>, Json),
    SetItem(nat, Json),
    Upsert(Seq<char>, Json),
    InsertItem(nat, Json),
    Append(Json),
    RemoveMember(Seq<char>),
    RemoveItem(nat),
}

impl Change {
    /// The plain values of the change.
    pub open spec fn view(&self) -> ChangeView {
        match self {
            Change::Replace(v) => ChangeView::Replace(v@),
            Change::SetMember(k, v) => ChangeView::SetMember(k@, v@),
            Change::SetItem(i, v) => ChangeView::SetItem(*i as nat, v@),
            Change::Upsert(k, v) => ChangeView::Upsert(k@, v@),
            Change::InsertItem(i, v) => ChangeView::InsertItem(*i as nat, v@),
            Change::Append(v) => ChangeView::Append(v@),
            Change::RemoveMember(k) => ChangeView::RemoveMember(k@),
            Change::RemoveItem(i) => ChangeView::RemoveItem(*i as nat),
        }
    }
}

/// `s` with `s[from..to]` replaced by `insert`.
pub open spec fn spliced<A>(s: Seq<A>, from: int, to: int, insert: Seq<A>) -> Seq<A> {
    s.take(from) + insert + s.skip(to)
}

/// The message for setting an item that the array does not have.
pub open spec fn set_index_message(index: nat) -> Seq<char> {
    "Array index "@ + decimal(index) + " out of bounds in set_path"@
}

/// The message for inserting behind the end of an array.
pub open spec fn insert_index_message(index: nat, len: nat) -> Seq<char> {
    "Array insert index "@ + decimal(index) + " out of bounds (len "@ + decimal(len) + ")"@
}

/// The message for deleting an item that the array does not have.
pub open spec fn delete_index_message(index: nat) -> Seq<char> {
    "Array index "@ + decimal(index) + " out of bounds in delete_path"@
}

/// The value after the change, or the message that says why it cannot be
/// made.
pub open spec fn changed(j: Json, change: ChangeView) -> Result<Json, Seq<char>> {
    match change {
        ChangeView::Replace(v) => Ok(v),
        ChangeView::SetMember(k, v) => match j {
            Json::Object(members) => if member_index(members, k) < members.len() {
                Ok(
                    Json::Object(
                        spliced(
                            members,
                            member_index(members, k),
                            member_index(members, k) + 1,
                            seq![(k, v)],
                        ),
                    ),
                )
            } else {
                Err(no_key_message(k))
            },
            _ => Err("Expected object for set_path"@),
        },
        ChangeView::SetItem(i, v) => match j {
            Json::Array(items) => if i < items.len() {
                Ok(Json::Array(spliced(items, i as int, i as int + 1, seq![v])))
            } else {
                Err(set_index_message(i))
            },
            _ => Err("Expected array for set_path"@),
        },
        ChangeView::Upsert(k, v) => match j {
            Json::Object(members) => if member_index(members, k) < members.len() {
                Ok(
                    Json::Object(
                        spliced(
                            members,
                            member_index(members, k),
                            member_index(members, k) + 1,
                            seq![(k, v)],
                        ),
                    ),
                )
            } else {
                Ok(Json::Object(members.push((k, v))))
            },
            _ => Err("Cannot insert key into non-object"@),
        },
        ChangeView::InsertItem(i, v) => match j {
            Json::Array(items) => if i <= items.len() {
                Ok(Json::Array(spliced(items, i as int, i as int, seq![v])))
            } else {
                Err(insert_index_message(i, items.len()))
            },
            _ => Err("Cannot insert into non-array"@),
        },
        ChangeView::Append(v) => match j {
            Json::Array(items) => Ok(Json::Array(items.push(v))),
            _ => Err("Cannot insert into non-array"@),
        },
        ChangeView::RemoveMember(k) => match j {
            Json::Object(members) => if member_index(members, k) < members.len() {
                Ok(
                    Json::Object(
                        spliced(
                            members,
                            member_index(members, k),
                            member_index(members, k) + 1,
                            Seq::empty(),
                        ),
                    ),
                )
            } else {
                Ok(j)
            },
            _ => Err("Expected object for delete_path"@),
        },
        ChangeView::RemoveItem(i) => match j {
            Json::Array(items) => if i < items.len() {
                Ok(Json::Array(spliced(items, i as int, i as int + 1, Seq::empty())))
            } else {
                Err(delete_index_message(i))
            },
            _ => Err("Expected array for delete_path"@),
        },
    }
}

/// The tree `j` with the change made at the value that the steps
/// `segs[at..upto]` lead to; everything off that path stays as it is.
pub open spec fn updated(j: Json, segs: Seq<Segment>, at: int, upto: int, change: ChangeView) -> Result<
    Json,
    Seq<char>,
>
    decreases upto - at,
{
    if at >= upto {
        changed(j, change)
    } else {
        match segs[at] {
            Segment::Key(k) => match j {
                Json::Object(members) => if member_index(members, k) < members.len() {
                    let i = member_index(members, k);
                    match updated(members[i].1, segs, at + 1, upto, change) {
                        Ok(c) => Ok(Json::Object(spliced(members, i, i + 1, seq![(members[i].0, c)]))),
                        Err(m) => Err(m),
                    }
                } else {
                    Err(no_key_message(k))
                },
                _ => Err(not_object_message(at)),
            },
            Segment::Index(n) => match j {
                Json::Array(items) => if n < items.len() {
                    match updated(items[n as int], segs, at + 1, upto, change) {
                        Ok(c) => Ok(Json::Array(spliced(items, n as int, n as int + 1, seq![c]))),
                        Err(m) => Err(m),
                    }
                } else {
                    Err(no_index_message(n))
                },
                _ => Err(not_array_message(at)),
            },
        }
    }
}

/// The items with `items[from..to]` replaced by `insert`, all copied.
fn splice_items(items: &Vec<JsonValue>, from: usize, to: usize, insert: Vec<JsonValue>) -> (r: Vec<
    JsonValue,
>)
    requires
        from <= to <= items.len(),
    ensures
        values_view(r@) == spliced(values_view(items@), from as int, to as int, values_view(insert@)),
{
    let ghost all = values_view(items@);
    let ghost ins = values_view(insert@);
    let mut r: Vec<JsonValue> = Vec::new();
    let mut i: usize = 0;
    assert(values_view(r@) =~= all.take(0));
    while i < from
        invariant
            i <= from <= items.len(),
            all == values_view(items@),
            values_view(r@) == all.take(i as int),
        decreases from - i,
    {
        let c = clone_value(&items[i]);
        proof {
            lemma_values_view_push(r@, c);
            assert(all.take(i + 1) =~= all.take(i as int).push(all[i as int]));
        }
        r.push(c);
        i += 1;
    }
    let mut insert = insert;
    r.append(&mut insert);
    assert(values_view(r@) =~= all.take(from as int) + ins);
    let mut j: usize = to;
    assert(values_view(r@) =~= all.take(from as int) + ins + all.subrange(to as int, j as int));
    while j < items.len()
        invariant
            to <= j <= items.len(),
            all == values_view(items@),
            values_view(r@) == all.take(from as int) + ins + all.subrange(to as int, j as int),
        decreases items.len() - j,
    {
        let c = clone_value(&items[j]);
        proof {
            lemma_values_view_push(r@, c);
            assert((all.take(from as int) + ins + all.subrange(to as int, j as int)).push(
                all[j as int],
            ) =~= all.take(from as int) + ins + all.subrange(to as int, j + 1));
        }
        r.push(c);
        j += 1;
    }
    assert(all.subrange(to as int, items.len() as int) =~= all.skip(to as int));
    r
}

/// The members with `members[from..to]` replaced by `insert`, all copied.
fn splice_members(
    members: &Vec<(String, JsonValue)>,
    from: usize,
    to: usize,
    insert: Vec<(String, JsonValue)>,
) -> (r: Vec<(String, JsonValue)>)
    requires
        from <= to <= members.len(),
    ensures
        members_view(r@) == spliced(
            members_view(members@),
            from as int,
            to as int,
            members_view(insert@),
        ),
{
    let ghost all = members_view(members@);
    let ghost ins = members_view(insert@);
    let mut r: Vec<(String, JsonValue)> = Vec::new();
    let mut i: usize = 0;
    assert(members_view(r@) =~= all.take(0));
    while i < from
        invariant
            i <= from <= members.len(),
            all == members_view(members@),
            members_view(r@) == all.take(i as int),
        decreases from - i,
    {
        let k = members[i].0.clone();
        let c = clone_value(&members[i].1);
        proof {
            lemma_members_view_push(r@, k, c);
            assert(all.take(i + 1) =~= all.take(i as int).push(all[i as int]));
        }
        r.push((k, c));
        i += 1;
    }
    let mut insert = insert;
    r.append(&mut insert);
    assert(members_view(r@) =~= all.take(from as int) + ins);
    let mut j: usize = to;
    assert(members_view(r@) =~= all.take(from as int) + ins + all.subrange(to as int, j as int));
    while j < members.len()
        invariant
            to <= j <= members.len(),
            all == members_view(members@),
            members_view(r@) == all.take(from as int) + ins + all.subrange(to as int, j as int),
        decreases members.len() - j,
    {
        let k = members[j].0.clone();
        let c = clone_value(&members[j].1);
        proof {
            lemma_members_view_push(r@, k, c);
            assert((all.take(from as int) + ins + all.subrange(to as int, j as int)).push(
                all[j as int],
            ) =~= all.take(from as int) + ins + all.subrange(to as int, j + 1));
        }
        r.push((k, c));
        j += 1;
    }
    assert(all.subrange(to as int, members.len() as int) =~= all.skip(to as int));
    r
}

fn one_item(v: JsonValue) -> (r: Vec<JsonValue>)
    ensures
        values_view(r@) == seq![v@],
{
    let r: Vec<JsonValue> = vec![v];
    assert(values_view(r@) =~= seq![v@]);
    r
}

fn one_member(k: String, v: JsonValue) -> (r: Vec<(String, JsonValue)>)
    ensures
        members_view(r@) == seq![(k@, v@)],
{
    let r: Vec<(String, JsonValue)> = vec![(k, v)];
    assert(members_view(r@) =~= seq![(k@, v@)]);
    r
}

fn no_items() -> (r: Vec<JsonValue>)
    ensures
        values_view(r@) == Seq::<Json>::empty(),
{
    let r: Vec<JsonValue> = Vec::new();
    assert(values_view(r@) =~= Seq::<Json>::empty());
    r
}

fn no_members() -> (r: Vec<(String, JsonValue)>)
    ensures
        members_view(r@) == Seq::<(Seq<char>, Json)>::empty(),
{
    let r: Vec<(String, JsonValue)> = Vec::new();
    assert(members_view(r@) =~= Seq::<(Seq<char>, Json)>::empty());
    r
}

fn array_of(items: Vec<JsonValue>) -> (r: JsonValue)
    ensures
        r@ == Json::Array(values_view(items@)),
{
    proof {
        lemma_array_view(items);
    }
    JsonValue::Array(items)
}

fn object_of(members: Vec<(String, JsonValue)>) -> (r: JsonValue)
    ensures
        r@ == Json::Object(members_view(members@)),
{
    proof {
        lemma_object_view(members);
    }
    JsonValue::Object(members)
}

fn fail(m: String) -> (r: Result<JsonValue, JsonError>)
    ensures
        r is Err,
        r->Err_0@ == JsonFault::Other(m@),
{
    Err(JsonError::Other(m))
}

/// Makes the change on `v`.
pub fn make_change(v: &JsonValue, change: &Change) -> (r: Result<JsonValue, JsonError>)
    ensures
        match r {
            Ok(c) => changed(v@, change@) == Ok::<Json, Seq<char>>(c@),
            Err(e) => changed(v@, change@) is Err && e@ == JsonFault::Other(
                changed(v@, change@)->Err_0,
            ),
        },
{
    match change {
        Change::Replace(value) => Ok(clone_value(value)),
        Change::SetMember(k, value) => match v {
            JsonValue::Object(members) => {
                proof {
                    lemma_object_view(*members);
                }
                let i = find_member(members, k.as_str());
                if i < members.len() {
                    Ok(
                        object_of(
                            splice_members(
                                members,
                                i,
                                i + 1,
                                one_member(k.clone(), clone_value(value)),
                            ),
                        ),
                    )
                } else {
                    fail(message_with_text("Key not found: ", k.as_str()))
                }
            },
            _ => fail(String::from_str("Expected object for set_path")),
        },
        Change::SetItem(i, value) => match v {
            JsonValue::Array(items) => {
                proof {
                    lemma_array_view(*items);
                }
                if *i < items.len() {
                    Ok(array_of(splice_items(items, *i, *i + 1, one_item(clone_value(value)))))
                } else {
                    fail(message_with_number("Array index ", *i, " out of bounds in set_path"))
                }
            },
            _ => fail(String::from_str("Expected array for set_path")),
        },
        Change::Upsert(k, value) => match v {
            JsonValue::Object(members) => {
                proof {
                    lemma_object_view(*members);
                }
                let i = find_member(members, k.as_str());
                let entry = one_member(k.clone(), clone_value(value));
                if i < members.len() {
                    Ok(object_of(splice_members(members, i, i + 1, entry)))
                } else {
                    let n = members.len();
                    let ghost all = members_view(members@);
                    proof {
                        assert(spliced(all, n as int, n as int, seq![(k@, value@)]) =~= all.push(
                            (k@, value@),
                        ));
                    }
                    Ok(object_of(splice_members(members, n, n, entry)))
                }
            },
            _ => fail(String::from_str("Cannot insert key into non-object")),
        },
        Change::InsertItem(i, value) => match v {
            JsonValue::Array(items) => {
                proof {
                    lemma_array_view(*items);
                }
                if *i <= items.len() {
                    Ok(array_of(splice_items(items, *i, *i, one_item(clone_value(value)))))
                } else {
                    let mut m = String::from_str("Array insert index ");
                    push_decimal(&mut m, *i as u128);
                    m.append(" out of bounds (len ");
                    push_decimal(&mut m, items.len() as u128);
                    m.append(")");
                    fail(m)
                }
            },
            _ => fail(String::from_str("Cannot insert into non-array")),
        },
        Change::Append(value) => match v {
            JsonValue::Array(items) => {
                proof {
                    lemma_array_view(*items);
                }
                let n = items.len();
                let ghost all = values_view(items@);
                proof {
                    assert(spliced(all, n as int, n as int, seq![value@]) =~= all.push(value@));
                }
                Ok(array_of(splice_items(items, n, n, one_item(clone_value(value)))))
            },
            _ => fail(String::from_str("Cannot insert into non-array")),
        },
        Change::RemoveMember(k) => match v {
            JsonValue::Object(members) => {
                proof {
                    lemma_object_view(*members);
                }
                let i = find_member(members, k.as_str());
                if i < members.len() {
                    Ok(object_of(splice_members(members, i, i + 1, no_members())))
                } else {
                    Ok(clone_value(v))
                }
            },
            _ => fail(String::from_str("Expected object for delete_path")),
        },
        Change::RemoveItem(i) => match v {
            JsonValue::Array(items) => {
                proof {
                    lemma_array_view(*items);
                }
                if *i < items.len() {
                    Ok(array_of(splice_items(items, *i, *i + 1, no_items())))
                } else {
                    fail(message_with_number("Array index ", *i, " out of bounds in delete_path"))
                }
            },
            _ => fail(String::from_str("Expected array for delete_path")),
        },
    }
}

/// The tree `v` with the change made at the value that the steps
/// `segments[at..upto]` lead to.
pub(crate) fn update_at(
    v: &JsonValue,
    segments: &Vec<PathSegment>,
    at: usize,
    upto: usize,
    change: &Change,
) -> (r: Result<JsonValue, JsonError>)
    requires
        at <= upto <= segments.len(),
    ensures
        match r {
            Ok(c) => updated(v@, segments_view(segments@), at as int, upto as int, change@) == Ok::<
                Json,
                Seq<char>,
            >(c@),
            Err(e) => updated(v@, segments_view(segments@), at as int, upto as int, change@) is Err
                && e@ == JsonFault::Other(
                updated(v@, segments_view(segments@), at as int, upto as int, change@)->Err_0,
            ),
        },
    decreases upto - at,
{
    if at >= upto {
        return make_change(v, change);
    }
    match &segments[at] {
        PathSegment::Key(k) => match v {
            JsonValue::Object(members) => {
                proof {
                    lemma_object_view(*members);
                }
                let i = find_member(members, k.as_str());
                if i < members.len() {
                    match update_at(&members[i].1, segments, at + 1, upto, change) {
                        Ok(c) => Ok(
                            object_of(
                                splice_members(
                                    members,
                                    i,
                                    i + 1,
                                    one_member(members[i].0.clone(), c),
                                ),
                            ),
                        ),
                        Err(e) => Err(e),
                    }
                } else {
                    fail(message_with_text("Key not found: ", k.as_str()))
                }
            },
            _ => fail(
                message_with_number("Expected object at segment ", at, " but got non-object"),
            ),
        },
        PathSegment::Index(n) => match v {
            JsonValue::Array(items) => {
                proof {
                    lemma_array_view(*items);
                }
                if *n < items.len() {
                    match update_at(&items[*n], segments, at + 1, upto, change) {
                        Ok(c) => Ok(array_of(splice_items(items, *n, *n + 1, one_item(c)))),
                        Err(e) => Err(e),
                    }
                } else {
                    fail(message_with_number("Array index ", *n, " out of bounds"))
                }
            },
            _ => fail(message_with_number("Expected array at segment ", at, " but got non-array")),
        },
    }
}

} // verus!
