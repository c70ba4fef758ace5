//! Applying a batch of JSON edits: every anchor is checked first, then the
//! edits are made in order on a copy, and the copy takes the place of the
//! tree only where all of them succeed.

use crate::json::canon::{canonical_hash, compute_canonical_hash};
use crate::json::fault::{JsonError, JsonFault};
use crate::json::path::{
    parse_anchor, parse_path_segments, parsed_json_anchor, parsed_path, segments_view, PathSegment,
    Segment,
};
use crate::json::tree::{lookup, query_path_segments, update_at, updated, Change, ChangeView};
use crate::json::value::{clone_value, Json, JsonValue};
use crate::text::str_equal;
use vstd::prelude::*;

verus! {

/// One edit of a JSON batch.
#[derive(Debug)]
pub enum JsonEdit {
    /// Put a value in the place of the value at the path.
    SetPath { set_path: SetPathOp },
    /// Give the object at the path a member, or the array at the path an
    /// item.
    InsertAtPath { insert_at_path: InsertAtPathOp },
    /// Take away the value at the path.
    DeletePath { delete_path: DeletePathOp },
}

/// Put `value` in the place of the value that `anchor` names.
#[derive(Debug)]
pub struct SetPathOp {
    pub anchor: String,
    pub value: JsonValue,
}

/// Put `value` into the object or array that `anchor` names.
#[derive(Debug)]
pub struct InsertAtPathOp {
    pub anchor: String,
    /// The key of the new member; absent for an array.
    pub key: Option<String>,
    /// The place of the new item, counted from 0; absent to append. Not
    /// looked at where `key` is there.
    pub index: Option<usize>,
    pub value: JsonValue,
}

/// Take away the value that `anchor` names.
#[derive(Debug)]
pub struct DeletePathOp {
    pub anchor: String,
}

/// A JSON batch as it is sent: the file and the edits.
#[derive(Debug)]
pub struct JsonApplyParams {
    pub path: String,
    pub edits: Vec<JsonEdit>,
}

// ---------------------------------------------------------------------------
// What the edits do
// ---------------------------------------------------------------------------

/// The tree with `value` in the place of the value that `segs` lead to. The
/// path must lead to a value; the empty path replaces the whole tree.
pub open spec fn path_set(j: Json, segs: Seq<Segment>, value: Json) -> Result<Json, Seq<char>> {
    if segs.len() == 0 {
        Ok(value)
    } else {
        updated(
            j,
            segs,
            0,
            segs.len() - 1,
            match segs.last() {
                Segment::Key(k) => ChangeView::SetMember(k, value),
                Segment::Index(i) => ChangeView::SetItem(i, value),
            },
        )
    }
}

/// The tree with `value` put into the object or array that `segs` lead to:
/// under `key` where there is one, else at `index` where there is one, else
/// at the end.
pub open spec fn path_insert(
    j: Json,
    segs: Seq<Segment>,
    key: Option<Seq<char>>,
    index: Option<nat>,
    value: Json,
) -> Result<Json, Seq<char>> {
    updated(
        j,
        segs,
        0,
        segs.len() as int,
        match key {
            Some(k) => ChangeView::Upsert(k, value),
            None => match index {
                Some(i) => ChangeView::InsertItem(i, value),
                None => ChangeView::Append(value),
            },
        },
    )
}

/// The tree without the value that `segs` lead to. The root cannot be taken
/// away.
pub open spec fn path_delete(j: Json, segs: Seq<Segment>) -> Result<Json, Seq<char>> {
    if segs.len() == 0 {
        Err("Cannot delete root"@)
    } else {
        updated(
            j,
            segs,
            0,
            segs.len() - 1,
            match segs.last() {
                Segment::Key(k) => ChangeView::RemoveMember(k),
                Segment::Index(i) => ChangeView::RemoveItem(i),
            },
        )
    }
}

/// The anchor of an edit.
pub open spec fn edit_anchor(e: JsonEdit) -> Seq<char> {
    match e {
        JsonEdit::SetPath { set_path } => set_path.anchor@,
        JsonEdit::InsertAtPath { insert_at_path } => insert_at_path.anchor@,
        JsonEdit::DeletePath { delete_path } => delete_path.anchor@,
    }
}

/// What an edit makes of the tree along the steps of its path.
pub open spec fn edit_effect(e: JsonEdit, j: Json, segs: Seq<Segment>) -> Result<Json, Seq<char>> {
    match e {
        JsonEdit::SetPath { set_path } => path_set(j, segs, set_path.value@),
        JsonEdit::InsertAtPath { insert_at_path } => path_insert(
            j,
            segs,
            match insert_at_path.key {
                Some(k) => Some(k@),
                None => None,
            },
            match insert_at_path.index {
                Some(i) => Some(i as nat),
                None => None,
            },
            insert_at_path.value@,
        ),
        JsonEdit::DeletePath { delete_path } => path_delete(j, segs),
    }
}

/// Whether the anchor of an edit fits the tree: it parses, its path leads to
/// a value, and the hash of that value is the hash of the anchor, letter for
/// letter.
pub open spec fn validated(j: Json, e: JsonEdit) -> Result<(), JsonFault> {
    match parsed_json_anchor(edit_anchor(e)) {
        Err(m) => Err(JsonFault::Other(m)),
        Ok((path, expected)) => match parsed_path(path) {
            Err(m) => Err(JsonFault::Other(m)),
            Ok(segs) => match lookup(j, segs, 0, segs.len() as int) {
                Err(m) => Err(JsonFault::Other(m)),
                Ok(node) => if canonical_hash(node) != expected {
                    Err(JsonFault::HashMismatch { path, expected, actual: canonical_hash(node) })
                } else {
                    Ok(())
                },
            },
        },
    }
}

/// Whether the anchors of the first `n` edits fit the tree: the refusal of
/// the first that does not.
pub open spec fn validated_upto(j: Json, edits: Seq<JsonEdit>, n: int) -> Result<(), JsonFault>
    decreases n,
{
    if n <= 0 {
        Ok(())
    } else {
        match validated_upto(j, edits, n - 1) {
            Err(f) => Err(f),
            Ok(_) => validated(j, edits[n - 1]),
        }
    }
}

/// What one edit makes of the tree.
pub open spec fn staged(j: Json, e: JsonEdit) -> Result<Json, JsonFault> {
    match parsed_json_anchor(edit_anchor(e)) {
        Err(m) => Err(JsonFault::Other(m)),
        Ok((path, expected)) => match parsed_path(path) {
            Err(m) => Err(JsonFault::Other(m)),
            Ok(segs) => match edit_effect(e, j, segs) {
                Err(m) => Err(JsonFault::Other(m)),
                Ok(next) => Ok(next),
            },
        },
    }
}

/// What the first `n` edits make of the tree, one after the other.
pub open spec fn staged_upto(j: Json, edits: Seq<JsonEdit>, n: int) -> Result<Json, JsonFault>
    decreases n,
{
    if n <= 0 {
        Ok(j)
    } else {
        match staged_upto(j, edits, n - 1) {
            Err(f) => Err(f),
            Ok(mid) => staged(mid, edits[n - 1]),
        }
    }
}

/// What a batch makes of the tree: the refusal of the first anchor that does
/// not fit the tree as it is, else what the edits make of it in order.
pub open spec fn json_applied(j: Json, edits: Seq<JsonEdit>) -> Result<Json, JsonFault> {
    match validated_upto(j, edits, edits.len() as int) {
        Err(f) => Err(f),
        Ok(_) => staged_upto(j, edits, edits.len() as int),
    }
}

/// A refusal during validation refuses the batch whatever follows.
pub proof fn lemma_validation_error_stays(j: Json, edits: Seq<JsonEdit>, k: int, n: int)
    requires
        0 <= k <= n,
        validated_upto(j, edits, k) is Err,
    ensures
        validated_upto(j, edits, n) == validated_upto(j, edits, k),
    decreases n - k,
{
    if k < n {
        lemma_validation_error_stays(j, edits, k, n - 1);
    }
}

/// A refusal during staging refuses the batch whatever follows.
pub proof fn lemma_staging_error_stays(j: Json, edits: Seq<JsonEdit>, k: int, n: int)
    requires
        0 <= k <= n,
        staged_upto(j, edits, k) is Err,
    ensures
        staged_upto(j, edits, n) == staged_upto(j, edits, k),
    decreases n - k,
{
    if k < n {
        lemma_staging_error_stays(j, edits, k, n - 1);
    }
}

// ---------------------------------------------------------------------------
// The three edits
// ---------------------------------------------------------------------------

fn other<T>(m: &str) -> (r: Result<T, JsonError>)
    ensures
        r is Err,
        r->Err_0@ == JsonFault::Other(m@),
{
    Err(JsonError::Other(String::from_str(m)))
}

/// The tree with `value` in the place of the value that the steps lead to.
pub fn set_at(ast: &JsonValue, segments: &Vec<PathSegment>, value: &JsonValue) -> (r: Result<
    JsonValue,
    JsonError,
>)
    ensures
        match r {
            Ok(next) => path_set(ast@, segments_view(segments@), value@) == Ok::<Json, Seq<char>>(
                next@,
            ),
            Err(e) => path_set(ast@, segments_view(segments@), value@) is Err && e@
                == JsonFault::Other(path_set(ast@, segments_view(segments@), value@)->Err_0),
        },
{
    let n = segments.len();
    if n == 0 {
        return Ok(clone_value(value));
    }
    let change = match &segments[n - 1] {
        PathSegment::Key(k) => Change::SetMember(k.clone(), clone_value(value)),
        PathSegment::Index(i) => Change::SetItem(*i, clone_value(value)),
    };
    update_at(ast, segments, 0, n - 1, &change)
}

/// The tree with `value` put into the object or array that the steps lead
/// to.
pub fn insert_at(
    ast: &JsonValue,
    segments: &Vec<PathSegment>,
    key: &Option<String>,
    index: Option<usize>,
    value: &JsonValue,
) -> (r: Result<JsonValue, JsonError>)
    ensures
        match r {
            Ok(next) => path_insert(
                ast@,
                segments_view(segments@),
                match *key {
                    Some(k) => Some(k@),
                    None => None,
                },
                match index {
                    Some(i) => Some(i as nat),
                    None => None,
                },
                value@,
            ) == Ok::<Json, Seq<char>>(next@),
            Err(e) => path_insert(
                ast@,
                segments_view(segments@),
                match *key {
                    Some(k) => Some(k@),
                    None => None,
                },
                match index {
                    Some(i) => Some(i as nat),
                    None => None,
                },
                value@,
            ) is Err && e@ == JsonFault::Other(
                path_insert(
                    ast@,
                    segments_view(segments@),
                    match *key {
                        Some(k) => Some(k@),
                        None => None,
                    },
                    match index {
                        Some(i) => Some(i as nat),
                        None => None,
                    },
                    value@,
                )->Err_0,
            ),
        },
{
    let change = match key {
        Some(k) => Change::Upsert(k.clone(), clone_value(value)),
        None => match index {
            Some(i) => Change::InsertItem(i, clone_value(value)),
            None => Change::Append(clone_value(value)),
        },
    };
    update_at(ast, segments, 0, segments.len(), &change)
}

/// The tree without the value that the steps lead to.
pub fn delete_at(ast: &JsonValue, segments: &Vec<PathSegment>) -> (r: Result<JsonValue, JsonError>)
    ensures
        match r {
            Ok(next) => path_delete(ast@, segments_view(segments@)) == Ok::<Json, Seq<char>>(next@),
            Err(e) => path_delete(ast@, segments_view(segments@)) is Err && e@ == JsonFault::Other(
                path_delete(ast@, segments_view(segments@))->Err_0,
            ),
        },
{
    let n = segments.len();
    if n == 0 {
        return other("Cannot delete root");
    }
    let change = match &segments[n - 1] {
        PathSegment::Key(k) => Change::RemoveMember(k.clone()),
        PathSegment::Index(i) => Change::RemoveItem(*i),
    };
    update_at(ast, segments, 0, n - 1, &change)
}

/// Puts `value` in the place of the value at `path`. The tree is changed
/// only where that succeeds.
pub fn set_path(ast: &mut JsonValue, path: &str, value: JsonValue) -> (r: Result<(), JsonError>)
    ensures
        match r {
            Ok(_) => parsed_path(path@) is Ok && path_set(
                old(ast)@,
                parsed_path(path@)->Ok_0,
                value@,
            ) == Ok::<Json, Seq<char>>(final(ast)@),
            Err(e) => final(ast)@ == old(ast)@ && e@ == JsonFault::Other(
                match parsed_path(path@) {
                    Err(m) => m,
                    Ok(segs) => path_set(old(ast)@, segs, value@)->Err_0,
                },
            ) && (parsed_path(path@) is Err || path_set(
                old(ast)@,
                parsed_path(path@)->Ok_0,
                value@,
            ) is Err),
        },
{
    let segments = match parse_path_segments(path) {
        Ok(s) => s,
        Err(e) => {
            return Err(e);
        },
    };
    match set_at(ast, &segments, &value) {
        Ok(next) => {
            *ast = next;
            Ok(())
        },
        Err(e) => Err(e),
    }
}

/// Puts `value` into the object or array at `path`: under `key` where there
/// is one, else at `index` where there is one, else at the end. The tree is
/// changed only where that succeeds.
pub fn insert_at_path(
    ast: &mut JsonValue,
    path: &str,
    key: Option<&str>,
    index: Option<usize>,
    value: JsonValue,
) -> (r: Result<(), JsonError>)
    ensures
        match r {
            Ok(_) => parsed_path(path@) is Ok && path_insert(
                old(ast)@,
                parsed_path(path@)->Ok_0,
                match key {
                    Some(k) => Some(k@),
                    None => None,
                },
                match index {
                    Some(i) => Some(i as nat),
                    None => None,
                },
                value@,
            ) == Ok::<Json, Seq<char>>(final(ast)@),
            Err(e) => final(ast)@ == old(ast)@ && e is Other && (parsed_path(path@) is Err
                || path_insert(
                old(ast)@,
                parsed_path(path@)->Ok_0,
                match key {
                    Some(k) => Some(k@),
                    None => None,
                },
                match index {
                    Some(i) => Some(i as nat),
                    None => None,
                },
                value@,
            ) is Err),
        },
{
    let segments = match parse_path_segments(path) {
        Ok(s) => s,
        Err(e) => {
            return Err(e);
        },
    };
    let owned_key: Option<String> = match key {
        Some(k) => Some(k.to_owned()),
        None => None,
    };
    match insert_at(ast, &segments, &owned_key, index, &value) {
        Ok(next) => {
            *ast = next;
            Ok(())
        },
        Err(e) => Err(e),
    }
}

/// Takes away the value at `path`. The tree is changed only where that
/// succeeds.
pub fn delete_path(ast: &mut JsonValue, path: &str) -> (r: Result<(), JsonError>)
    ensures
        match r {
            Ok(_) => parsed_path(path@) is Ok && path_delete(old(ast)@, parsed_path(path@)->Ok_0)
                == Ok::<Json, Seq<char>>(final(ast)@),
            Err(e) => final(ast)@ == old(ast)@ && e is Other && (parsed_path(path@) is Err
                || path_delete(old(ast)@, parsed_path(path@)->Ok_0) is Err),
        },
{
    let segments = match parse_path_segments(path) {
        Ok(s) => s,
        Err(e) => {
            return Err(e);
        },
    };
    match delete_at(ast, &segments) {
        Ok(next) => {
            *ast = next;
            Ok(())
        },
        Err(e) => Err(e),
    }
}

// ---------------------------------------------------------------------------
// The batch
// ---------------------------------------------------------------------------

fn anchor_of(edit: &JsonEdit) -> (a: &String)
    ensures
        a@ == edit_anchor(*edit),
{
    match edit {
        JsonEdit::SetPath { set_path } => &set_path.anchor,
        JsonEdit::InsertAtPath { insert_at_path } => &insert_at_path.anchor,
        JsonEdit::DeletePath { delete_path } => &delete_path.anchor,
    }
}

/// Checks the anchor of one edit against the tree.
pub fn validate_edit(ast: &JsonValue, edit: &JsonEdit) -> (r: Result<(), JsonError>)
    ensures
        match r {
            Ok(_) => validated(ast@, *edit) is Ok,
            Err(e) => validated(ast@, *edit) == Err::<(), JsonFault>(e@),
        },
{
    let (path, expected) = match parse_anchor(anchor_of(edit).as_str()) {
        Ok(p) => p,
        Err(e) => {
            return Err(e);
        },
    };
    let segments = match parse_path_segments(path.as_str()) {
        Ok(s) => s,
        Err(e) => {
            return Err(e);
        },
    };
    let node = match query_path_segments(ast, &segments) {
        Ok(n) => n,
        Err(e) => {
            return Err(e);
        },
    };
    let actual = compute_canonical_hash(node);
    if !str_equal(actual.as_str(), expected.as_str()) {
        return Err(JsonError::HashMismatch { path, expected, actual });
    }
    Ok(())
}

/// Makes one edit on the tree and gives the new tree.
pub fn stage_edit(ast: &JsonValue, edit: &JsonEdit) -> (r: Result<JsonValue, JsonError>)
    ensures
        match r {
            Ok(next) => staged(ast@, *edit) == Ok::<Json, JsonFault>(next@),
            Err(e) => staged(ast@, *edit) == Err::<Json, JsonFault>(e@),
        },
{
    let (path, expected) = match parse_anchor(anchor_of(edit).as_str()) {
        Ok(p) => p,
        Err(e) => {
            return Err(e);
        },
    };
    let segments = match parse_path_segments(path.as_str()) {
        Ok(s) => s,
        Err(e) => {
            return Err(e);
        },
    };
    match edit {
        JsonEdit::SetPath { set_path } => set_at(ast, &segments, &set_path.value),
        JsonEdit::InsertAtPath { insert_at_path } => insert_at(
            ast,
            &segments,
            &insert_at_path.key,
            insert_at_path.index,
            &insert_at_path.value,
        ),
        JsonEdit::DeletePath { delete_path } => delete_at(ast, &segments),
    }
}

/// Applies a batch of JSON edits, all or nothing.
///
/// First every anchor is checked against the tree as it is: the batch is
/// refused with `HashMismatch` at the first anchor whose hash is not the
/// hash of the value at its path, and with a message at the first anchor or
/// path that does not parse or leads nowhere. Then the edits are made in
/// order on a copy; the first that fails refuses the batch. The tree takes
/// the new value only where every edit succeeded; where the batch is
/// refused, it stays as it was.
pub fn apply_json_edits(ast: &mut JsonValue, edits: &[JsonEdit]) -> (r: Result<(), JsonError>)
    ensures
        match r {
            Ok(_) => json_applied(old(ast)@, edits@) == Ok::<Json, JsonFault>(final(ast)@),
            Err(e) => json_applied(old(ast)@, edits@) == Err::<Json, JsonFault>(e@) && final(ast)@
                == old(ast)@,
        },
{
    let ghost before = ast@;
    let mut i: usize = 0;
    while i < edits.len()
        invariant
            i <= edits.len(),
            ast@ == before,
            validated_upto(before, edits@, i as int) is Ok,
        decreases edits.len() - i,
    {
        match validate_edit(ast, &edits[i]) {
            Ok(_) => {},
            Err(e) => {
                proof {
                    lemma_validation_error_stays(before, edits@, i + 1, edits@.len() as int);
                }
                return Err(e);
            },
        }
        i += 1;
    }
    let mut staged_ast = clone_value(ast);
    let mut k: usize = 0;
    while k < edits.len()
        invariant
            k <= edits.len(),
            ast@ == before,
            validated_upto(before, edits@, edits@.len() as int) is Ok,
            staged_upto(before, edits@, k as int) == Ok::<Json, JsonFault>(staged_ast@),
        decreases edits.len() - k,
    {
        match stage_edit(&staged_ast, &edits[k]) {
            Ok(next) => {
                staged_ast = next;
            },
            Err(e) => {
                proof {
                    lemma_staging_error_stays(before, edits@, k + 1, edits@.len() as int);
                }
                return Err(e);
            },
        }
        k += 1;
    }
    *ast = staged_ast;
    Ok(())
}

} // verus!
