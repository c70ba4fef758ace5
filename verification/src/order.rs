//! The third phase of a batch: edits that say the same thing twice are
//! dropped, and the rest are put in the order in which they are applied,
//! from the bottom of the file up.

use crate::batch::{lemma_parsed_views_push, parsed_views, ParsedEdit, ParsedRefs, ParsedView, RefsView};
use crate::text::{clone_lines, join, join_text, str_equal};
use vstd::prelude::*;

verus! {

/// Two edits name the same lines in the same way and put the same text
/// there.
pub open spec fn same_key(a: ParsedView, b: ParsedView) -> bool {
    &&& join(a.dst, '\n') == join(b.dst, '\n')
    &&& match (a.refs, b.refs) {
        (RefsView::Single { line: x, .. }, RefsView::Single { line: y, .. }) => x == y,
        (
            RefsView::Range { start_line: s1, end_line: e1, .. },
            RefsView::Range { start_line: s2, end_line: e2, .. },
        ) => s1 == s2 && e1 == e2,
        (RefsView::InsertAfter { line: x, .. }, RefsView::InsertAfter { line: y, .. }) => x == y,
        _ => false,
    }
}

/// An edit before place `i` says the same as the edit at place `i`.
pub open spec fn seen_before(edits: Seq<ParsedView>, i: int) -> bool {
    exists|j: int| 0 <= j < i && #[trigger] same_key(edits[j], edits[i])
}

/// The edits without those that an earlier edit already said.
pub open spec fn deduped(edits: Seq<ParsedView>) -> Seq<ParsedView>
    decreases edits.len(),
{
    if edits.len() == 0 {
        Seq::empty()
    } else if seen_before(edits, edits.len() - 1) {
        deduped(edits.drop_last())
    } else {
        deduped(edits.drop_last()).push(edits.last())
    }
}

/// The line that places an edit in the order: its line, or the end of its
/// range.
pub open spec fn sort_line(p: ParsedView) -> int {
    match p.refs {
        RefsView::Single { line, .. } => line,
        RefsView::Range { end_line, .. } => end_line,
        RefsView::InsertAfter { line, .. } => line,
    }
}

/// Insertions come after replacements at the same line.
pub open spec fn precedence(p: ParsedView) -> int {
    match p.refs {
        RefsView::InsertAfter { .. } => 1,
        _ => 0,
    }
}

/// `a` is applied before `b`: it lies lower in the file; or at the same line
/// and is a replacement while `b` is an insertion; or is of the same kind
/// and came earlier in the batch.
pub open spec fn goes_before(a: ParsedView, b: ParsedView) -> bool {
    sort_line(a) > sort_line(b) || (sort_line(a) == sort_line(b) && (precedence(a) < precedence(b)
        || (precedence(a) == precedence(b) && a.index < b.index)))
}

/// The place of `e` among `sorted`: before the first edit that it goes
/// before.
pub open spec fn insert_position(sorted: Seq<ParsedView>, e: ParsedView) -> int
    decreases sorted.len(),
{
    if sorted.len() == 0 || goes_before(e, sorted[0]) {
        0
    } else {
        1 + insert_position(sorted.skip(1), e)
    }
}

/// The edits in the order in which they are applied.
pub open spec fn bottom_up(edits: Seq<ParsedView>) -> Seq<ParsedView>
    decreases edits.len(),
{
    if edits.len() == 0 {
        Seq::empty()
    } else {
        let sorted = bottom_up(edits.drop_last());
        sorted.insert(insert_position(sorted, edits.last()), edits.last())
    }
}

/// The place of an edit is in range; it goes before no edit in front of
/// that place, and before the edit at that place.
pub proof fn lemma_insert_position(sorted: Seq<ParsedView>, e: ParsedView)
    ensures
        0 <= insert_position(sorted, e) <= sorted.len(),
        forall|j: int| 0 <= j < insert_position(sorted, e) ==> !goes_before(e, #[trigger] sorted[j]),
        insert_position(sorted, e) < sorted.len() ==> goes_before(
            e,
            sorted[insert_position(sorted, e)],
        ),
    decreases sorted.len(),
{
    if sorted.len() == 0 || goes_before(e, sorted[0]) {
    } else {
        let rest = sorted.skip(1);
        lemma_insert_position(rest, e);
        let k = insert_position(rest, e);
        assert forall|j: int| 0 <= j < 1 + k implies !goes_before(e, #[trigger] sorted[j]) by {
            if j > 0 {
                assert(rest[j - 1] == sorted[j]);
            }
        }
        if k < rest.len() {
            assert(rest[k] == sorted[k + 1]);
        }
    }
}

/// The place with the properties of `lemma_insert_position` is
/// `insert_position`.
pub proof fn lemma_insert_position_unique(sorted: Seq<ParsedView>, e: ParsedView, k: int)
    requires
        0 <= k <= sorted.len(),
        forall|j: int| 0 <= j < k ==> !goes_before(e, #[trigger] sorted[j]),
        k < sorted.len() ==> goes_before(e, sorted[k]),
    ensures
        insert_position(sorted, e) == k,
{
    lemma_insert_position(sorted, e);
    let f = insert_position(sorted, e);
    if f < k {
        assert(!goes_before(e, sorted[f]));
    } else if k < f {
        assert(!goes_before(e, sorted[k]));
    }
}

/// No edit stands behind one that it goes before.
pub open spec fn bottom_up_ordered(edits: Seq<ParsedView>) -> bool {
    forall|i: int, j: int| 0 <= i < j < edits.len() ==> !goes_before(edits[j], edits[i])
}

/// The order of application holds the edits of the batch, each as often as
/// the batch does, and no edit in it stands behind one that it goes before.
pub proof fn lemma_bottom_up_sorts(edits: Seq<ParsedView>)
    ensures
        bottom_up(edits).to_multiset() == edits.to_multiset(),
        bottom_up(edits).len() == edits.len(),
        bottom_up_ordered(bottom_up(edits)),
    decreases edits.len(),
{
    if edits.len() == 0 {
        assert(edits =~= Seq::<ParsedView>::empty());
    } else {
        let before = edits.drop_last();
        let e = edits.last();
        lemma_bottom_up_sorts(before);
        let sorted = bottom_up(before);
        let k = insert_position(sorted, e);
        lemma_insert_position(sorted, e);
        let after = sorted.insert(k, e);
        vstd::seq_lib::to_multiset_insert(sorted, k, e);
        vstd::seq_lib::to_multiset_build(before, e);
        assert(before.push(e) =~= edits);
        assert forall|i: int, j: int| 0 <= i < j < after.len() implies !goes_before(
            after[j],
            after[i],
        ) by {
            if j == k {
                assert(after[i] == sorted[i]);
            } else if i == k {
                assert(after[j] == sorted[j - 1]);
                if j - 1 > k {
                    assert(!goes_before(sorted[j - 1], sorted[k]));
                }
            } else {
                let i0 = if i < k {
                    i
                } else {
                    i - 1
                };
                let j0 = if j < k {
                    j
                } else {
                    j - 1
                };
                assert(after[i] == sorted[i0]);
                assert(after[j] == sorted[j0]);
            }
        }
    }
}

/// A copy of an edit.
pub fn clone_edit(e: &ParsedEdit) -> (r: ParsedEdit)
    ensures
        r@ == e@,
{
    let refs = match &e.refs {
        ParsedRefs::Single { line, hash } => ParsedRefs::Single { line: *line, hash: hash.clone() },
        ParsedRefs::Range { start_line, start_hash, end_line, end_hash } => ParsedRefs::Range {
            start_line: *start_line,
            start_hash: start_hash.clone(),
            end_line: *end_line,
            end_hash: end_hash.clone(),
        },
        ParsedRefs::InsertAfter { line, hash } => ParsedRefs::InsertAfter {
            line: *line,
            hash: hash.clone(),
        },
    };
    ParsedEdit { index: e.index, refs, dst_lines: clone_lines(e.dst_lines.as_slice()) }
}

/// Whether two edits name the same lines in the same way.
fn same_lines(a: &ParsedRefs, b: &ParsedRefs) -> (r: bool)
    ensures
        r == match (a@, b@) {
            (RefsView::Single { line: x, .. }, RefsView::Single { line: y, .. }) => x == y,
            (
                RefsView::Range { start_line: s1, end_line: e1, .. },
                RefsView::Range { start_line: s2, end_line: e2, .. },
            ) => s1 == s2 && e1 == e2,
            (RefsView::InsertAfter { line: x, .. }, RefsView::InsertAfter { line: y, .. }) => x == y,
            _ => false,
        },
{
    match a {
        ParsedRefs::Single { line: x, .. } => match b {
            ParsedRefs::Single { line: y, .. } => *x == *y,
            _ => false,
        },
        ParsedRefs::Range { start_line: s1, end_line: e1, .. } => match b {
            ParsedRefs::Range { start_line: s2, end_line: e2, .. } => *s1 == *s2 && *e1 == *e2,
            _ => false,
        },
        ParsedRefs::InsertAfter { line: x, .. } => match b {
            ParsedRefs::InsertAfter { line: y, .. } => *x == *y,
            _ => false,
        },
    }
}

/// The replacement text of every edit, joined.
fn joined_texts(edits: &Vec<ParsedEdit>) -> (r: Vec<String>)
    ensures
        r@.len() == edits@.len(),
        forall|i: int| 0 <= i < r@.len() ==> (#[trigger] r@[i])@ == join(edits@[i]@.dst, '\n'),
{
    let mut r: Vec<String> = Vec::new();
    let mut i: usize = 0;
    while i < edits.len()
        invariant
            i <= edits.len(),
            r@.len() == i,
            forall|k: int| 0 <= k < i ==> (#[trigger] r@[k])@ == join(edits@[k]@.dst, '\n'),
        decreases edits.len() - i,
    {
        r.push(join_text(edits[i].dst_lines.as_slice(), '\n'));
        i += 1;
    }
    r
}

/// Drops every edit that an earlier edit of the batch already said; the
/// first of them stays.
pub fn dedupe(edits: &Vec<ParsedEdit>) -> (r: Vec<ParsedEdit>)
    ensures
        parsed_views(r@) == deduped(parsed_views(edits@)),
{
    let ghost views = parsed_views(edits@);
    let texts = joined_texts(edits);
    let mut r: Vec<ParsedEdit> = Vec::new();
    let mut i: usize = 0;
    proof {
        assert(views.take(0) =~= Seq::<ParsedView>::empty());
        assert(parsed_views(r@) =~= Seq::<ParsedView>::empty());
    }
    while i < edits.len()
        invariant
            i <= edits.len(),
            views == parsed_views(edits@),
            texts@.len() == edits@.len(),
            forall|k: int|
                0 <= k < texts@.len() ==> (#[trigger] texts@[k])@ == join(edits@[k]@.dst, '\n'),
            parsed_views(r@) == deduped(views.take(i as int)),
        decreases edits.len() - i,
    {
        let mut seen = false;
        let mut j: usize = 0;
        while j < i
            invariant
                j <= i < edits.len(),
                views == parsed_views(edits@),
                texts@.len() == edits@.len(),
                forall|k: int|
                    0 <= k < texts@.len() ==> (#[trigger] texts@[k])@ == join(edits@[k]@.dst, '\n'),
                seen == exists|k: int| 0 <= k < j && #[trigger] same_key(views[k], views[i as int]),
            decreases i - j,
        {
            if same_lines(&edits[j].refs, &edits[i].refs) && str_equal(
                texts[j].as_str(),
                texts[i].as_str(),
            ) {
                assert(same_key(views[j as int], views[i as int]));
                seen = true;
            }
            j += 1;
        }
        proof {
            let now = views.take(i + 1);
            assert(now.drop_last() =~= views.take(i as int));
            assert(now.last() == views[i as int]);
            assert(seen == seen_before(now, i as int)) by {
                if seen {
                    let k = choose|k: int|
                        0 <= k < i && #[trigger] same_key(views[k], views[i as int]);
                    assert(same_key(now[k], now[i as int]));
                }
                if seen_before(now, i as int) {
                    let k = choose|k: int| 0 <= k < i && #[trigger] same_key(now[k], now[i as int]);
                    assert(same_key(views[k], views[i as int]));
                }
            }
        }
        if !seen {
            let e = clone_edit(&edits[i]);
            proof {
                lemma_parsed_views_push(r@, e);
            }
            r.push(e);
        }
        i += 1;
    }
    assert(views.take(edits@.len() as int) =~= views);
    r
}

/// Whether `a` is applied before `b`.
fn edit_goes_before(a: &ParsedEdit, b: &ParsedEdit) -> (r: bool)
    ensures
        r == goes_before(a@, b@),
{
    let (la, pa): (usize, u8) = match &a.refs {
        ParsedRefs::Single { line, .. } => (*line, 0),
        ParsedRefs::Range { end_line, .. } => (*end_line, 0),
        ParsedRefs::InsertAfter { line, .. } => (*line, 1),
    };
    let (lb, pb): (usize, u8) = match &b.refs {
        ParsedRefs::Single { line, .. } => (*line, 0),
        ParsedRefs::Range { end_line, .. } => (*end_line, 0),
        ParsedRefs::InsertAfter { line, .. } => (*line, 1),
    };
    la > lb || (la == lb && (pa < pb || (pa == pb && a.index < b.index)))
}

/// Puts the edits in the order in which they are applied: from the bottom of
/// the file up; at one line, replacements before insertions; and otherwise
/// as they came in the batch.
pub fn sort_bottom_up(edits: &Vec<ParsedEdit>) -> (r: Vec<ParsedEdit>)
    ensures
        parsed_views(r@) == bottom_up(parsed_views(edits@)),
{
    let ghost views = parsed_views(edits@);
    let mut r: Vec<ParsedEdit> = Vec::new();
    let mut i: usize = 0;
    proof {
        assert(views.take(0) =~= Seq::<ParsedView>::empty());
        assert(parsed_views(r@) =~= Seq::<ParsedView>::empty());
    }
    while i < edits.len()
        invariant
            i <= edits.len(),
            views == parsed_views(edits@),
            parsed_views(r@) == bottom_up(views.take(i as int)),
        decreases edits.len() - i,
    {
        let e = clone_edit(&edits[i]);
        let ghost sorted = parsed_views(r@);
        let mut pos: usize = 0;
        while pos < r.len() && !edit_goes_before(&e, &r[pos])
            invariant
                pos <= r.len(),
                sorted == parsed_views(r@),
                forall|j: int| 0 <= j < pos ==> !goes_before(e@, #[trigger] sorted[j]),
            decreases r.len() - pos,
        {
            pos += 1;
        }
        proof {
            lemma_insert_position_unique(sorted, e@, pos as int);
            let now = views.take(i + 1);
            assert(now.drop_last() =~= views.take(i as int));
            assert(now.last() == views[i as int]);
        }
        r.insert(pos, e);
        assert(parsed_views(r@) =~= sorted.insert(pos as int, e@));
        i += 1;
    }
    assert(views.take(edits@.len() as int) =~= views);
    r
}

} // verus!
