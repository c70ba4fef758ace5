//! The text edit engine: a batch of anchored edits is parsed, held against
//! the file, ordered and spliced, all or nothing.

use crate::batch::{parse_batch, parsed_batch, parsed_views, ParsedEdit, ParsedRefs, ParsedView, RefsView};
use crate::edit::{
    mismatches_view, noops_view, AppliedView, ApplyResult, EditError, ErrorView, HashlineEdit,
    NoopView,
};
use crate::error::HashlineMismatchError;
use crate::order::{bottom_up, dedupe, deduped, lemma_insert_position, sort_bottom_up};
use crate::resolve::{check_batch, checked_batch, checked_edit, lemma_resolve_in_range};
use crate::splice::{all_in_range, apply_sorted, in_range, names_line, spliced, touched_lines};
use crate::text::{
    decimal, join, join_text, lemma_deep_view_push, owned, push_decimal, split, split_text,
    str_equal,
};
use std::collections::HashSet;
use vstd::prelude::*;

verus! {

// ---------------------------------------------------------------------------
// What a batch gives
// ---------------------------------------------------------------------------

/// How many of the first `upto` lines differ between `a` and `b`.
pub open spec fn differing(a: Seq<Seq<char>>, b: Seq<Seq<char>>, upto: int) -> nat
    decreases upto,
{
    if upto <= 0 {
        0
    } else {
        differing(a, b, upto - 1) + if a[upto - 1] != b[upto - 1] {
            1nat
        } else {
            0nat
        }
    }
}

/// The number of lines that a batch changed: the difference in length, and
/// the lines that differ where both texts have one.
pub open spec fn changed_line_count(original: Seq<Seq<char>>, result: Seq<Seq<char>>) -> nat {
    if result.len() >= original.len() {
        (result.len() - original.len()) as nat + differing(result, original, original.len() as int)
    } else {
        (original.len() - result.len()) as nat + differing(result, original, result.len() as int)
    }
}

/// The warning for a batch that changed many lines.
pub open spec fn churn_warning(count: nat, edits: nat) -> Seq<char> {
    "Edit changed "@ + decimal(count) + " lines across "@ + decimal(edits)
        + " operations — verify no unintended reformatting."@
}

/// The warnings of a batch: one, where it changed more than four lines for
/// each edit.
pub open spec fn warnings_for(original: Seq<Seq<char>>, result: Seq<Seq<char>>, edits: nat) -> Seq<
    Seq<char>,
> {
    if changed_line_count(original, result) > 4 * edits {
        seq![churn_warning(changed_line_count(original, result), edits)]
    } else {
        Seq::empty()
    }
}

/// What the validated edits of a batch give, once no anchor is stale: they
/// are deduplicated, ordered bottom-up and spliced into the lines of the
/// file; the result is the joined lines with the first changed line, the
/// warnings and the edits that changed nothing, or the message of an edit
/// that reaches past what is left of the lines.
pub open spec fn finished(file: Seq<Seq<char>>, checked: Seq<ParsedView>, edits: nat) -> Result<
    AppliedView,
    ErrorView,
> {
    match spliced(file, touched_lines(checked), bottom_up(deduped(checked))) {
        Err(m) => Err(ErrorView::Other(m)),
        Ok(st) => Ok(
            AppliedView {
                content: join(st.lines, '\n'),
                first_changed_line: st.first_changed,
                warnings: warnings_for(file, st.lines, edits),
                noop_edits: st.noops,
            },
        ),
    }
}

/// What applying `edits` to `content` gives. An empty batch gives the
/// content back. Else the edits are parsed; their anchors are held against
/// the lines of the content; any mismatch refuses the batch with all
/// mismatches and the lines; else the validated edits are applied.
pub open spec fn applied(content: Seq<char>, edits: Seq<HashlineEdit>) -> Result<
    AppliedView,
    ErrorView,
> {
    if edits.len() == 0 {
        Ok(
            AppliedView {
                content,
                first_changed_line: None,
                warnings: Seq::empty(),
                noop_edits: Seq::empty(),
            },
        )
    } else {
        let file = split(content, '\n');
        match parsed_batch(edits) {
            Err(m) => Err(ErrorView::Other(m)),
            Ok(parsed) => match checked_batch(file, parsed) {
                Err(m) => Err(ErrorView::Other(m)),
                Ok((checked, mismatches)) => if mismatches.len() > 0 {
                    Err(ErrorView::Mismatch { mismatches, file_lines: file })
                } else {
                    finished(file, checked, edits.len())
                },
            },
        }
    }
}

// ---------------------------------------------------------------------------
// Edits stay within the file
// ---------------------------------------------------------------------------

/// An edit that passed validation without a mismatch names lines of the
/// file.
pub proof fn lemma_checked_edit_in_range(file: Seq<Seq<char>>, p: ParsedView)
    requires
        checked_edit(file, p) is Ok,
        checked_edit(file, p)->Ok_0.1.len() == 0,
    ensures
        in_range(checked_edit(file, p)->Ok_0.0, file.len() as int),
{
    match p.refs {
        RefsView::Single { line, hash } => {
            lemma_resolve_in_range(file, line, hash);
        },
        RefsView::InsertAfter { line, hash } => {
            lemma_resolve_in_range(file, line, hash);
        },
        RefsView::Range { start_line, start_hash, end_line, end_hash } => {
            lemma_resolve_in_range(file, start_line, start_hash);
            lemma_resolve_in_range(file, end_line, end_hash);
        },
    }
}

/// A batch that passed validation without a mismatch names lines of the
/// file only, and has as many edits as were parsed.
pub proof fn lemma_checked_in_range(file: Seq<Seq<char>>, parsed: Seq<ParsedView>)
    requires
        checked_batch(file, parsed) is Ok,
        checked_batch(file, parsed)->Ok_0.1.len() == 0,
    ensures
        all_in_range(checked_batch(file, parsed)->Ok_0.0, file.len() as int),
        checked_batch(file, parsed)->Ok_0.0.len() == parsed.len(),
    decreases parsed.len(),
{
    if parsed.len() > 0 {
        lemma_checked_in_range(file, parsed.drop_last());
        lemma_checked_edit_in_range(file, parsed.last());
    }
}

/// What is left after deduplication names lines of the file only.
pub proof fn lemma_deduped_in_range(edits: Seq<ParsedView>, total: int)
    requires
        all_in_range(edits, total),
    ensures
        all_in_range(deduped(edits), total),
    decreases edits.len(),
{
    if edits.len() > 0 {
        assert forall|i: int| 0 <= i < edits.drop_last().len() implies in_range(
            #[trigger] edits.drop_last()[i],
            total,
        ) by {
            assert(edits.drop_last()[i] == edits[i]);
        }
        lemma_deduped_in_range(edits.drop_last(), total);
        assert(in_range(edits[edits.len() - 1], total));
    }
}

/// Ordering keeps the edits within the file.
pub proof fn lemma_bottom_up_in_range(edits: Seq<ParsedView>, total: int)
    requires
        all_in_range(edits, total),
    ensures
        all_in_range(bottom_up(edits), total),
    decreases edits.len(),
{
    if edits.len() > 0 {
        assert forall|i: int| 0 <= i < edits.drop_last().len() implies in_range(
            #[trigger] edits.drop_last()[i],
            total,
        ) by {
            assert(edits.drop_last()[i] == edits[i]);
        }
        lemma_bottom_up_in_range(edits.drop_last(), total);
        let sorted = bottom_up(edits.drop_last());
        lemma_insert_position(sorted, edits.last());
        assert(in_range(edits[edits.len() - 1], total));
    }
}

// ---------------------------------------------------------------------------
// The lines that a batch names
// ---------------------------------------------------------------------------

/// The lines that one edit names.
pub open spec fn own_lines(p: ParsedView) -> Set<usize> {
    Set::new(|n: usize| names_line(p, n as int))
}

/// The lines named by a batch with one more edit.
pub proof fn lemma_touched_push(edits: Seq<ParsedView>, e: ParsedView)
    ensures
        touched_lines(edits.push(e)) == touched_lines(edits).union(own_lines(e)),
{
    let more = edits.push(e);
    assert forall|n: usize|
        touched_lines(more).contains(n) <==> touched_lines(edits).union(own_lines(e)).contains(
            n,
        ) by {
        if touched_lines(more).contains(n) {
            let i = choose|i: int| 0 <= i < more.len() && names_line(#[trigger] more[i], n as int);
            if i < edits.len() {
                assert(names_line(edits[i], n as int));
            }
        }
        if touched_lines(edits).contains(n) {
            let i = choose|i: int| 0 <= i < edits.len() && names_line(#[trigger] edits[i], n as int);
            assert(names_line(more[i], n as int));
        }
        if own_lines(e).contains(n) {
            assert(names_line(more[edits.len() as int], n as int));
        }
    }
    assert(touched_lines(more) =~= touched_lines(edits).union(own_lines(e)));
}

/// Adds the lines that one edit names.
fn touch(set: &mut HashSet<usize>, refs: &ParsedRefs)
    ensures
        final(set)@ == old(set)@.union(
            own_lines(ParsedView { index: 0, refs: refs@, dst: Seq::empty() }),
        ),
{
    broadcast use vstd::std_specs::hash::group_hash_axioms;

    let ghost p = ParsedView { index: 0, refs: refs@, dst: Seq::empty() };
    match refs {
        ParsedRefs::Single { line, .. } => {
            set.insert(*line);
            assert(set@ =~= old(set)@.union(own_lines(p)));
        },
        ParsedRefs::InsertAfter { line, .. } => {
            set.insert(*line);
            assert(set@ =~= old(set)@.union(own_lines(p)));
        },
        ParsedRefs::Range { start_line, end_line, .. } => {
            let start = *start_line;
            let end = *end_line;
            if start <= end {
                let mut ln: usize = start;
                assert(set@ =~= old(set)@.union(Set::new(|n: usize| start <= n < ln)));
                while ln < end
                    invariant
                        start <= ln <= end,
                        set@ == old(set)@.union(Set::new(|n: usize| start <= n < ln)),
                    decreases end - ln,
                {
                    set.insert(ln);
                    assert(set@ =~= old(set)@.union(Set::new(|n: usize| start <= n < ln + 1)));
                    ln += 1;
                }
                set.insert(end);
            }
            assert(set@ =~= old(set)@.union(own_lines(p)));
        },
    }
}

/// The lines that the edits of the batch name.
pub fn collect_touched(edits: &Vec<ParsedEdit>) -> (r: HashSet<usize>)
    ensures
        r@ == touched_lines(parsed_views(edits@)),
{
    broadcast use vstd::std_specs::hash::group_hash_axioms;

    let ghost views = parsed_views(edits@);
    let mut r: HashSet<usize> = HashSet::new();
    let mut i: usize = 0;
    assert(r@ =~= touched_lines(views.take(0)));
    while i < edits.len()
        invariant
            i <= edits.len(),
            views == parsed_views(edits@),
            r@ == touched_lines(views.take(i as int)),
        decreases edits.len() - i,
    {
        proof {
            assert(views.take(i + 1) =~= views.take(i as int).push(views[i as int]));
            lemma_touched_push(views.take(i as int), views[i as int]);
            assert(own_lines(views[i as int]) =~= own_lines(
                ParsedView { index: 0, refs: edits@[i as int].refs@, dst: Seq::empty() },
            ));
        }
        touch(&mut r, &edits[i].refs);
        i += 1;
    }
    assert(views.take(edits@.len() as int) =~= views);
    r
}

// ---------------------------------------------------------------------------
// Warnings
// ---------------------------------------------------------------------------

/// The number of lines that a batch changed.
fn count_changed(original: &[String], result: &[String]) -> (r: usize)
    ensures
        r == changed_line_count(original.deep_view(), result.deep_view()),
{
    let shared = if result.len() >= original.len() {
        original.len()
    } else {
        result.len()
    };
    let mut diff: usize = 0;
    let mut i: usize = 0;
    while i < shared
        invariant
            i <= shared,
            shared <= original.len(),
            shared <= result.len(),
            diff == differing(result.deep_view(), original.deep_view(), i as int),
            diff <= i,
        decreases shared - i,
    {
        if !str_equal(result[i].as_str(), original[i].as_str()) {
            diff += 1;
        }
        i += 1;
    }
    if result.len() >= original.len() {
        (result.len() - original.len()) + diff
    } else {
        (original.len() - result.len()) + diff
    }
}

/// The warnings of a batch of `edits` edits.
fn warnings(original: &[String], result: &[String], edits: usize) -> (r: Vec<String>)
    ensures
        r.deep_view() == warnings_for(original.deep_view(), result.deep_view(), edits as nat),
{
    let count = count_changed(original, result);
    let mut r: Vec<String> = Vec::new();
    if (count as u128) > 4 * (edits as u128) {
        let mut w = String::from_str("Edit changed ");
        push_decimal(&mut w, count as u128);
        w.append(" lines across ");
        push_decimal(&mut w, edits as u128);
        w.append(" operations — verify no unintended reformatting.");
        let ghost before = r@;
        r.push(w);
        proof {
            lemma_deep_view_push(before, r@, w);
            assert(r.deep_view() =~= seq![w@]);
        }
    } else {
        assert(r.deep_view() =~= Seq::<Seq<char>>::empty());
    }
    r
}

// ---------------------------------------------------------------------------
// The engine
// ---------------------------------------------------------------------------

/// Applies a batch of anchored edits to `content`.
///
/// The batch is all or nothing. It is refused with the message of the first
/// edit that does not parse or names a line out of range; with every stale
/// anchor and the lines of the file, where an anchor is stale and its hash
/// is not the hash of exactly one line; and with a message where an edit
/// would reach past the end of the lines that earlier edits of the batch
/// left. The content itself is never changed: the result is a new text.
pub fn apply_hashline_edits(content: &str, edits: &[HashlineEdit]) -> (r: Result<
    ApplyResult,
    EditError,
>)
    ensures
        match r {
            Ok(res) => applied(content@, edits@) == Ok::<AppliedView, ErrorView>(res@),
            Err(e) => applied(content@, edits@) == Err::<AppliedView, ErrorView>(e@),
        },
        edits@.len() == 0 ==> r is Ok && r->Ok_0.content@ == content@
            && r->Ok_0.first_changed_line is None,
        r is Err && r->Err_0 is Mismatch ==> r->Err_0->Mismatch_0.wf(),
{
    if edits.len() == 0 {
        let res = ApplyResult {
            content: owned(content),
            first_changed_line: None,
            warnings: Vec::new(),
            noop_edits: Vec::new(),
        };
        proof {
            assert(res.warnings.deep_view() =~= Seq::<Seq<char>>::empty());
            assert(noops_view(res.noop_edits@) =~= Seq::<NoopView>::empty());
        }
        return Ok(res);
    }
    let file_lines = split_text(content, '\n');
    let ghost file = file_lines.deep_view();
    let parsed = match parse_batch(edits) {
        Err(m) => {
            return Err(EditError::Other(m));
        },
        Ok(p) => p,
    };
    let (checked, mismatches) = match check_batch(file_lines.as_slice(), &parsed) {
        Err(m) => {
            return Err(EditError::Other(m));
        },
        Ok(c) => c,
    };
    if mismatches.len() > 0 {
        proof {
            lemma_mismatches_in_file(file, parsed_views(parsed@));
            assert forall|i: int| 0 <= i < mismatches@.len() implies 1 <= (
            #[trigger] mismatches@[i]).line <= file_lines@.len() by {
                assert(mismatches_view(mismatches@)[i].line == mismatches@[i].line);
            }
        }
        return Err(EditError::Mismatch(HashlineMismatchError::new(mismatches, file_lines)));
    }
    proof {
        assert(mismatches_view(mismatches@).len() == 0);
        lemma_checked_in_range(file, parsed_views(parsed@));
        lemma_deduped_in_range(parsed_views(checked@), file.len() as int);
        lemma_bottom_up_in_range(deduped(parsed_views(checked@)), file.len() as int);
    }
    let touched = collect_touched(&checked);
    let unique = dedupe(&checked);
    let sorted = sort_bottom_up(&unique);
    let st = match apply_sorted(file_lines.as_slice(), &touched, &sorted) {
        Err(m) => {
            return Err(EditError::Other(m));
        },
        Ok(s) => s,
    };
    let warnings = warnings(file_lines.as_slice(), st.lines.as_slice(), edits.len());
    let content = join_text(st.lines.as_slice(), '\n');
    Ok(
        ApplyResult {
            content,
            first_changed_line: st.first_changed,
            warnings,
            noop_edits: st.noops,
        },
    )
}

/// Every mismatch of one edit names a line of the file.
pub proof fn lemma_edit_mismatches_in_file(file: Seq<Seq<char>>, p: ParsedView)
    requires
        checked_edit(file, p) is Ok,
    ensures
        forall|i: int|
            0 <= i < checked_edit(file, p)->Ok_0.1.len() ==> 1 <= (#[trigger] checked_edit(
                file,
                p,
            )->Ok_0.1[i]).line <= file.len(),
{
}

/// Every mismatch of a batch names a line of the file.
pub proof fn lemma_mismatches_in_file(file: Seq<Seq<char>>, parsed: Seq<ParsedView>)
    requires
        checked_batch(file, parsed) is Ok,
    ensures
        forall|i: int|
            0 <= i < checked_batch(file, parsed)->Ok_0.1.len() ==> 1 <= (#[trigger] checked_batch(
                file,
                parsed,
            )->Ok_0.1[i]).line <= file.len(),
    decreases parsed.len(),
{
    if parsed.len() > 0 {
        lemma_mismatches_in_file(file, parsed.drop_last());
        lemma_edit_mismatches_in_file(file, parsed.last());
    }
}

} // verus!
