//! The fourth phase of a batch: the edits are spliced into a copy of the
//! file's lines, one after the other, each after its repairs; edits that
//! change nothing are recorded instead.

use crate::batch::{parsed_views, ParsedEdit, ParsedRefs, ParsedView, RefsView};
use crate::edit::{line_view, noop_view, noops_view, NoopEdit, NoopView};
use crate::heuristics::{
    any_confusable, any_confusable_hyphens, maybe_expand_single_line_merge, merge_start,
    normalize_confusable_hyphens_in_lines, normalize_hyphens_lines, reindent_paired,
    restore_indent_for_paired_replacement, restore_old_wrapped_lines,
    strip_insert_anchor_echo_after, strip_range_boundary_echo, unwrapped, without_anchor_echo,
    without_boundary_echo,
};
use crate::resolve::missing_line_message;
use crate::text::{
    clone_lines, clone_range, decimal, join, join_text, push_decimal, splice_lines, str_equal,
};
use std::collections::HashSet;
use vstd::prelude::*;

verus! {

/// The edit names line `n`.
pub open spec fn names_line(p: ParsedView, n: int) -> bool {
    match p.refs {
        RefsView::Single { line, .. } => n == line,
        RefsView::Range { start_line, end_line, .. } => start_line <= n <= end_line,
        RefsView::InsertAfter { line, .. } => n == line,
    }
}

/// The lines that the edits of the batch name.
pub open spec fn touched_lines(edits: Seq<ParsedView>) -> Set<usize> {
    Set::new(|n: usize| exists|i: int| 0 <= i < edits.len() && names_line(#[trigger] edits[i], n as int))
}

/// The lines that the edit names are lines of a file of `total` lines.
pub open spec fn in_range(p: ParsedView, total: int) -> bool {
    match p.refs {
        RefsView::Single { line, .. } => 1 <= line <= total,
        RefsView::Range { start_line, end_line, .. } => 1 <= start_line <= end_line <= total,
        RefsView::InsertAfter { line, .. } => 1 <= line <= total,
    }
}

/// Every edit names lines of a file of `total` lines.
pub open spec fn all_in_range(edits: Seq<ParsedView>, total: int) -> bool {
    forall|i: int| 0 <= i < edits.len() ==> in_range(#[trigger] edits[i], total)
}

/// The lines as they stand, the first line changed so far, and the edits
/// that changed nothing.
pub struct SpliceState {
    pub lines: Seq<Seq<char>>,
    pub first_changed: Option<int>,
    pub noops: Seq<NoopView>,
}

/// The smaller of the first changed line so far and `line`.
pub open spec fn earlier(first: Option<int>, line: int) -> Option<int> {
    match first {
        Some(f) => if line < f {
            Some(line)
        } else {
            first
        },
        None => Some(line),
    }
}

/// The anchor text of a line and a hash.
pub open spec fn anchor_of(line: int, hash: Seq<char>) -> Seq<char> {
    decimal(line as nat) + seq![':'] + hash
}

/// The replacement with its look-alike hyphens made plain, where it is the
/// text of the replaced lines and those lines hold such hyphens; else the
/// replacement.
pub open spec fn settle_hyphens(orig: Seq<Seq<char>>, new_lines: Seq<Seq<char>>) -> Seq<Seq<char>> {
    if join(orig, '\n') == join(new_lines, '\n') && any_confusable(orig) {
        normalize_hyphens_lines(new_lines)
    } else {
        new_lines
    }
}

/// The replacement of the original lines `start` to `end` after the repairs:
/// echoed neighbours dropped, reflowed lines restored, indentation restored,
/// hyphens settled.
pub open spec fn repaired(original: Seq<Seq<char>>, start: int, end: int, dst: Seq<Seq<char>>) -> Seq<
    Seq<char>,
> {
    let orig = original.subrange(start - 1, end);
    settle_hyphens(
        orig,
        reindent_paired(orig, unwrapped(orig, without_boundary_echo(original, start, end, dst))),
    )
}

/// The state after `count` lines from line `start` are replaced by
/// `new_lines`: a no-op where the replacement is the original text of those
/// lines; a refusal where the lines as they stand end before the span does;
/// else the splice.
pub open spec fn replace_span(
    original: Seq<Seq<char>>,
    st: SpliceState,
    index: int,
    loc: Seq<char>,
    start: int,
    count: int,
    new_lines: Seq<Seq<char>>,
) -> Result<SpliceState, Seq<char>> {
    let orig = original.subrange(start - 1, start - 1 + count);
    if join(orig, '\n') == join(new_lines, '\n') {
        Ok(
            SpliceState {
                lines: st.lines,
                first_changed: st.first_changed,
                noops: st.noops.push(
                    NoopView { edit_index: index, loc, current_content: join(orig, '\n') },
                ),
            },
        )
    } else if start - 1 + count > st.lines.len() {
        Err(missing_line_message(start - 1 + count, st.lines.len() as int))
    } else {
        Ok(
            SpliceState {
                lines: st.lines.take(start - 1) + new_lines + st.lines.skip(start - 1 + count),
                first_changed: earlier(st.first_changed, start),
                noops: st.noops,
            },
        )
    }
}

/// The state after one edit. A single-line replacement that took in a
/// neighbouring line of the file as it was read replaces both lines.
pub open spec fn apply_one(
    original: Seq<Seq<char>>,
    touched: Set<usize>,
    st: SpliceState,
    p: ParsedView,
) -> Result<SpliceState, Seq<char>> {
    match p.refs {
        RefsView::Single { line, hash } => {
            let merge = merge_start(line, p.dst, st.lines, touched);
            if merge is Some && merge->0 + 1 <= original.len() {
                let start = merge->0;
                let orig = original.subrange(start - 1, start + 1);
                replace_span(
                    original,
                    st,
                    p.index,
                    anchor_of(line, hash),
                    start,
                    2,
                    settle_hyphens(orig, reindent_paired(seq![orig[0]], p.dst)),
                )
            } else {
                replace_span(
                    original,
                    st,
                    p.index,
                    anchor_of(line, hash),
                    line,
                    1,
                    repaired(original, line, line, p.dst),
                )
            }
        },
        RefsView::Range { start_line, start_hash, end_line, .. } => replace_span(
            original,
            st,
            p.index,
            anchor_of(start_line, start_hash),
            start_line,
            end_line - start_line + 1,
            repaired(original, start_line, end_line, p.dst),
        ),
        RefsView::InsertAfter { line, hash } => {
            let inserted = without_anchor_echo(original[line - 1], p.dst);
            if inserted.len() == 0 {
                Ok(
                    SpliceState {
                        lines: st.lines,
                        first_changed: st.first_changed,
                        noops: st.noops.push(
                            NoopView {
                                edit_index: p.index,
                                loc: anchor_of(line, hash),
                                current_content: original[line - 1],
                            },
                        ),
                    },
                )
            } else if line > st.lines.len() {
                Err(missing_line_message(line, st.lines.len() as int))
            } else {
                Ok(
                    SpliceState {
                        lines: st.lines.take(line) + inserted + st.lines.skip(line),
                        first_changed: earlier(st.first_changed, line + 1),
                        noops: st.noops,
                    },
                )
            }
        },
    }
}

/// The state after the edits are applied in turn to the original lines.
pub open spec fn spliced(original: Seq<Seq<char>>, touched: Set<usize>, edits: Seq<ParsedView>) -> Result<
    SpliceState,
    Seq<char>,
>
    decreases edits.len(),
{
    if edits.len() == 0 {
        Ok(SpliceState { lines: original, first_changed: None, noops: Seq::empty() })
    } else {
        match spliced(original, touched, edits.drop_last()) {
            Err(m) => Err(m),
            Ok(st) => apply_one(original, touched, st, edits.last()),
        }
    }
}

/// An edit that is refused fails the batch whatever follows.
pub proof fn lemma_splice_error_stays(
    original: Seq<Seq<char>>,
    touched: Set<usize>,
    edits: Seq<ParsedView>,
    k: int,
)
    requires
        0 <= k <= edits.len(),
        spliced(original, touched, edits.take(k)) is Err,
    ensures
        spliced(original, touched, edits) == spliced(original, touched, edits.take(k)),
    decreases edits.len() - k,
{
    if k < edits.len() {
        assert(edits.take(k + 1).drop_last() =~= edits.take(k));
        lemma_splice_error_stays(original, touched, edits, k + 1);
    } else {
        assert(edits.take(k) =~= edits);
    }
}

/// The lines as they stand, the first line changed so far, and the edits
/// that changed nothing.
pub struct Splice {
    pub lines: Vec<String>,
    pub first_changed: Option<usize>,
    pub noops: Vec<NoopEdit>,
}

impl Splice {
    /// The plain values of the state.
    pub open spec fn view(&self) -> SpliceState {
        SpliceState {
            lines: self.lines.deep_view(),
            first_changed: line_view(self.first_changed),
            noops: noops_view(self.noops@),
        }
    }
}

/// The smaller of the first changed line so far and `line`.
pub fn track_first_changed(first: Option<usize>, line: usize) -> (r: Option<usize>)
    ensures
        line_view(r) == earlier(line_view(first), line as int),
{
    match first {
        Some(f) => if line < f {
            Some(line)
        } else {
            first
        },
        None => Some(line),
    }
}

fn anchor_label(line: usize, hash: &str) -> (r: String)
    ensures
        r@ == anchor_of(line as int, hash@),
{
    let mut r = String::new();
    push_decimal(&mut r, line as u128);
    r.push(':');
    r.append(hash);
    assert(r@ =~= anchor_of(line as int, hash@));
    r
}

fn missing_line_error(line: usize, total: usize) -> (m: String)
    ensures
        m@ == missing_line_message(line as int, total as int),
{
    let mut m = String::from_str("Line ");
    push_decimal(&mut m, line as u128);
    m.append(" does not exist (file has ");
    push_decimal(&mut m, total as u128);
    m.append(" lines)");
    m
}

/// Makes the look-alike hyphens of the replacement plain, where it is the
/// text of the replaced lines and those lines hold such hyphens.
fn settle(orig: &[String], new_lines: Vec<String>) -> (r: Vec<String>)
    ensures
        r.deep_view() == settle_hyphens(orig.deep_view(), new_lines.deep_view()),
{
    let a = join_text(orig, '\n');
    let b = join_text(new_lines.as_slice(), '\n');
    if str_equal(a.as_str(), b.as_str()) && any_confusable_hyphens(orig) {
        normalize_confusable_hyphens_in_lines(new_lines.as_slice())
    } else {
        new_lines
    }
}

/// The replacement of the original lines `start` to `end` after the repairs.
fn repair(original: &[String], start: usize, end: usize, dst: &[String]) -> (r: Vec<String>)
    requires
        1 <= start <= end <= original.len(),
    ensures
        r.deep_view() == repaired(original.deep_view(), start as int, end as int, dst.deep_view()),
{
    let orig = clone_range(original, start - 1, end);
    let stripped = strip_range_boundary_echo(original, start, end, dst);
    let restored = restore_old_wrapped_lines(orig.as_slice(), stripped.as_slice());
    let indented = restore_indent_for_paired_replacement(orig.as_slice(), restored.as_slice());
    settle(orig.as_slice(), indented)
}

/// Replaces `count` lines from line `start` by `new_lines`, or records that
/// nothing changes.
fn replace_lines(
    original: &[String],
    st: Splice,
    index: usize,
    loc: String,
    start: usize,
    count: usize,
    new_lines: Vec<String>,
) -> (r: Result<Splice, String>)
    requires
        1 <= start,
        start - 1 + count <= original.len(),
    ensures
        match r {
            Ok(s) => replace_span(
                original.deep_view(),
                st@,
                index as int,
                loc@,
                start as int,
                count as int,
                new_lines.deep_view(),
            ) == Ok::<SpliceState, Seq<char>>(s@),
            Err(m) => replace_span(
                original.deep_view(),
                st@,
                index as int,
                loc@,
                start as int,
                count as int,
                new_lines.deep_view(),
            ) == Err::<SpliceState, Seq<char>>(m@),
        },
{
    let orig = clone_range(original, start - 1, start - 1 + count);
    let before = join_text(orig.as_slice(), '\n');
    let after = join_text(new_lines.as_slice(), '\n');
    let Splice { lines, first_changed, noops } = st;
    if str_equal(before.as_str(), after.as_str()) {
        let mut noops = noops;
        let ghost old_noops = noops@;
        let n = NoopEdit { edit_index: index, loc, current_content: before };
        noops.push(n);
        assert(noops_view(noops@) =~= noops_view(old_noops).push(noop_view(n)));
        return Ok(Splice { lines, first_changed, noops });
    }
    if start - 1 + count > lines.len() {
        return Err(missing_line_error(start - 1 + count, lines.len()));
    }
    let next = splice_lines(lines.as_slice(), start - 1, start - 1 + count, new_lines.as_slice());
    Ok(Splice { lines: next, first_changed: track_first_changed(first_changed, start), noops })
}

/// Applies one edit to the lines as they stand.
pub fn apply_edit(original: &[String], touched: &HashSet<usize>, st: Splice, edit: &ParsedEdit) -> (r:
    Result<Splice, String>)
    requires
        in_range(edit@, original.len() as int),
    ensures
        match r {
            Ok(s) => apply_one(original.deep_view(), touched@, st@, edit@) == Ok::<
                SpliceState,
                Seq<char>,
            >(s@),
            Err(m) => apply_one(original.deep_view(), touched@, st@, edit@) == Err::<
                SpliceState,
                Seq<char>,
            >(m@),
        },
{
    match &edit.refs {
        ParsedRefs::Single { line, hash } => {
            let line = *line;
            let loc = anchor_label(line, hash.as_str());
            let merge = maybe_expand_single_line_merge(
                line,
                edit.dst_lines.as_slice(),
                st.lines.as_slice(),
                touched,
            );
            match merge {
                Some((start, count, new_lines)) => {
                    if start >= 1 && start < original.len() {
                        let orig = clone_range(original, start - 1, start + 1);
                        let head = clone_range(original, start - 1, start);
                        proof {
                            let o = original.deep_view().subrange(start - 1, start + 1);
                            assert(head.deep_view() =~= seq![o[0]]);
                        }
                        let indented = restore_indent_for_paired_replacement(
                            head.as_slice(),
                            new_lines.as_slice(),
                        );
                        let settled = settle(orig.as_slice(), indented);
                        return replace_lines(original, st, edit.index, loc, start, 2, settled);
                    }
                },
                None => {},
            }
            let new_lines = repair(original, line, line, edit.dst_lines.as_slice());
            replace_lines(original, st, edit.index, loc, line, 1, new_lines)
        },
        ParsedRefs::Range { start_line, start_hash, end_line, .. } => {
            let start = *start_line;
            let end = *end_line;
            let loc = anchor_label(start, start_hash.as_str());
            let new_lines = repair(original, start, end, edit.dst_lines.as_slice());
            replace_lines(original, st, edit.index, loc, start, end - start + 1, new_lines)
        },
        ParsedRefs::InsertAfter { line, hash } => {
            let line = *line;
            let inserted = strip_insert_anchor_echo_after(
                original[line - 1].as_str(),
                edit.dst_lines.as_slice(),
            );
            let Splice { lines, first_changed, noops } = st;
            if inserted.len() == 0 {
                let mut noops = noops;
                let ghost old_noops = noops@;
                let n = NoopEdit {
                    edit_index: edit.index,
                    loc: anchor_label(line, hash.as_str()),
                    current_content: original[line - 1].clone(),
                };
                noops.push(n);
                assert(noops_view(noops@) =~= noops_view(old_noops).push(noop_view(n)));
                return Ok(Splice { lines, first_changed, noops });
            }
            if line > lines.len() {
                return Err(missing_line_error(line, lines.len()));
            }
            let next = splice_lines(lines.as_slice(), line, line, inserted.as_slice());
            assert(next.deep_view().len() == lines.deep_view().len() + inserted.deep_view().len());
            let total = next.len();
            assert(line + 1 <= total);
            Ok(
                Splice {
                    lines: next,
                    first_changed: track_first_changed(first_changed, line + 1),
                    noops,
                },
            )
        },
    }
}

/// Applies the edits in turn to a copy of the original lines.
pub fn apply_sorted(original: &[String], touched: &HashSet<usize>, edits: &Vec<ParsedEdit>) -> (r:
    Result<Splice, String>)
    requires
        all_in_range(parsed_views(edits@), original.len() as int),
    ensures
        match r {
            Ok(s) => spliced(original.deep_view(), touched@, parsed_views(edits@)) == Ok::<
                SpliceState,
                Seq<char>,
            >(s@),
            Err(m) => spliced(original.deep_view(), touched@, parsed_views(edits@)) == Err::<
                SpliceState,
                Seq<char>,
            >(m@),
        },
{
    let ghost views = parsed_views(edits@);
    let ghost file = original.deep_view();
    let mut st = Splice { lines: clone_lines(original), first_changed: None, noops: Vec::new() };
    proof {
        assert(views.take(0) =~= Seq::<ParsedView>::empty());
        assert(noops_view(st.noops@) =~= Seq::<NoopView>::empty());
    }
    let mut i: usize = 0;
    while i < edits.len()
        invariant
            i <= edits.len(),
            views == parsed_views(edits@),
            file == original.deep_view(),
            all_in_range(views, original.len() as int),
            spliced(file, touched@, views.take(i as int)) == Ok::<SpliceState, Seq<char>>(st@),
        decreases edits.len() - i,
    {
        proof {
            assert(views.take(i + 1).drop_last() =~= views.take(i as int));
            assert(views.take(i + 1).last() == edits@[i as int]@);
            assert(in_range(views[i as int], original.len() as int));
        }
        match apply_edit(original, touched, st, &edits[i]) {
            Err(m) => {
                proof {
                    lemma_splice_error_stays(file, touched@, views, i + 1);
                }
                return Err(m);
            },
            Ok(next) => {
                st = next;
            },
        }
        i += 1;
    }
    assert(views.take(edits@.len() as int) =~= views);
    Ok(st)
}

} // verus!
