//! What holds of the text edit engine, stated over its spec functions and
//! proved.

use crate::batch::{dst_of, parsed_batch, parsed_edit, ParsedView, RefsView};
use crate::edit::{AppliedView, ErrorView, HashlineEdit, MismatchView};
use crate::engine::{applied, finished, warnings_for};
use crate::hash::line_hash;
use crate::heuristics::{
    merge_start, same_ignoring_whitespace, reindent, reindent_paired, unwrapped, without_anchor_echo,
    without_boundary_echo, without_line_prefixes,
};
use crate::order::{bottom_up, deduped, insert_position, same_key, seen_before};
use crate::parse::parsed_anchor;
use crate::resolve::{
    checked_batch, checked_edit, file_hashes, lemma_first_position, occurrences, resolve,
    unique_line,
};
use crate::splice::{apply_one, names_line, repaired, spliced, touched_lines, SpliceState};
use crate::text::{join, lowercase, split};
use vstd::prelude::*;

verus! {

// ---------------------------------------------------------------------------
// A batch of one edit
// ---------------------------------------------------------------------------

/// The state before any edit is applied.
pub open spec fn fresh(file: Seq<Seq<char>>) -> SpliceState {
    SpliceState { lines: file, first_changed: None, noops: Seq::empty() }
}

/// What a batch of one edit gives, without the detour over lists.
pub open spec fn applied_alone(content: Seq<char>, edit: HashlineEdit) -> Result<
    AppliedView,
    ErrorView,
> {
    let file = split(content, '\n');
    match parsed_edit(edit, 0) {
        Err(m) => Err(ErrorView::Other(m)),
        Ok(p) => match checked_edit(file, p) {
            Err(m) => Err(ErrorView::Other(m)),
            Ok((c, mismatches)) => if mismatches.len() > 0 {
                Err(ErrorView::Mismatch { mismatches, file_lines: file })
            } else {
                match apply_one(file, touched_lines(seq![c]), fresh(file), c) {
                    Err(m) => Err(ErrorView::Other(m)),
                    Ok(st) => Ok(
                        AppliedView {
                            content: join(st.lines, '\n'),
                            first_changed_line: st.first_changed,
                            warnings: warnings_for(file, st.lines, 1),
                            noop_edits: st.noops,
                        },
                    ),
                }
            },
        },
    }
}

/// A batch of one edit gives what the edit gives alone.
pub proof fn lemma_single_edit(content: Seq<char>, edit: HashlineEdit)
    ensures
        applied(content, seq![edit]) == applied_alone(content, edit),
{
    let file = split(content, '\n');
    let edits = seq![edit];
    assert(edits.drop_last() =~= Seq::<HashlineEdit>::empty());
    assert(parsed_batch(edits.drop_last()) == Ok::<Seq<ParsedView>, Seq<char>>(Seq::empty()));
    match parsed_edit(edit, 0) {
        Err(m) => {},
        Ok(p) => {
            let parsed = seq![p];
            assert(Seq::<ParsedView>::empty().push(p) =~= parsed);
            assert(parsed_batch(edits) == Ok::<Seq<ParsedView>, Seq<char>>(parsed));
            assert(parsed.drop_last() =~= Seq::<ParsedView>::empty());
            assert(checked_batch(file, parsed.drop_last()) == Ok::<
                (Seq<ParsedView>, Seq<MismatchView>),
                Seq<char>,
            >((Seq::empty(), Seq::empty())));
            match checked_edit(file, p) {
                Err(m) => {},
                Ok((c, more)) => {
                    let checked = seq![c];
                    assert(Seq::<ParsedView>::empty().push(c) =~= checked);
                    assert(Seq::<MismatchView>::empty() + more =~= more);
                    assert(checked_batch(file, parsed) == Ok::<
                        (Seq<ParsedView>, Seq<MismatchView>),
                        Seq<char>,
                    >((checked, more)));
                    if more.len() == 0 {
                        lemma_single_order(c);
                        assert(checked.drop_last() =~= Seq::<ParsedView>::empty());
                        assert(spliced(file, touched_lines(checked), checked.drop_last()) == Ok::<
                            SpliceState,
                            Seq<char>,
                        >(fresh(file)));
                    }
                },
            }
        },
    }
}

/// One edit alone is not a duplicate and is its own order.
pub proof fn lemma_single_order(c: ParsedView)
    ensures
        deduped(seq![c]) == seq![c],
        bottom_up(seq![c]) == seq![c],
{
    let one = seq![c];
    let none = Seq::<ParsedView>::empty();
    assert(one.drop_last() =~= none);
    assert(one.last() == c);
    assert(!seen_before(one, 0));
    assert(deduped(none) == none);
    assert(none.push(c) =~= one);
    assert(deduped(one) == one);
    assert(bottom_up(none) == none);
    assert(insert_position(none, c) == 0);
    assert(none.insert(0, c) =~= one);
    assert(bottom_up(one) == one);
}

// ---------------------------------------------------------------------------
// Single edits with a fitting anchor
// ---------------------------------------------------------------------------

/// A `SetLine` whose anchor fits line `k` replaces exactly that line: the
/// lines before and after it stay, and the first changed line is `k`. This
/// holds where the replacement, after its repairs, is not the original text
/// of the line, and did not take in a neighbouring line.
pub proof fn lemma_set_line(content: Seq<char>, edit: HashlineEdit, k: int, hash: Seq<char>)
    requires
        edit is SetLine,
        parsed_anchor(edit->set_line.anchor@) == Ok::<(usize, Seq<char>), Seq<char>>(
            (k as usize, hash),
        ),
        1 <= k <= split(content, '\n').len(),
        k <= usize::MAX,
        line_hash(split(content, '\n')[k - 1]) == lowercase(hash),
        merge_start(
            k,
            without_line_prefixes(dst_of(edit->set_line.new_text@)),
            split(content, '\n'),
            touched_lines(
                seq![
                    ParsedView {
                        index: 0,
                        refs: RefsView::Single { line: k, hash },
                        dst: without_line_prefixes(dst_of(edit->set_line.new_text@)),
                    },
                ],
            ),
        ) is None,
        join(seq![split(content, '\n')[k - 1]], '\n') != join(
            repaired(
                split(content, '\n'),
                k,
                k,
                without_line_prefixes(dst_of(edit->set_line.new_text@)),
            ),
            '\n',
        ),
    ensures
        applied(content, seq![edit]) is Ok,
        applied(content, seq![edit])->Ok_0.content == join(
            split(content, '\n').take(k - 1) + repaired(
                split(content, '\n'),
                k,
                k,
                without_line_prefixes(dst_of(edit->set_line.new_text@)),
            ) + split(content, '\n').skip(k),
            '\n',
        ),
        applied(content, seq![edit])->Ok_0.first_changed_line == Some(k),
        applied(content, seq![edit])->Ok_0.noop_edits.len() == 0,
{
    let file = split(content, '\n');
    lemma_single_edit(content, edit);
    assert(file.subrange(k - 1, k - 1 + 1) =~= seq![file[k - 1]]);
}

/// A `SetLine` whose anchor fits line `k` and whose text is one line `t`
/// puts `t` in the place of line `k` and changes nothing else, where `t` is
/// not the line as it stands, needs no indentation restored, and took in no
/// neighbouring line.
pub proof fn lemma_set_line_plain(
    content: Seq<char>,
    edit: HashlineEdit,
    k: int,
    hash: Seq<char>,
    t: Seq<char>,
)
    requires
        edit is SetLine,
        parsed_anchor(edit->set_line.anchor@) == Ok::<(usize, Seq<char>), Seq<char>>(
            (k as usize, hash),
        ),
        1 <= k <= split(content, '\n').len(),
        k <= usize::MAX,
        line_hash(split(content, '\n')[k - 1]) == lowercase(hash),
        without_line_prefixes(dst_of(edit->set_line.new_text@)) == seq![t],
        t != split(content, '\n')[k - 1],
        reindent(split(content, '\n')[k - 1], t) == t,
        merge_start(
            k,
            seq![t],
            split(content, '\n'),
            touched_lines(
                seq![ParsedView { index: 0, refs: RefsView::Single { line: k, hash }, dst: seq![t] }],
            ),
        ) is None,
    ensures
        applied(content, seq![edit]) is Ok,
        applied(content, seq![edit])->Ok_0.content == join(
            split(content, '\n').update(k - 1, t),
            '\n',
        ),
        applied(content, seq![edit])->Ok_0.first_changed_line == Some(k),
{
    let file = split(content, '\n');
    let orig = file.subrange(k - 1, k);
    let dst = seq![t];
    assert(orig =~= seq![file[k - 1]]);
    assert(without_boundary_echo(file, k, k, dst) == dst);
    assert(unwrapped(orig, dst) == dst);
    assert(reindent_paired(orig, dst) =~= dst);
    assert(join(orig, '\n') == file[k - 1]);
    assert(join(dst, '\n') == t);
    assert(repaired(file, k, k, dst) == dst);
    lemma_set_line(content, edit, k, hash);
    assert(file.take(k - 1) + dst + file.skip(k) =~= file.update(k - 1, t));
}

/// A `SetLine` whose anchor fits line `k` and whose text is empty deletes
/// that line, where the line is not empty.
pub proof fn lemma_delete_line(content: Seq<char>, edit: HashlineEdit, k: int, hash: Seq<char>)
    requires
        edit is SetLine,
        parsed_anchor(edit->set_line.anchor@) == Ok::<(usize, Seq<char>), Seq<char>>(
            (k as usize, hash),
        ),
        edit->set_line.new_text@.len() == 0,
        1 <= k <= split(content, '\n').len(),
        k <= usize::MAX,
        line_hash(split(content, '\n')[k - 1]) == lowercase(hash),
        split(content, '\n')[k - 1].len() > 0,
    ensures
        applied(content, seq![edit]) is Ok,
        applied(content, seq![edit])->Ok_0.content == join(
            split(content, '\n').take(k - 1) + split(content, '\n').skip(k),
            '\n',
        ),
        applied(content, seq![edit])->Ok_0.first_changed_line == Some(k),
{
    let file = split(content, '\n');
    let none = Seq::<Seq<char>>::empty();
    let orig = file.subrange(k - 1, k);
    crate::heuristics::lemma_count_kind_bound(none, crate::heuristics::LineKind::Anchored);
    crate::heuristics::lemma_count_kind_bound(none, crate::heuristics::LineKind::Plus);
    assert(without_line_prefixes(none) == none);
    assert(orig =~= seq![file[k - 1]]);
    assert(repaired(file, k, k, none) == none);
    assert(join(orig, '\n') == file[k - 1]);
    assert(join(none, '\n').len() == 0);
    lemma_set_line(content, edit, k, hash);
    assert(file.take(k - 1) + none + file.skip(k) =~= file.take(k - 1) + file.skip(k));
}

/// A `ReplaceLines` over the lines `a` to `b`, `a < b`, whose anchors fit
/// and whose text is empty or absent, deletes those lines; the first changed
/// line is `a`.
pub proof fn lemma_delete_range(
    content: Seq<char>,
    edit: HashlineEdit,
    a: int,
    b: int,
    start_hash: Seq<char>,
    end_hash: Seq<char>,
)
    requires
        edit is ReplaceLines,
        parsed_anchor(edit->replace_lines.start_anchor@) == Ok::<(usize, Seq<char>), Seq<char>>(
            (a as usize, start_hash),
        ),
        edit->replace_lines.end_anchor is Some,
        parsed_anchor(edit->replace_lines.end_anchor->0@) == Ok::<(usize, Seq<char>), Seq<char>>(
            (b as usize, end_hash),
        ),
        edit->replace_lines.new_text is None || edit->replace_lines.new_text->0@.len() == 0,
        1 <= a < b <= split(content, '\n').len(),
        b <= usize::MAX,
        line_hash(split(content, '\n')[a - 1]) == lowercase(start_hash),
        line_hash(split(content, '\n')[b - 1]) == lowercase(end_hash),
    ensures
        applied(content, seq![edit]) is Ok,
        applied(content, seq![edit])->Ok_0.content == join(
            split(content, '\n').take(a - 1) + split(content, '\n').skip(b),
            '\n',
        ),
        applied(content, seq![edit])->Ok_0.first_changed_line == Some(a),
{
    let file = split(content, '\n');
    let none = Seq::<Seq<char>>::empty();
    lemma_single_edit(content, edit);
    crate::heuristics::lemma_count_kind_bound(none, crate::heuristics::LineKind::Anchored);
    crate::heuristics::lemma_count_kind_bound(none, crate::heuristics::LineKind::Plus);
    assert(without_line_prefixes(none) == none);
    let orig = file.subrange(a - 1, b);
    assert(repaired(file, a, b, none) == none);
    assert(join(orig, '\n').len() > 0) by {
        assert(orig.len() >= 2);
        assert(join(orig, '\n') == join(orig.drop_last(), '\n') + seq!['\n'] + orig.last());
    }
    assert(join(none, '\n').len() == 0);
    assert(file.subrange(a - 1, a - 1 + (b - a + 1)) =~= orig);
    assert(file.take(a - 1) + none + file.skip(a - 1 + (b - a + 1)) =~= file.take(a - 1)
        + file.skip(b));
}

/// An `InsertAfter` whose anchor fits line `k` puts its lines behind line
/// `k`; the first changed line is `k + 1`. The lines put in are those of the
/// text, without echoed prefixes and without an echo of line `k` in front;
/// this holds where they are not that echo alone.
pub proof fn lemma_insert_after(content: Seq<char>, edit: HashlineEdit, k: int, hash: Seq<char>)
    requires
        edit is InsertAfter,
        parsed_anchor(edit->insert_after.anchor@) == Ok::<(usize, Seq<char>), Seq<char>>(
            (k as usize, hash),
        ),
        edit->insert_after.text is Some,
        edit->insert_after.text->0@.len() > 0,
        1 <= k <= split(content, '\n').len(),
        k <= usize::MAX,
        line_hash(split(content, '\n')[k - 1]) == lowercase(hash),
        without_anchor_echo(
            split(content, '\n')[k - 1],
            without_line_prefixes(dst_of(edit->insert_after.text->0@)),
        ).len() > 0,
    ensures
        applied(content, seq![edit]) is Ok,
        applied(content, seq![edit])->Ok_0.content == join(
            split(content, '\n').take(k) + without_anchor_echo(
                split(content, '\n')[k - 1],
                without_line_prefixes(dst_of(edit->insert_after.text->0@)),
            ) + split(content, '\n').skip(k),
            '\n',
        ),
        applied(content, seq![edit])->Ok_0.first_changed_line == Some(k + 1),
        applied(content, seq![edit])->Ok_0.noop_edits.len() == 0,
{
    let file = split(content, '\n');
    let text = edit->insert_after.text->0@;
    lemma_single_edit(content, edit);
    crate::text::lemma_split_shape(text, '\n');
    let raw = dst_of(text);
    assert(raw.len() >= 1);
    let dst = without_line_prefixes(raw);
    assert(dst.len() == raw.len());
}

/// An `InsertAfter` whose anchor fits line `k` and whose only line repeats
/// line `k`, whitespace aside, changes nothing: the text comes back as it
/// is, no line counts as changed, and the edit is recorded as a no-op with
/// the content of line `k`.
pub proof fn lemma_insert_echo_is_noop(
    content: Seq<char>,
    edit: HashlineEdit,
    k: int,
    hash: Seq<char>,
)
    requires
        edit is InsertAfter,
        parsed_anchor(edit->insert_after.anchor@) == Ok::<(usize, Seq<char>), Seq<char>>(
            (k as usize, hash),
        ),
        1 <= k <= split(content, '\n').len(),
        k <= usize::MAX,
        line_hash(split(content, '\n')[k - 1]) == lowercase(hash),
        parsed_edit(edit, 0) is Ok,
        checked_edit(split(content, '\n'), parsed_edit(edit, 0)->Ok_0) is Ok,
        checked_edit(split(content, '\n'), parsed_edit(edit, 0)->Ok_0)->Ok_0.0.dst.len() == 1,
        same_ignoring_whitespace(
            checked_edit(split(content, '\n'), parsed_edit(edit, 0)->Ok_0)->Ok_0.0.dst[0],
            split(content, '\n')[k - 1],
        ),
    ensures
        applied(content, seq![edit]) is Ok,
        applied(content, seq![edit])->Ok_0.content == content,
        applied(content, seq![edit])->Ok_0.first_changed_line is None,
        applied(content, seq![edit])->Ok_0.noop_edits.len() == 1,
        applied(content, seq![edit])->Ok_0.noop_edits[0].current_content == split(content, '\n')[k
            - 1],
{
    let file = split(content, '\n');
    lemma_single_edit(content, edit);
    crate::text::lemma_join_split(content, '\n');
    let c = checked_edit(file, parsed_edit(edit, 0)->Ok_0)->Ok_0.0;
    assert(without_anchor_echo(file[k - 1], c.dst).len() == 0);
}

/// The anchors of the edit fit the file: each names a line of the file whose
/// hash is the hash of the anchor in lower case, and a range does not end
/// before it starts.
pub open spec fn anchors_fit(file: Seq<Seq<char>>, p: ParsedView) -> bool {
    match p.refs {
        RefsView::Single { line, hash } => 1 <= line <= file.len() && line_hash(file[line - 1])
            == lowercase(hash),
        RefsView::InsertAfter { line, hash } => 1 <= line <= file.len() && line_hash(
            file[line - 1],
        ) == lowercase(hash),
        RefsView::Range { start_line, start_hash, end_line, end_hash } => 1 <= start_line
            <= end_line <= file.len() && line_hash(file[start_line - 1]) == lowercase(start_hash)
            && line_hash(file[end_line - 1]) == lowercase(end_hash),
    }
}

/// A batch of one edit that parses and whose anchors fit the file is never
/// refused.
pub proof fn lemma_fitting_edit_succeeds(content: Seq<char>, edit: HashlineEdit)
    requires
        parsed_edit(edit, 0) is Ok,
        anchors_fit(split(content, '\n'), parsed_edit(edit, 0)->Ok_0),
    ensures
        applied(content, seq![edit]) is Ok,
{
    let file = split(content, '\n');
    lemma_single_edit(content, edit);
    let p = parsed_edit(edit, 0)->Ok_0;
    match p.refs {
        RefsView::Single { line, hash } => {
            let c = checked_edit(file, p)->Ok_0.0;
            assert(file.subrange(line - 1, line - 1 + 1).len() == 1);
        },
        RefsView::InsertAfter { line, hash } => {},
        RefsView::Range { start_line, start_hash, end_line, end_hash } => {},
    }
}

// ---------------------------------------------------------------------------
// Stale anchors
// ---------------------------------------------------------------------------

/// The anchor (`line`, `hash`) is stale and cannot move: the line has
/// another hash, and the hash is not that of exactly one line of the file.
pub open spec fn stale_for_good(file: Seq<Seq<char>>, line: int, hash: Seq<char>) -> bool {
    &&& 1 <= line <= file.len()
    &&& line_hash(file[line - 1]) != lowercase(hash)
    &&& occurrences(file_hashes(file), lowercase(hash)) != 1
}

/// One of the anchors of the edit is stale and cannot move.
pub open spec fn has_stale_anchor(file: Seq<Seq<char>>, p: ParsedView) -> bool {
    match p.refs {
        RefsView::Single { line, hash } => stale_for_good(file, line, hash),
        RefsView::InsertAfter { line, hash } => stale_for_good(file, line, hash),
        RefsView::Range { start_line, start_hash, end_line, end_hash } => stale_for_good(
            file,
            start_line,
            start_hash,
        ) || stale_for_good(file, end_line, end_hash),
    }
}

/// A stale anchor whose hash is the hash of no line, or of more than one,
/// stays where it is and is a mismatch: equal hashes in the file rule out
/// moving.
pub proof fn lemma_no_relocation(file: Seq<Seq<char>>, line: int, hash: Seq<char>)
    requires
        stale_for_good(file, line, hash),
    ensures
        resolve(file, line, hash) == (
            line,
            Some(MismatchView { line, expected: hash, actual: line_hash(file[line - 1]) }),
        ),
{
}

/// A stale anchor whose hash is the hash of exactly one line moves to that
/// line, without a mismatch.
pub proof fn lemma_relocation(file: Seq<Seq<char>>, line: int, hash: Seq<char>)
    requires
        1 <= line <= file.len(),
        line_hash(file[line - 1]) != lowercase(hash),
        occurrences(file_hashes(file), lowercase(hash)) == 1,
    ensures
        resolve(file, line, hash).1 is None,
        1 <= resolve(file, line, hash).0 <= file.len(),
        resolve(file, line, hash).0 != line,
        line_hash(file[resolve(file, line, hash).0 - 1]) == lowercase(hash),
{
    lemma_first_position(file_hashes(file), lowercase(hash));
}

/// An edit with a stale anchor that cannot move adds a mismatch.
pub proof fn lemma_stale_edit_mismatch(file: Seq<Seq<char>>, p: ParsedView)
    requires
        checked_edit(file, p) is Ok,
        has_stale_anchor(file, p),
    ensures
        checked_edit(file, p)->Ok_0.1.len() > 0,
{
}

/// The mismatches of a batch hold those of each of its edits.
pub proof fn lemma_mismatches_add_up(file: Seq<Seq<char>>, parsed: Seq<ParsedView>, i: int)
    requires
        checked_batch(file, parsed) is Ok,
        0 <= i < parsed.len(),
    ensures
        checked_edit(file, parsed[i]) is Ok,
        checked_batch(file, parsed)->Ok_0.1.len() >= checked_edit(file, parsed[i])->Ok_0.1.len(),
    decreases parsed.len(),
{
    if i < parsed.len() - 1 {
        lemma_mismatches_add_up(file, parsed.drop_last(), i);
        assert(parsed.drop_last()[i] == parsed[i]);
    }
}

/// A batch parses to as many edits as it has.
pub proof fn lemma_parsed_len(edits: Seq<HashlineEdit>)
    requires
        parsed_batch(edits) is Ok,
    ensures
        parsed_batch(edits)->Ok_0.len() == edits.len(),
    decreases edits.len(),
{
    if edits.len() > 0 {
        lemma_parsed_len(edits.drop_last());
    }
}

/// A batch with a stale anchor that cannot move is refused as a whole: where
/// every edit parses and names lines of the file, and one anchor is stale
/// with a hash that is not the hash of exactly one line, the result is the
/// mismatch error with the lines of the file, and no text.
pub proof fn lemma_stale_anchor_refuses(content: Seq<char>, edits: Seq<HashlineEdit>, i: int)
    requires
        parsed_batch(edits) is Ok,
        checked_batch(split(content, '\n'), parsed_batch(edits)->Ok_0) is Ok,
        0 <= i < edits.len(),
        has_stale_anchor(split(content, '\n'), parsed_batch(edits)->Ok_0[i]),
    ensures
        applied(content, edits) is Err,
        applied(content, edits)->Err_0 is Mismatch,
        applied(content, edits)->Err_0->file_lines == split(content, '\n'),
        applied(content, edits)->Err_0->mismatches.len() > 0,
{
    let file = split(content, '\n');
    let parsed = parsed_batch(edits)->Ok_0;
    lemma_parsed_len(edits);
    lemma_mismatches_add_up(file, parsed, i);
    lemma_stale_edit_mismatch(file, parsed[i]);
}

/// A `SetLine` whose anchor names the wrong line, while its hash is the hash
/// of exactly one line of the file, is applied at that line: the batch gives
/// what it gives with the anchor written for that line.
pub proof fn lemma_relocated_set_line(
    content: Seq<char>,
    stale: HashlineEdit,
    exact: HashlineEdit,
    line: int,
    at: int,
    hash: Seq<char>,
)
    requires
        stale is SetLine,
        exact is SetLine,
        stale->set_line.new_text@ == exact->set_line.new_text@,
        parsed_anchor(stale->set_line.anchor@) == Ok::<(usize, Seq<char>), Seq<char>>(
            (line as usize, hash),
        ),
        parsed_anchor(exact->set_line.anchor@) == Ok::<(usize, Seq<char>), Seq<char>>(
            (at as usize, hash),
        ),
        1 <= line <= split(content, '\n').len(),
        line <= usize::MAX,
        at <= usize::MAX,
        line_hash(split(content, '\n')[line - 1]) != lowercase(hash),
        unique_line(split(content, '\n'), lowercase(hash)) == Some(at),
    ensures
        applied(content, seq![stale]) == applied(content, seq![exact]),
{
    let file = split(content, '\n');
    lemma_single_edit(content, stale);
    lemma_single_edit(content, exact);
    lemma_relocation(file, line, hash);
}

// ---------------------------------------------------------------------------
// Duplicates
// ---------------------------------------------------------------------------

/// An edit that an earlier edit of the batch already said is dropped.
pub proof fn lemma_duplicate_dropped(edits: Seq<ParsedView>, j: int)
    requires
        0 <= j < edits.len() - 1,
        same_key(edits[j], edits.last()),
    ensures
        deduped(edits) == deduped(edits.drop_last()),
{
    assert(same_key(edits[j], edits[edits.len() - 1]));
}

/// What a batch of two edits parses to.
pub proof fn lemma_parsed_pair(a: HashlineEdit, b: HashlineEdit)
    ensures
        parsed_batch(seq![a, b]) == match parsed_edit(a, 0) {
            Err(m) => Err::<Seq<ParsedView>, Seq<char>>(m),
            Ok(p0) => match parsed_edit(b, 1) {
                Err(m) => Err(m),
                Ok(p1) => Ok(seq![p0, p1]),
            },
        },
{
    let one = seq![a];
    let two = seq![a, b];
    assert(two.drop_last() =~= one);
    assert(one.drop_last() =~= Seq::<HashlineEdit>::empty());
    assert(parsed_batch(one.drop_last()) == Ok::<Seq<ParsedView>, Seq<char>>(Seq::empty()));
    match parsed_edit(a, 0) {
        Err(m) => {
            assert(parsed_batch(one) == Err::<Seq<ParsedView>, Seq<char>>(m));
        },
        Ok(p0) => {
            assert(Seq::<ParsedView>::empty().push(p0) =~= seq![p0]);
            assert(parsed_batch(one) == Ok::<Seq<ParsedView>, Seq<char>>(seq![p0]));
            match parsed_edit(b, 1) {
                Err(m) => {},
                Ok(p1) => {
                    assert(seq![p0].push(p1) =~= seq![p0, p1]);
                },
            }
        },
    }
}

/// What a batch of two parsed edits is after validation.
pub proof fn lemma_checked_pair(file: Seq<Seq<char>>, p0: ParsedView, p1: ParsedView)
    ensures
        checked_batch(file, seq![p0, p1]) == match checked_edit(file, p0) {
            Err(m) => Err::<(Seq<ParsedView>, Seq<MismatchView>), Seq<char>>(m),
            Ok((c0, m0)) => match checked_edit(file, p1) {
                Err(m) => Err(m),
                Ok((c1, m1)) => Ok((seq![c0, c1], m0 + m1)),
            },
        },
{
    let one = seq![p0];
    let two = seq![p0, p1];
    assert(two.drop_last() =~= one);
    assert(one.drop_last() =~= Seq::<ParsedView>::empty());
    assert(checked_batch(file, one.drop_last()) == Ok::<
        (Seq<ParsedView>, Seq<MismatchView>),
        Seq<char>,
    >((Seq::empty(), Seq::empty())));
    match checked_edit(file, p0) {
        Err(m) => {
            assert(checked_batch(file, one) == Err::<
                (Seq<ParsedView>, Seq<MismatchView>),
                Seq<char>,
            >(m));
        },
        Ok((c0, m0)) => {
            assert(Seq::<ParsedView>::empty().push(c0) =~= seq![c0]);
            assert(Seq::<MismatchView>::empty() + m0 =~= m0);
            assert(checked_batch(file, one) == Ok::<
                (Seq<ParsedView>, Seq<MismatchView>),
                Seq<char>,
            >((seq![c0], m0)));
            match checked_edit(file, p1) {
                Err(m) => {},
                Ok((c1, m1)) => {
                    assert(seq![c0].push(c1) =~= seq![c0, c1]);
                },
            }
        },
    }
}

/// Two edits that name the same lines name no more lines than one of them.
pub proof fn lemma_touched_pair(c0: ParsedView, c1: ParsedView)
    requires
        c0.refs == c1.refs,
    ensures
        touched_lines(seq![c0, c1]) == touched_lines(seq![c0]),
{
    let two = seq![c0, c1];
    let one = seq![c0];
    assert forall|n: usize| touched_lines(two).contains(n) <==> touched_lines(one).contains(n) by {
        if touched_lines(two).contains(n) {
            let i = choose|i: int| 0 <= i < two.len() && names_line(#[trigger] two[i], n as int);
            assert(names_line(one[0], n as int));
        }
        if touched_lines(one).contains(n) {
            let i = choose|i: int| 0 <= i < one.len() && names_line(#[trigger] one[i], n as int);
            assert(names_line(two[0], n as int));
        }
    }
    assert(touched_lines(two) =~= touched_lines(one));
}

/// Of two edits that say the same, the first is what is applied.
pub proof fn lemma_pair_order(c0: ParsedView, c1: ParsedView)
    requires
        same_key(c0, c1),
    ensures
        bottom_up(deduped(seq![c0, c1])) == seq![c0],
{
    let two = seq![c0, c1];
    assert(two.drop_last() =~= seq![c0]);
    assert(same_key(two[0], two.last()));
    lemma_duplicate_dropped(two, 0);
    lemma_single_order(c0);
}

/// A `SetLine` parses to the same lines and the same text at every place of
/// the batch.
pub proof fn lemma_set_line_parsed(edit: HashlineEdit, i: int, j: int)
    requires
        edit is SetLine,
        parsed_edit(edit, i) is Ok,
    ensures
        parsed_edit(edit, j) is Ok,
        parsed_edit(edit, j)->Ok_0.refs == parsed_edit(edit, i)->Ok_0.refs,
        parsed_edit(edit, j)->Ok_0.dst == parsed_edit(edit, i)->Ok_0.dst,
        parsed_edit(edit, j)->Ok_0.refs is Single,
{
}

/// Validation does not look at the place of an edit in the batch.
pub proof fn lemma_checked_same(file: Seq<Seq<char>>, p0: ParsedView, p1: ParsedView)
    requires
        p0.refs == p1.refs,
        p0.dst == p1.dst,
        checked_edit(file, p0) is Ok,
    ensures
        checked_edit(file, p1) is Ok,
        checked_edit(file, p1)->Ok_0.0.refs == checked_edit(file, p0)->Ok_0.0.refs,
        checked_edit(file, p1)->Ok_0.0.dst == checked_edit(file, p0)->Ok_0.0.dst,
        checked_edit(file, p1)->Ok_0.1 == checked_edit(file, p0)->Ok_0.1,
        p0.refs is Single ==> checked_edit(file, p0)->Ok_0.0.refs is Single,
{
}

/// A batch whose edits parse and pass validation without a mismatch gives
/// what its validated edits give.
pub proof fn lemma_applied_finished(content: Seq<char>, edits: Seq<HashlineEdit>)
    requires
        edits.len() > 0,
        parsed_batch(edits) is Ok,
        checked_batch(split(content, '\n'), parsed_batch(edits)->Ok_0) is Ok,
        checked_batch(split(content, '\n'), parsed_batch(edits)->Ok_0)->Ok_0.1.len() == 0,
    ensures
        applied(content, edits) == finished(
            split(content, '\n'),
            checked_batch(split(content, '\n'), parsed_batch(edits)->Ok_0)->Ok_0.0,
            edits.len(),
        ),
{
}

/// A batch that gives a text has edits that parse and pass validation
/// without a mismatch.
pub proof fn lemma_applied_ok(content: Seq<char>, edits: Seq<HashlineEdit>)
    requires
        edits.len() > 0,
        applied(content, edits) is Ok,
    ensures
        parsed_batch(edits) is Ok,
        checked_batch(split(content, '\n'), parsed_batch(edits)->Ok_0) is Ok,
        checked_batch(split(content, '\n'), parsed_batch(edits)->Ok_0)->Ok_0.1.len() == 0,
{
}

/// Two validated edits that say the same give what the first gives alone.
pub proof fn lemma_finished_pair(file: Seq<Seq<char>>, c0: ParsedView, c1: ParsedView)
    requires
        c0.refs == c1.refs,
        same_key(c0, c1),
    ensures
        finished(file, seq![c0, c1], 2) is Ok <==> finished(file, seq![c0], 1) is Ok,
        finished(file, seq![c0, c1], 2) is Ok ==> {
            &&& finished(file, seq![c0, c1], 2)->Ok_0.content == finished(
                file,
                seq![c0],
                1,
            )->Ok_0.content
            &&& finished(file, seq![c0, c1], 2)->Ok_0.first_changed_line == finished(
                file,
                seq![c0],
                1,
            )->Ok_0.first_changed_line
            &&& finished(file, seq![c0, c1], 2)->Ok_0.noop_edits == finished(
                file,
                seq![c0],
                1,
            )->Ok_0.noop_edits
        },
{
    lemma_touched_pair(c0, c1);
    lemma_pair_order(c0, c1);
    lemma_single_order(c0);
}

/// The same `SetLine` twice in a batch is applied once: the text, the first
/// changed line and the no-op edits are those of the batch with the edit
/// once.
pub proof fn lemma_set_line_twice(content: Seq<char>, edit: HashlineEdit)
    requires
        edit is SetLine,
        applied(content, seq![edit]) is Ok,
    ensures
        applied(content, seq![edit, edit]) is Ok,
        applied(content, seq![edit, edit])->Ok_0.content == applied(
            content,
            seq![edit],
        )->Ok_0.content,
        applied(content, seq![edit, edit])->Ok_0.first_changed_line == applied(
            content,
            seq![edit],
        )->Ok_0.first_changed_line,
        applied(content, seq![edit, edit])->Ok_0.noop_edits == applied(
            content,
            seq![edit],
        )->Ok_0.noop_edits,
{
    let file = split(content, '\n');
    let one = seq![edit];
    let two = seq![edit, edit];
    lemma_applied_ok(content, one);
    lemma_applied_finished(content, one);
    lemma_parsed_len(one);
    let parsed_one = parsed_batch(one)->Ok_0;
    let p0 = parsed_one[0];
    assert(parsed_edit(edit, 0) == Ok::<ParsedView, Seq<char>>(p0)) by {
        assert(one.drop_last() =~= Seq::<HashlineEdit>::empty());
        assert(parsed_batch(one.drop_last()) == Ok::<Seq<ParsedView>, Seq<char>>(Seq::empty()));
    }
    lemma_set_line_parsed(edit, 0, 1);
    let p1 = parsed_edit(edit, 1)->Ok_0;
    lemma_parsed_pair(edit, edit);
    assert(parsed_one =~= seq![p0]);
    let checked_one = checked_batch(file, parsed_one)->Ok_0.0;
    lemma_mismatches_add_up(file, parsed_one, 0);
    let c0 = checked_edit(file, p0)->Ok_0.0;
    let c1 = checked_edit(file, p1)->Ok_0.0;
    lemma_checked_same(file, p0, p1);
    assert(checked_edit(file, p0)->Ok_0.1.len() == 0);
    let none = Seq::<MismatchView>::empty();
    assert(checked_edit(file, p0)->Ok_0.1 =~= none);
    assert(none + none =~= none);
    lemma_checked_pair(file, p0, p1);
    assert(checked_batch(file, seq![p0, p1]) == Ok::<
        (Seq<ParsedView>, Seq<MismatchView>),
        Seq<char>,
    >((seq![c0, c1], none)));
    assert(checked_one =~= seq![c0]) by {
        assert(seq![p0].drop_last() =~= Seq::<ParsedView>::empty());
        assert(checked_batch(file, seq![p0].drop_last()) == Ok::<
            (Seq<ParsedView>, Seq<MismatchView>),
            Seq<char>,
        >((Seq::empty(), Seq::empty())));
        assert(Seq::<ParsedView>::empty().push(c0) =~= seq![c0]);
    }
    lemma_applied_finished(content, two);
    lemma_finished_pair(file, c0, c1);
}

} // verus!
