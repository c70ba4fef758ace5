//! The text edit interface: the glue between a batch as it is sent and the
//! two engines, and the windows of a text that are shown around it.

use crate::edit::{
    line_view, noops_view, ApplyResult, EditError, ErrorView, HashlineEdit, NoopEdit, NoopView,
};
use crate::engine::{applied, apply_hashline_edits};
use crate::format::{display_lines, display_string};
use crate::replace::{apply_replace_edits, replaced};
use crate::text::{
    chars_string, join, join_text, lemma_deep_view_push, split, split_text, str_chars,
};
use vstd::prelude::*;

verus! {

// ---------------------------------------------------------------------------
// Reading a file
// ---------------------------------------------------------------------------

/// `s` with every carriage return that stands before a line feed dropped.
pub open spec fn without_carriage_returns(s: Seq<char>) -> Seq<char>
    decreases s.len(),
{
    if s.len() == 0 {
        s
    } else if s.len() >= 2 && s[0] == '\r' && s[1] == '\n' {
        seq!['\n'] + without_carriage_returns(s.skip(2))
    } else {
        seq![s[0]] + without_carriage_returns(s.skip(1))
    }
}

/// `s` without one line feed at its end.
pub open spec fn without_final_line_feed(s: Seq<char>) -> Seq<char> {
    if s.len() > 0 && s.last() == '\n' {
        s.drop_last()
    } else {
        s
    }
}

/// The text of a file as the engine takes it: line ends are line feeds, and
/// one line feed at the end is dropped.
pub open spec fn normalized(raw: Seq<char>) -> Seq<char> {
    without_final_line_feed(without_carriage_returns(raw))
}

/// Turns the text of a file into the text that the engine takes: every
/// carriage return before a line feed goes, and so does one line feed at the
/// end.
pub fn normalize_text(raw: &str) -> (r: String)
    ensures
        r@ == normalized(raw@),
{
    let v = str_chars(raw);
    let mut out: Vec<char> = Vec::new();
    let mut i: usize = 0;
    proof {
        assert(v@.skip(0) =~= v@);
        assert(out@ + without_carriage_returns(v@) =~= without_carriage_returns(v@));
    }
    while i < v.len()
        invariant
            i <= v.len(),
            out@ + without_carriage_returns(v@.skip(i as int)) == without_carriage_returns(v@),
        decreases v.len() - i,
    {
        let ghost rest = v@.skip(i as int);
        let ghost before = out@;
        assert(rest[0] == v@[i as int]);
        if v[i] == '\r' && i + 1 < v.len() && v[i + 1] == '\n' {
            out.push('\n');
            proof {
                assert(rest[1] == v@[i + 1]);
                assert(rest.skip(2) =~= v@.skip(i + 2));
                assert(out@ + without_carriage_returns(v@.skip(i + 2)) =~= before + (seq!['\n']
                    + without_carriage_returns(rest.skip(2))));
            }
            i += 2;
        } else {
            out.push(v[i]);
            proof {
                if i + 1 < v.len() {
                    assert(rest[1] == v@[i + 1]);
                }
                assert(rest.skip(1) =~= v@.skip(i + 1));
                assert(out@ + without_carriage_returns(v@.skip(i + 1)) =~= before + (seq![rest[0]]
                    + without_carriage_returns(rest.skip(1))));
            }
            i += 1;
        }
    }
    proof {
        assert(v@.skip(v@.len() as int) =~= Seq::<char>::empty());
        assert(out@ + Seq::<char>::empty() =~= out@);
    }
    let n = out.len();
    if n > 0 && out[n - 1] == '\n' {
        let r = chars_string(&out, 0, n - 1);
        assert(out@.subrange(0, n - 1) =~= out@.drop_last());
        r
    } else {
        let r = chars_string(&out, 0, n);
        assert(out@.subrange(0, n as int) =~= out@);
        r
    }
}

// ---------------------------------------------------------------------------
// Windows of a text
// ---------------------------------------------------------------------------

/// The lines `lines[from..to]` in display form, the first numbered `number`;
/// nothing where there are no such lines.
pub open spec fn shown(lines: Seq<Seq<char>>, from: int, to: int, number: nat) -> Option<
    Seq<char>,
> {
    if 0 <= from < to <= lines.len() {
        Some(join(display_lines(lines.subrange(from, to), number), '\n'))
    } else {
        None
    }
}

/// The smaller of two numbers.
pub open spec fn least(a: int, b: int) -> int {
    if a <= b {
        a
    } else {
        b
    }
}

/// The window of a text that is read: from line `start_line` on, `count`
/// lines where a count is given, else all; numbered from `start_line`.
pub open spec fn read_window(content: Seq<char>, start_line: nat, count: Option<nat>) -> Option<
    Seq<char>,
> {
    let lines = split(content, '\n');
    let from = least(if start_line >= 1 { start_line - 1 } else { 0 }, lines.len() as int);
    let to = match count {
        Some(n) => least(from + n, lines.len() as int),
        None => lines.len() as int,
    };
    shown(lines, from, to, start_line)
}

/// The window of a text that is shown after a batch: from two lines above
/// the first changed line on, for three lines for each edit, ten at least,
/// and four more; numbered as in the text.
pub open spec fn changed_window(content: Seq<char>, first_line: nat, edits: nat) -> Option<
    Seq<char>,
> {
    let lines = split(content, '\n');
    let from = if first_line >= 3 {
        first_line - 3
    } else {
        0
    };
    let span = (if edits * 3 >= 10 {
        edits * 3
    } else {
        10
    }) + 4;
    shown(lines, from, least(from + span, lines.len() as int), (from + 1) as nat)
}

/// The lines `lines[from..to]` in display form, the first numbered `number`.
fn show(lines: &[String], from: usize, to: usize, number: usize) -> (r: Option<String>)
    requires
        from <= to <= lines.len(),
    ensures
        match r {
            Some(text) => shown(lines.deep_view(), from as int, to as int, number as nat) == Some(
                text@,
            ),
            None => shown(lines.deep_view(), from as int, to as int, number as nat) is None,
        },
{
    if from >= to {
        return None;
    }
    let ghost want = display_lines(
        lines.deep_view().subrange(from as int, to as int),
        number as nat,
    );
    let mut rows: Vec<String> = Vec::new();
    let mut i: usize = from;
    assert(rows.deep_view() =~= want.take(0));
    while i < to
        invariant
            from <= i <= to <= lines.len(),
            want == display_lines(lines.deep_view().subrange(from as int, to as int), number as nat),
            rows.deep_view() == want.take(i - from),
        decreases to - i,
    {
        let ghost before = rows@;
        let row = display_string(number as u128 + (i - from) as u128, lines[i].as_str());
        rows.push(row);
        proof {
            lemma_deep_view_push(before, rows@, row);
            assert(want.take(i - from + 1) =~= want.take(i - from).push(want[i - from]));
        }
        i += 1;
    }
    assert(want.take(to - from) =~= want);
    Some(join_text(rows.as_slice(), '\n'))
}

/// The part of a text that the command `read` shows: the lines from
/// `start_line` on, at most `lines` of them where that is given, each behind
/// its anchor and numbered as in the text. Nothing where the text has no
/// such line.
pub fn format_lines_from(content: &str, start_line: usize, lines: Option<usize>) -> (r: Option<
    String,
>)
    ensures
        match r {
            Some(text) => read_window(
                content@,
                start_line as nat,
                match lines {
                    Some(n) => Some(n as nat),
                    None => None,
                },
            ) == Some(text@),
            None => read_window(
                content@,
                start_line as nat,
                match lines {
                    Some(n) => Some(n as nat),
                    None => None,
                },
            ) is None,
        },
{
    let all = split_text(content, '\n');
    let total = all.len();
    let wanted: usize = if start_line >= 1 {
        start_line - 1
    } else {
        0
    };
    let from: usize = if wanted <= total {
        wanted
    } else {
        total
    };
    let to: usize = match lines {
        Some(n) => if n <= total - from {
            from + n
        } else {
            total
        },
        None => total,
    };
    show(all.as_slice(), from, to, start_line)
}

/// The part of a text that is shown after a batch of `edits` edits whose
/// first changed line is `first_line`: a window around the change, each
/// line behind its fresh anchor. Nothing where the window is empty.
pub fn format_changed_region(content: &str, first_line: usize, edits: usize) -> (r: Option<String>)
    ensures
        match r {
            Some(text) => changed_window(content@, first_line as nat, edits as nat) == Some(text@),
            None => changed_window(content@, first_line as nat, edits as nat) is None,
        },
{
    let all = split_text(content, '\n');
    let total = all.len();
    let from: usize = if first_line >= 3 {
        first_line - 3
    } else {
        0
    };
    if from >= total {
        return None;
    }
    let tripled: u128 = (edits as u128) * 3;
    let span: u128 = (if tripled >= 10 {
        tripled
    } else {
        10
    }) + 4;
    let to: usize = if span <= (total - from) as u128 {
        from + (span as usize)
    } else {
        total
    };
    show(all.as_slice(), from, to, from + 1)
}

// ---------------------------------------------------------------------------
// A batch of both kinds of edit
// ---------------------------------------------------------------------------

/// The edit is a substring edit.
pub open spec fn is_replace(e: HashlineEdit) -> bool {
    e is Replace
}

/// The anchored edits of a batch, in order.
pub open spec fn anchored_edits(edits: Seq<HashlineEdit>) -> Seq<HashlineEdit> {
    edits.filter(|e: HashlineEdit| !is_replace(e))
}

/// The substring edits of a batch, in order.
pub open spec fn replace_edits(edits: Seq<HashlineEdit>) -> Seq<HashlineEdit> {
    edits.filter(|e: HashlineEdit| is_replace(e))
}

/// What a batch of both kinds gives.
#[derive(Debug)]
pub struct BatchResult {
    /// The text after all edits.
    pub content: String,
    /// The first line that an anchored edit or a substring edit changed.
    pub first_changed_line: Option<usize>,
    /// The warnings of the anchored edits.
    pub warnings: Vec<String>,
    /// The anchored edits that changed nothing.
    pub noop_edits: Vec<NoopEdit>,
    /// The number of substring edits made.
    pub replacements: usize,
}

/// What a batch of both kinds gives, as plain values.
pub struct BatchView {
    pub content: Seq<char>,
    pub first_changed_line: Option<int>,
    pub warnings: Seq<Seq<char>>,
    pub noop_edits: Seq<NoopView>,
    pub replacements: nat,
}

impl BatchResult {
    /// The plain values of the result.
    pub open spec fn view(&self) -> BatchView {
        BatchView {
            content: self.content@,
            first_changed_line: line_view(self.first_changed_line),
            warnings: self.warnings.deep_view(),
            noop_edits: noops_view(self.noop_edits@),
            replacements: self.replacements as nat,
        }
    }

    /// The batch changed the text.
    pub open spec fn changed(&self) -> bool {
        self.first_changed_line is Some || self.replacements > 0
    }
}

/// The earlier of two lines, each of which may be absent.
pub open spec fn first_of(a: Option<int>, b: Option<int>) -> Option<int> {
    match (a, b) {
        (Some(x), Some(y)) => Some(least(x, y)),
        (Some(x), None) => Some(x),
        (None, Some(y)) => Some(y),
        (None, None) => None,
    }
}

/// What a batch of both kinds makes of `content`: the anchored edits are
/// applied first, all or nothing; the substring edits are then applied in
/// order to what the anchored edits gave.
pub open spec fn batch_applied(content: Seq<char>, edits: Seq<HashlineEdit>) -> Result<
    BatchView,
    ErrorView,
> {
    match applied(content, anchored_edits(edits)) {
        Err(e) => Err(e),
        Ok(anchored) => if replace_edits(edits).len() == 0 {
            Ok(
                BatchView {
                    content: anchored.content,
                    first_changed_line: anchored.first_changed_line,
                    warnings: anchored.warnings,
                    noop_edits: anchored.noop_edits,
                    replacements: 0,
                },
            )
        } else {
            match replaced(anchored.content, replace_edits(edits)) {
                Err(m) => Err(ErrorView::Other(m)),
                Ok(r) => Ok(
                    BatchView {
                        content: r.content,
                        first_changed_line: first_of(
                            anchored.first_changed_line,
                            r.first_changed_line,
                        ),
                        warnings: anchored.warnings,
                        noop_edits: anchored.noop_edits,
                        replacements: r.replacements,
                    },
                ),
            }
        },
    }
}

fn clone_op(e: &HashlineEdit) -> (r: HashlineEdit)
    ensures
        r == *e,
{
    match e {
        HashlineEdit::SetLine { set_line } => HashlineEdit::SetLine {
            set_line: crate::edit::SetLineOp {
                anchor: set_line.anchor.clone(),
                new_text: set_line.new_text.clone(),
            },
        },
        HashlineEdit::ReplaceLines { replace_lines } => HashlineEdit::ReplaceLines {
            replace_lines: crate::edit::ReplaceLinesOp {
                start_anchor: replace_lines.start_anchor.clone(),
                end_anchor: match &replace_lines.end_anchor {
                    Some(a) => Some(a.clone()),
                    None => None,
                },
                new_text: match &replace_lines.new_text {
                    Some(t) => Some(t.clone()),
                    None => None,
                },
            },
        },
        HashlineEdit::InsertAfter { insert_after } => HashlineEdit::InsertAfter {
            insert_after: crate::edit::InsertAfterOp {
                anchor: insert_after.anchor.clone(),
                text: match &insert_after.text {
                    Some(t) => Some(t.clone()),
                    None => None,
                },
                content: match &insert_after.content {
                    Some(t) => Some(t.clone()),
                    None => None,
                },
            },
        },
        HashlineEdit::Replace { replace } => HashlineEdit::Replace {
            replace: crate::edit::ReplaceOp {
                old_text: replace.old_text.clone(),
                new_text: replace.new_text.clone(),
            },
        },
    }
}

/// Parts a batch into its anchored edits and its substring edits, each in
/// the order of the batch.
pub fn split_edits(edits: &[HashlineEdit]) -> (r: (Vec<HashlineEdit>, Vec<HashlineEdit>))
    ensures
        r.0@ == anchored_edits(edits@),
        r.1@ == replace_edits(edits@),
{
    let mut anchored: Vec<HashlineEdit> = Vec::new();
    let mut replaces: Vec<HashlineEdit> = Vec::new();
    let mut i: usize = 0;
    proof {
        reveal(Seq::filter);
        assert(edits@.take(0) =~= Seq::<HashlineEdit>::empty());
    }
    while i < edits.len()
        invariant
            i <= edits.len(),
            anchored@ == anchored_edits(edits@.take(i as int)),
            replaces@ == replace_edits(edits@.take(i as int)),
        decreases edits.len() - i,
    {
        proof {
            assert(edits@.take(i + 1) =~= edits@.take(i as int).push(edits@[i as int]));
            Seq::lemma_filter_push(
                edits@.take(i as int),
                edits@[i as int],
                |e: HashlineEdit| !is_replace(e),
            );
            Seq::lemma_filter_push(
                edits@.take(i as int),
                edits@[i as int],
                |e: HashlineEdit| is_replace(e),
            );
        }
        let e = clone_op(&edits[i]);
        match &edits[i] {
            HashlineEdit::Replace { .. } => {
                replaces.push(e);
            },
            _ => {
                anchored.push(e);
            },
        }
        i += 1;
    }
    assert(edits@.take(edits@.len() as int) =~= edits@);
    (anchored, replaces)
}

/// Applies a batch that may hold both kinds of edit: first the anchored
/// edits, all or nothing, then the substring edits on what they gave. The
/// first refusal of either kind refuses the batch.
pub fn apply_edits(content: &str, edits: &[HashlineEdit]) -> (r: Result<BatchResult, EditError>)
    ensures
        match r {
            Ok(res) => batch_applied(content@, edits@) == Ok::<BatchView, ErrorView>(res@),
            Err(e) => batch_applied(content@, edits@) == Err::<BatchView, ErrorView>(e@),
        },
{
    let (anchored, replaces) = split_edits(edits);
    let first = match apply_hashline_edits(content, anchored.as_slice()) {
        Err(e) => {
            return Err(e);
        },
        Ok(r) => r,
    };
    let ApplyResult { content: text, first_changed_line, warnings, noop_edits } = first;
    if replaces.len() == 0 {
        return Ok(
            BatchResult { content: text, first_changed_line, warnings, noop_edits, replacements: 0 },
        );
    }
    let second = match apply_replace_edits(text.as_str(), replaces.as_slice()) {
        Err(e) => {
            return Err(e);
        },
        Ok(r) => r,
    };
    let line = match (first_changed_line, second.first_changed_line) {
        (Some(a), Some(b)) => Some(
            if a <= b {
                a
            } else {
                b
            },
        ),
        (Some(a), None) => Some(a),
        (None, Some(b)) => Some(b),
        (None, None) => None,
    };
    Ok(
        BatchResult {
            content: second.content,
            first_changed_line: line,
            warnings,
            noop_edits,
            replacements: second.replacements,
        },
    )
}

} // verus!
