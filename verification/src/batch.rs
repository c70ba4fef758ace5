//! The first phase of a batch: every edit is parsed into the lines it names
//! and the lines it puts there.

use crate::edit::HashlineEdit;
use crate::heuristics::{strip_new_line_prefixes, without_line_prefixes};
use crate::parse::{parse_line_ref, parsed_anchor, LineRef};
use crate::text::{split, split_text};
use vstd::prelude::*;

verus! {

/// The lines that an edit names.
#[derive(Debug, Clone)]
pub enum ParsedRefs {
    /// One line to replace.
    Single { line: usize, hash: String },
    /// A range of lines to replace, both ends included.
    Range { start_line: usize, start_hash: String, end_line: usize, end_hash: String },
    /// A line to insert after.
    InsertAfter { line: usize, hash: String },
}

/// An edit after parsing: its place in the batch, the lines it names and the
/// lines it puts there.
#[derive(Debug, Clone)]
pub struct ParsedEdit {
    pub index: usize,
    pub refs: ParsedRefs,
    pub dst_lines: Vec<String>,
}

/// The lines that an edit names, as plain values.
pub enum RefsView {
    Single { line: int, hash: Seq<char> },
    Range { start_line: int, start_hash: Seq<char>, end_line: int, end_hash: Seq<char> },
    InsertAfter { line: int, hash: Seq<char> },
}

/// A parsed edit, as plain values.
pub struct ParsedView {
    pub index: int,
    pub refs: RefsView,
    pub dst: Seq<Seq<char>>,
}

impl ParsedRefs {
    /// The plain values of the references.
    pub open spec fn view(&self) -> RefsView {
        match self {
            ParsedRefs::Single { line, hash } => RefsView::Single { line: *line as int, hash: hash@ },
            ParsedRefs::Range { start_line, start_hash, end_line, end_hash } => RefsView::Range {
                start_line: *start_line as int,
                start_hash: start_hash@,
                end_line: *end_line as int,
                end_hash: end_hash@,
            },
            ParsedRefs::InsertAfter { line, hash } => RefsView::InsertAfter {
                line: *line as int,
                hash: hash@,
            },
        }
    }
}

impl ParsedEdit {
    /// The plain values of the edit.
    pub open spec fn view(&self) -> ParsedView {
        ParsedView { index: self.index as int, refs: self.refs@, dst: self.dst_lines.deep_view() }
    }
}

/// The plain values of a list of parsed edits.
pub open spec fn parsed_views(edits: Seq<ParsedEdit>) -> Seq<ParsedView> {
    Seq::new(edits.len(), |i: int| edits[i]@)
}

/// Appending an edit to a vector appends its plain values to the vector's.
pub proof fn lemma_parsed_views_push(before: Seq<ParsedEdit>, edit: ParsedEdit)
    ensures
        parsed_views(before.push(edit)) == parsed_views(before).push(edit@),
{
    assert(parsed_views(before.push(edit)) =~= parsed_views(before).push(edit@));
}

/// The message for a substring edit among the anchored ones.
pub open spec fn misplaced_replace_message() -> Seq<char> {
    "replace edits are applied separately; do not pass them to applyHashlineEdits"@
}

/// The text of an optional string; empty where it is absent.
pub open spec fn text_or_empty(t: Option<String>) -> Seq<char> {
    match t {
        Some(s) => s@,
        None => Seq::empty(),
    }
}

/// The lines that an edit names and the text it puts there, or the message
/// that says why it names none. A range whose end is absent or equal to its
/// start is a single line.
pub open spec fn target_of(edit: HashlineEdit) -> Result<(RefsView, Seq<char>), Seq<char>> {
    match edit {
        HashlineEdit::SetLine { set_line } => match parsed_anchor(set_line.anchor@) {
            Ok((line, hash)) => Ok((RefsView::Single { line: line as int, hash }, set_line.new_text@)),
            Err(m) => Err(m),
        },
        HashlineEdit::ReplaceLines { replace_lines } => match parsed_anchor(
            replace_lines.start_anchor@,
        ) {
            Err(m) => Err(m),
            Ok((line, hash)) => {
                let text = text_or_empty(replace_lines.new_text);
                match replace_lines.end_anchor {
                    None => Ok((RefsView::Single { line: line as int, hash }, text)),
                    Some(end) => match parsed_anchor(end@) {
                        Err(m) => Err(m),
                        Ok((end_line, end_hash)) => if line == end_line {
                            Ok((RefsView::Single { line: line as int, hash }, text))
                        } else {
                            Ok(
                                (
                                    RefsView::Range {
                                        start_line: line as int,
                                        start_hash: hash,
                                        end_line: end_line as int,
                                        end_hash,
                                    },
                                    text,
                                ),
                            )
                        },
                    },
                }
            },
        },
        HashlineEdit::InsertAfter { insert_after } => match parsed_anchor(insert_after.anchor@) {
            Ok((line, hash)) => Ok(
                (
                    RefsView::InsertAfter { line: line as int, hash },
                    match insert_after.text {
                        Some(t) => t@,
                        None => text_or_empty(insert_after.content),
                    },
                ),
            ),
            Err(m) => Err(m),
        },
        HashlineEdit::Replace { replace } => Err(misplaced_replace_message()),
    }
}

/// The lines of a replacement text: none for the empty text, else the text
/// split at line feeds.
pub open spec fn dst_of(text: Seq<char>) -> Seq<Seq<char>> {
    if text.len() == 0 {
        Seq::empty()
    } else {
        split(text, '\n')
    }
}

/// The edit at place `index` after parsing, echoed prefixes stripped.
pub open spec fn parsed_edit(edit: HashlineEdit, index: int) -> Result<ParsedView, Seq<char>> {
    match target_of(edit) {
        Ok((refs, text)) => Ok(ParsedView { index, refs, dst: without_line_prefixes(dst_of(text)) }),
        Err(m) => Err(m),
    }
}

/// Every edit of the batch after parsing, or the message of the first that
/// does not parse.
pub open spec fn parsed_batch(edits: Seq<HashlineEdit>) -> Result<Seq<ParsedView>, Seq<char>>
    decreases edits.len(),
{
    if edits.len() == 0 {
        Ok(Seq::empty())
    } else {
        match parsed_batch(edits.drop_last()) {
            Err(m) => Err(m),
            Ok(before) => match parsed_edit(edits.last(), edits.len() - 1) {
                Err(m) => Err(m),
                Ok(p) => Ok(before.push(p)),
            },
        }
    }
}

/// The lines of a replacement text.
pub fn split_dst_lines(dst: &str) -> (r: Vec<String>)
    ensures
        r.deep_view() == dst_of(dst@),
{
    if dst.is_empty() {
        let r: Vec<String> = Vec::new();
        assert(r.deep_view() =~= Seq::<Seq<char>>::empty());
        r
    } else {
        split_text(dst, '\n')
    }
}

fn text_of(t: &Option<String>) -> (r: String)
    ensures
        r@ == text_or_empty(*t),
{
    match t {
        Some(s) => s.clone(),
        None => String::new(),
    }
}

/// Parses the anchors of one edit and picks its replacement text.
pub fn parse_hashline_edit(edit: &HashlineEdit) -> (r: Result<(ParsedRefs, String), String>)
    ensures
        match r {
            Ok((refs, text)) => target_of(*edit) == Ok::<(RefsView, Seq<char>), Seq<char>>(
                (refs@, text@),
            ),
            Err(m) => target_of(*edit) == Err::<(RefsView, Seq<char>), Seq<char>>(m@),
        },
{
    match edit {
        HashlineEdit::SetLine { set_line } => {
            match parse_line_ref(set_line.anchor.as_str()) {
                Err(m) => Err(m),
                Ok(r) => {
                    let LineRef { line, hash } = r;
                    Ok((ParsedRefs::Single { line, hash }, set_line.new_text.clone()))
                },
            }
        },
        HashlineEdit::ReplaceLines { replace_lines } => {
            match parse_line_ref(replace_lines.start_anchor.as_str()) {
                Err(m) => Err(m),
                Ok(start) => {
                    let LineRef { line, hash } = start;
                    let new_text = text_of(&replace_lines.new_text);
                    match &replace_lines.end_anchor {
                        None => Ok((ParsedRefs::Single { line, hash }, new_text)),
                        Some(end_str) => {
                            match parse_line_ref(end_str.as_str()) {
                                Err(m) => Err(m),
                                Ok(end) => {
                                    let LineRef { line: end_line, hash: end_hash } = end;
                                    if line == end_line {
                                        Ok((ParsedRefs::Single { line, hash }, new_text))
                                    } else {
                                        Ok(
                                            (
                                                ParsedRefs::Range {
                                                    start_line: line,
                                                    start_hash: hash,
                                                    end_line,
                                                    end_hash,
                                                },
                                                new_text,
                                            ),
                                        )
                                    }
                                },
                            }
                        },
                    }
                },
            }
        },
        HashlineEdit::InsertAfter { insert_after } => {
            match parse_line_ref(insert_after.anchor.as_str()) {
                Err(m) => Err(m),
                Ok(r) => {
                    let LineRef { line, hash } = r;
                    let text = match &insert_after.text {
                        Some(t) => t.clone(),
                        None => text_of(&insert_after.content),
                    };
                    Ok((ParsedRefs::InsertAfter { line, hash }, text))
                },
            }
        },
        HashlineEdit::Replace { replace } => Err(
            String::from_str(
                "replace edits are applied separately; do not pass them to applyHashlineEdits",
            ),
        ),
    }
}

/// Parses every edit of the batch, in order; stops at the first that does
/// not parse.
pub fn parse_batch(edits: &[HashlineEdit]) -> (r: Result<Vec<ParsedEdit>, String>)
    ensures
        match r {
            Ok(parsed) => parsed_batch(edits@) == Ok::<Seq<ParsedView>, Seq<char>>(
                parsed_views(parsed@),
            ) && parsed@.len() == edits@.len(),
            Err(m) => parsed_batch(edits@) == Err::<Seq<ParsedView>, Seq<char>>(m@),
        },
{
    let mut parsed: Vec<ParsedEdit> = Vec::new();
    let mut i: usize = 0;
    assert(edits@.take(0) =~= Seq::<HashlineEdit>::empty());
    assert(parsed_views(parsed@) =~= Seq::<ParsedView>::empty());
    while i < edits.len()
        invariant
            i <= edits.len(),
            parsed@.len() == i,
            parsed_batch(edits@.take(i as int)) == Ok::<Seq<ParsedView>, Seq<char>>(
                parsed_views(parsed@),
            ),
        decreases edits.len() - i,
    {
        proof {
            assert(edits@.take(i + 1).drop_last() =~= edits@.take(i as int));
            assert(edits@.take(i + 1).last() == edits@[i as int]);
        }
        match parse_hashline_edit(&edits[i]) {
            Err(m) => {
                proof {
                    lemma_parse_error_stays(edits@, i + 1);
                }
                return Err(m);
            },
            Ok((refs, text)) => {
                let raw = split_dst_lines(text.as_str());
                let dst_lines = strip_new_line_prefixes(raw.as_slice());
                let edit = ParsedEdit { index: i, refs, dst_lines };
                proof {
                    lemma_parsed_views_push(parsed@, edit);
                }
                parsed.push(edit);
            },
        }
        i += 1;
    }
    assert(edits@.take(edits@.len() as int) =~= edits@);
    Ok(parsed)
}

/// An edit that does not parse fails the batch whatever follows it.
pub proof fn lemma_parse_error_stays(edits: Seq<HashlineEdit>, k: int)
    requires
        0 <= k <= edits.len(),
        parsed_batch(edits.take(k)) is Err,
    ensures
        parsed_batch(edits) == parsed_batch(edits.take(k)),
    decreases edits.len() - k,
{
    if k < edits.len() {
        assert(edits.take(k + 1).drop_last() =~= edits.take(k));
        lemma_parse_error_stays(edits, k + 1);
    } else {
        assert(edits.take(k) =~= edits);
    }
}

} // verus!
