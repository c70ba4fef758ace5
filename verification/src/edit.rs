//! The edits of a batch and what applying them returns.

use crate::error::{HashMismatch, HashlineMismatchError};
use vstd::prelude::*;

verus! {

/// One edit of a batch.
#[derive(Debug, Clone)]
pub enum HashlineEdit {
    /// Replace one line.
    SetLine { set_line: SetLineOp },
    /// Replace a range of lines, both ends included.
    ReplaceLines { replace_lines: ReplaceLinesOp },
    /// Insert lines after a line.
    InsertAfter { insert_after: InsertAfterOp },
    /// Replace the one occurrence of a text; applied apart from the
    /// anchored edits.
    Replace { replace: ReplaceOp },
}

/// Replace the line that `anchor` names by `new_text`; the empty text
/// deletes the line.
#[derive(Debug, Clone)]
pub struct SetLineOp {
    pub anchor: String,
    pub new_text: String,
}

/// Replace the lines from `start_anchor` to `end_anchor` by `new_text`. An
/// absent end, or an end at the line of the start, makes it one line; an
/// absent or empty text deletes the lines.
#[derive(Debug, Clone)]
pub struct ReplaceLinesOp {
    pub start_anchor: String,
    pub end_anchor: Option<String>,
    pub new_text: Option<String>,
}

/// Insert lines after the line that `anchor` names: those of `text`, or of
/// `content` where `text` is absent. No text at all inserts one empty line.
/// A first line that repeats the anchor line, whitespace aside, is not
/// inserted; where that leaves nothing, the edit changes nothing.
#[derive(Debug, Clone)]
pub struct InsertAfterOp {
    pub anchor: String,
    pub text: Option<String>,
    pub content: Option<String>,
}

/// Replace the one occurrence of `old_text` by `new_text`.
#[derive(Debug, Clone)]
pub struct ReplaceOp {
    pub old_text: String,
    pub new_text: String,
}

/// A batch as it is sent: the file and the edits.
#[derive(Debug, Clone)]
pub struct HashlineParams {
    pub path: String,
    pub edits: Vec<HashlineEdit>,
}

/// What applying a batch of anchored edits gives.
#[derive(Debug)]
pub struct ApplyResult {
    pub content: String,
    pub first_changed_line: Option<usize>,
    pub warnings: Vec<String>,
    pub noop_edits: Vec<NoopEdit>,
}

/// An anchored edit that changed nothing.
#[derive(Debug)]
pub struct NoopEdit {
    pub edit_index: usize,
    pub loc: String,
    pub current_content: String,
}

/// What applying the substring edits of a batch gives.
#[derive(Debug)]
pub struct ReplaceResult {
    pub content: String,
    pub replacements: usize,
    pub first_changed_line: Option<usize>,
}

/// Why a batch was refused.
#[derive(Debug)]
pub enum EditError {
    /// Anchors are stale; the error carries fresh ones.
    Mismatch(HashlineMismatchError),
    /// Anything else: an anchor that does not parse, a line out of range,
    /// a substring that is missing or ambiguous.
    Other(String),
}

// ---------------------------------------------------------------------------
// Views
// ---------------------------------------------------------------------------

/// A stale anchor, as plain values.
pub struct MismatchView {
    pub line: int,
    pub expected: Seq<char>,
    pub actual: Seq<char>,
}

/// A no-op edit, as plain values.
pub struct NoopView {
    pub edit_index: int,
    pub loc: Seq<char>,
    pub current_content: Seq<char>,
}

/// The result of a batch, as plain values.
pub struct AppliedView {
    pub content: Seq<char>,
    pub first_changed_line: Option<int>,
    pub warnings: Seq<Seq<char>>,
    pub noop_edits: Seq<NoopView>,
}

/// The refusal of a batch, as plain values.
pub enum ErrorView {
    Mismatch { mismatches: Seq<MismatchView>, file_lines: Seq<Seq<char>> },
    Other(Seq<char>),
}

/// The plain values of one stale anchor.
pub open spec fn mismatch_view(m: HashMismatch) -> MismatchView {
    MismatchView { line: m.line as int, expected: m.expected@, actual: m.actual@ }
}

/// The plain values of a list of stale anchors.
pub open spec fn mismatches_view(ms: Seq<HashMismatch>) -> Seq<MismatchView> {
    Seq::new(ms.len(), |i: int| mismatch_view(ms[i]))
}

/// The plain values of one no-op edit.
pub open spec fn noop_view(n: NoopEdit) -> NoopView {
    NoopView {
        edit_index: n.edit_index as int,
        loc: n.loc@,
        current_content: n.current_content@,
    }
}

/// The plain values of a list of no-op edits.
pub open spec fn noops_view(ns: Seq<NoopEdit>) -> Seq<NoopView> {
    Seq::new(ns.len(), |i: int| noop_view(ns[i]))
}

/// A line number or its absence, as a plain value.
pub open spec fn line_view(l: Option<usize>) -> Option<int> {
    match l {
        Some(n) => Some(n as int),
        None => None,
    }
}

impl ApplyResult {
    /// The plain values of the result.
    pub open spec fn view(&self) -> AppliedView {
        AppliedView {
            content: self.content@,
            first_changed_line: line_view(self.first_changed_line),
            warnings: self.warnings.deep_view(),
            noop_edits: noops_view(self.noop_edits@),
        }
    }
}

impl EditError {
    /// The plain values of the refusal.
    pub open spec fn view(&self) -> ErrorView {
        match self {
            EditError::Mismatch(e) => ErrorView::Mismatch {
                mismatches: mismatches_view(e.mismatches@),
                file_lines: e.file_lines.deep_view(),
            },
            EditError::Other(m) => ErrorView::Other(m@),
        }
    }

    /// The stale anchors, where that is why the batch was refused.
    pub fn mismatch(&self) -> (r: Option<&HashlineMismatchError>)
        ensures
            match self {
                EditError::Mismatch(e) => r == Some(e),
                EditError::Other(_) => r is None,
            },
    {
        match self {
            EditError::Mismatch(e) => Some(e),
            EditError::Other(_) => None,
        }
    }

    /// The text of the refusal: the message with fresh anchors for stale
    /// anchors, else the message as it is.
    pub fn to_string(&self) -> (r: String)
        ensures
            match self {
                EditError::Mismatch(e) => r@ == crate::error::message(
                    e.mismatches@,
                    e.file_lines.deep_view(),
                ),
                EditError::Other(m) => r@ == m@,
            },
    {
        match self {
            EditError::Mismatch(e) => e.format_message(),
            EditError::Other(m) => m.clone(),
        }
    }
}

} // verus!
