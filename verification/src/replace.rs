//! The substring-replace engine: each `Replace` edit of a batch swaps the one
//! occurrence of a text for another, in order, each on what the one before
//! it left.

use crate::edit::{EditError, HashlineEdit, ReplaceResult};
use crate::text::{
    chars_string, decimal, find, find_chars, find_from, lemma_find_from, occurs_at, push_decimal,
    push_range, str_chars,
};
use vstd::prelude::*;

verus! {

/// How many times `needle` stands in `hay` from `from` on, counted from left
/// to right without overlap.
pub open spec fn count_from(hay: Seq<char>, needle: Seq<char>, from: int) -> nat
    decreases hay.len() + 1 - from,
{
    if needle.len() == 0 || from < 0 || from + needle.len() > hay.len() {
        0
    } else if occurs_at(hay, needle, from) {
        1 + count_from(hay, needle, from + needle.len())
    } else {
        count_from(hay, needle, from + 1)
    }
}

/// How many line feeds stand in `s`.
pub open spec fn line_feeds(s: Seq<char>) -> nat
    decreases s.len(),
{
    if s.len() == 0 {
        0
    } else {
        line_feeds(s.drop_last()) + if s.last() == '\n' {
            1nat
        } else {
            0nat
        }
    }
}

/// The text, the number of replacements and the first changed line, as
/// plain values.
pub struct ReplacedView {
    pub content: Seq<char>,
    pub replacements: nat,
    pub first_changed_line: Option<int>,
}

impl ReplaceResult {
    /// The plain values of the result.
    pub open spec fn view(&self) -> ReplacedView {
        ReplacedView {
            content: self.content@,
            replacements: self.replacements as nat,
            first_changed_line: crate::edit::line_view(self.first_changed_line),
        }
    }
}

/// The message for an empty text to look for.
pub open spec fn empty_old_text_message() -> Seq<char> {
    "replace edit: old_text must not be empty"@
}

/// The message for a text that does not occur.
pub open spec fn not_found_message(old_text: Seq<char>) -> Seq<char> {
    "replace edit: old_text not found in file:\n"@ + old_text
}

/// The message for a text that occurs more than once.
pub open spec fn ambiguous_message(count: nat, old_text: Seq<char>) -> Seq<char> {
    "replace edit: old_text matches "@ + decimal(count)
        + " locations — add more context to make it unique:\n"@ + old_text
}

/// The state after one substring edit: refused where the text to look for is
/// empty, does not occur or occurs more than once; else its one occurrence
/// is replaced, and the line of the occurrence competes for the first
/// changed line.
pub open spec fn replace_one(st: ReplacedView, old_text: Seq<char>, new_text: Seq<char>) -> Result<
    ReplacedView,
    Seq<char>,
> {
    if old_text.len() == 0 {
        Err(empty_old_text_message())
    } else {
        match find(st.content, old_text) {
            None => Err(not_found_message(old_text)),
            Some(at) => if count_from(st.content, old_text, 0) > 1 {
                Err(ambiguous_message(count_from(st.content, old_text, 0), old_text))
            } else {
                let line = line_feeds(st.content.take(at)) + 1;
                Ok(
                    ReplacedView {
                        content: st.content.take(at) + new_text + st.content.skip(
                            at + old_text.len(),
                        ),
                        replacements: st.replacements + 1,
                        first_changed_line: match st.first_changed_line {
                            Some(f) => if line < f {
                                Some(line as int)
                            } else {
                                Some(f)
                            },
                            None => Some(line as int),
                        },
                    },
                )
            },
        }
    }
}

/// The state after the substring edits among `edits`, applied in order to
/// `st`; the other edits are passed over.
pub open spec fn replaced_from(st: ReplacedView, edits: Seq<HashlineEdit>) -> Result<
    ReplacedView,
    Seq<char>,
>
    decreases edits.len(),
{
    if edits.len() == 0 {
        Ok(st)
    } else {
        match replaced_from(st, edits.drop_last()) {
            Err(m) => Err(m),
            Ok(mid) => match edits.last() {
                HashlineEdit::Replace { replace } => replace_one(
                    mid,
                    replace.old_text@,
                    replace.new_text@,
                ),
                _ => Ok(mid),
            },
        }
    }
}

/// What the substring edits among `edits` make of `content`.
pub open spec fn replaced(content: Seq<char>, edits: Seq<HashlineEdit>) -> Result<
    ReplacedView,
    Seq<char>,
> {
    replaced_from(ReplacedView { content, replacements: 0, first_changed_line: None }, edits)
}

/// An edit that is refused fails the batch whatever follows.
pub proof fn lemma_replace_error_stays(st: ReplacedView, edits: Seq<HashlineEdit>, k: int)
    requires
        0 <= k <= edits.len(),
        replaced_from(st, edits.take(k)) is Err,
    ensures
        replaced_from(st, edits) == replaced_from(st, edits.take(k)),
    decreases edits.len() - k,
{
    if k < edits.len() {
        assert(edits.take(k + 1).drop_last() =~= edits.take(k));
        lemma_replace_error_stays(st, edits, k + 1);
    } else {
        assert(edits.take(k) =~= edits);
    }
}

/// Counting starts at the first occurrence.
pub proof fn lemma_count_from_first(hay: Seq<char>, needle: Seq<char>, from: int)
    requires
        0 <= from,
        needle.len() > 0,
    ensures
        match find_from(hay, needle, from) {
            Some(i) => count_from(hay, needle, from) == 1 + count_from(
                hay,
                needle,
                i + needle.len(),
            ),
            None => count_from(hay, needle, from) == 0,
        },
    decreases hay.len() + 1 - from,
{
    if from + needle.len() > hay.len() {
    } else if occurs_at(hay, needle, from) {
    } else {
        lemma_count_from_first(hay, needle, from + 1);
    }
}

/// How many times `needle` stands in `hay` from `from` on, up to 2.
fn count_up_to_two(hay: &Vec<char>, needle: &Vec<char>, from: usize) -> (r: usize)
    requires
        needle.len() > 0,
    ensures
        r <= 2,
        r < 2 ==> r == count_from(hay@, needle@, from as int),
        r == 2 ==> count_from(hay@, needle@, from as int) >= 2,
{
    let mut count: usize = 0;
    let mut at: usize = from;
    loop
        invariant
            needle.len() > 0,
            count < 2,
            count_from(hay@, needle@, from as int) == count + count_from(hay@, needle@, at as int),
        decreases hay.len() + 1 - at,
    {
        proof {
            lemma_count_from_first(hay@, needle@, at as int);
            lemma_find_from(hay@, needle@, at as int);
        }
        match find_chars(hay, needle, at) {
            None => {
                return count;
            },
            Some(i) => {
                count += 1;
                if count == 2 {
                    return 2;
                }
                at = i + needle.len();
            },
        }
    }
}

/// How many times `needle` stands in `hay`.
fn count_all(hay: &Vec<char>, needle: &Vec<char>) -> (r: usize)
    requires
        needle.len() > 0,
    ensures
        r == count_from(hay@, needle@, 0),
{
    let mut count: usize = 0;
    let mut at: usize = 0;
    loop
        invariant
            needle.len() > 0,
            count <= at <= hay.len() || count == 0,
            count_from(hay@, needle@, 0) == count + count_from(hay@, needle@, at as int),
        decreases hay.len() + 1 - at,
    {
        proof {
            lemma_count_from_first(hay@, needle@, at as int);
            lemma_find_from(hay@, needle@, at as int);
        }
        match find_chars(hay, needle, at) {
            None => {
                return count;
            },
            Some(i) => {
                count += 1;
                at = i + needle.len();
            },
        }
    }
}

/// The number of line feeds in `v[..to]`.
fn count_line_feeds(v: &Vec<char>, to: usize) -> (r: usize)
    requires
        to <= v.len(),
    ensures
        r == line_feeds(v@.take(to as int)),
        r <= to,
{
    let mut count: usize = 0;
    let mut i: usize = 0;
    assert(v@.take(0) =~= Seq::<char>::empty());
    while i < to
        invariant
            i <= to <= v.len(),
            count == line_feeds(v@.take(i as int)),
            count <= i,
        decreases to - i,
    {
        proof {
            assert(v@.take(i + 1).drop_last() =~= v@.take(i as int));
            assert(v@.take(i + 1).last() == v@[i as int]);
        }
        if v[i] == '\n' {
            count += 1;
        }
        i += 1;
    }
    count
}

fn not_found_error(old_text: &str) -> (m: String)
    ensures
        m@ == not_found_message(old_text@),
{
    let mut m = String::from_str("replace edit: old_text not found in file:\n");
    m.append(old_text);
    m
}

fn ambiguous_error(count: usize, old_text: &str) -> (m: String)
    ensures
        m@ == ambiguous_message(count as nat, old_text@),
{
    let mut m = String::from_str("replace edit: old_text matches ");
    push_decimal(&mut m, count as u128);
    m.append(" locations — add more context to make it unique:\n");
    m.append(old_text);
    m
}

/// Applies the `Replace` edits of a batch to `content`, in order; edits of
/// the other kinds are passed over. Each edit must find its text exactly
/// once in what the edits before it left: an empty text, a text that does
/// not occur and a text that occurs more than once refuse the batch, each
/// with its message.
pub fn apply_replace_edits(content: &str, edits: &[HashlineEdit]) -> (r: Result<
    ReplaceResult,
    EditError,
>)
    ensures
        match r {
            Ok(res) => replaced(content@, edits@) == Ok::<ReplacedView, Seq<char>>(res@),
            Err(e) => e is Other && replaced(content@, edits@) == Err::<ReplacedView, Seq<char>>(
                e->Other_0@,
            ),
        },
{
    let mut current = str_chars(content);
    let mut total: usize = 0;
    let mut first: Option<usize> = None;
    let ghost start = ReplacedView { content: content@, replacements: 0, first_changed_line: None };
    let mut i: usize = 0;
    assert(edits@.take(0) =~= Seq::<HashlineEdit>::empty());
    while i < edits.len()
        invariant
            i <= edits.len(),
            total <= i,
            start == (ReplacedView { content: content@, replacements: 0, first_changed_line: None }),
            replaced_from(start, edits@.take(i as int)) == Ok::<ReplacedView, Seq<char>>(
                ReplacedView {
                    content: current@,
                    replacements: total as nat,
                    first_changed_line: crate::edit::line_view(first),
                },
            ),
        decreases edits.len() - i,
    {
        proof {
            assert(edits@.take(i + 1).drop_last() =~= edits@.take(i as int));
            assert(edits@.take(i + 1).last() == edits@[i as int]);
        }
        match &edits[i] {
            HashlineEdit::Replace { replace } => {
                let needle = str_chars(replace.old_text.as_str());
                if needle.len() == 0 {
                    proof {
                        lemma_replace_error_stays(start, edits@, i + 1);
                    }
                    return Err(
                        EditError::Other(
                            String::from_str("replace edit: old_text must not be empty"),
                        ),
                    );
                }
                match find_chars(&current, &needle, 0) {
                    None => {
                        proof {
                            lemma_replace_error_stays(start, edits@, i + 1);
                        }
                        return Err(EditError::Other(not_found_error(replace.old_text.as_str())));
                    },
                    Some(at) => {
                        if count_up_to_two(&current, &needle, 0) > 1 {
                            let count = count_all(&current, &needle);
                            proof {
                                lemma_replace_error_stays(start, edits@, i + 1);
                            }
                            return Err(
                                EditError::Other(
                                    ambiguous_error(count, replace.old_text.as_str()),
                                ),
                            );
                        }
                        let line = count_line_feeds(&current, at) + 1;
                        let fresh = str_chars(replace.new_text.as_str());
                        let mut next: Vec<char> = Vec::new();
                        push_range(&mut next, &current, 0, at);
                        push_range(&mut next, &fresh, 0, fresh.len());
                        push_range(&mut next, &current, at + needle.len(), current.len());
                        proof {
                            assert(next@ =~= current@.take(at as int) + fresh@ + current@.skip(
                                at + needle.len(),
                            ));
                        }
                        first = match first {
                            Some(f) => if line < f {
                                Some(line)
                            } else {
                                Some(f)
                            },
                            None => Some(line),
                        };
                        current = next;
                        total += 1;
                    },
                }
            },
            _ => {},
        }
        i += 1;
    }
    assert(edits@.take(edits@.len() as int) =~= edits@);
    assert(current@.subrange(0, current@.len() as int) =~= current@);
    Ok(
        ReplaceResult {
            content: chars_string(&current, 0, current.len()),
            replacements: total,
            first_changed_line: first,
        },
    )
}

} // verus!
