//! What the engine reports when anchors are stale: the mismatches, a
//! snapshot of the file, a message with fresh anchors in context, and the
//! mapping from each stale anchor to its fresh one.

use crate::format::{anchor_string, anchor_text, display_line, display_string};
use crate::text::{
    decimal, is_digit, join, join_text, lemma_decimal, lemma_deep_view_push,
    lemma_first_index_unique, push_decimal, str_equal,
};
use vstd::prelude::*;

verus! {

/// One stale anchor: the line it named, the hash it expected there and the
/// hash that the line has.
#[derive(Debug, Clone)]
pub struct HashMismatch {
    pub line: usize,
    pub expected: String,
    pub actual: String,
}

/// The lines shown above and below each changed line.
pub const MISMATCH_CONTEXT: usize = 2;

/// The stale anchors of a batch, with the file as it was read.
#[derive(Debug, Clone)]
pub struct HashlineMismatchError {
    pub mismatches: Vec<HashMismatch>,
    pub file_lines: Vec<String>,
}

/// Line `n` is named by one of the mismatches.
pub open spec fn is_changed(mismatches: Seq<HashMismatch>, n: int) -> bool {
    exists|i: int| 0 <= i < mismatches.len() && #[trigger] mismatches[i].line == n
}

/// Line `n` lies in the context window of the changed line `m`, in a file of
/// `total` lines.
pub open spec fn in_window(m: int, n: int, total: int) -> bool {
    &&& (if m > MISMATCH_CONTEXT { m - MISMATCH_CONTEXT } else { 1 }) <= n
    &&& n <= m + MISMATCH_CONTEXT
    &&& n <= total
}

/// Line `n` lies in the context window of one of the mismatches.
pub open spec fn is_shown(mismatches: Seq<HashMismatch>, n: int, total: int) -> bool {
    exists|i: int|
        0 <= i < mismatches.len() && in_window((#[trigger] mismatches[i]).line as int, n, total)
}

/// The first line of the message.
pub open spec fn header(count: nat) -> Seq<char> {
    decimal(count) + (if count > 1 {
        " lines have"@
    } else {
        " line has"@
    })
        + " changed since last read. Use the updated LINE:HASH references shown below (>>> marks changed lines)."@
}

/// The row for line `n`: its fresh anchor and content behind `>>> ` where the
/// line changed and behind four spaces where it is context.
pub open spec fn row(mismatches: Seq<HashMismatch>, file: Seq<Seq<char>>, n: int) -> Seq<char> {
    (if is_changed(mismatches, n) {
        ">>> "@
    } else {
        "    "@
    }) + display_line(n as nat, file[n - 1])
}

/// The rows for the lines 1 to `n`: one for each shown line, and a row
/// `    ...` before a shown line whose predecessor is not shown, unless it
/// is the first row.
pub open spec fn rows(mismatches: Seq<HashMismatch>, file: Seq<Seq<char>>, n: int) -> Seq<
    Seq<char>,
>
    decreases n,
{
    if n <= 0 {
        Seq::empty()
    } else {
        let before = rows(mismatches, file, n - 1);
        if !is_shown(mismatches, n, file.len() as int) {
            before
        } else if before.len() > 0 && !is_shown(mismatches, n - 1, file.len() as int) {
            before.push("    ..."@).push(row(mismatches, file, n))
        } else {
            before.push(row(mismatches, file, n))
        }
    }
}

/// The message: the header, an empty line, and the rows.
pub open spec fn message(mismatches: Seq<HashMismatch>, file: Seq<Seq<char>>) -> Seq<char> {
    join(
        seq![header(mismatches.len()), Seq::<char>::empty()] + rows(
            mismatches,
            file,
            file.len() as int,
        ),
        '\n',
    )
}

/// The stale anchor as it was sent: the line and the expected hash.
pub open spec fn stale_anchor(m: HashMismatch) -> Seq<char> {
    decimal(m.line as nat) + seq![':'] + m.expected@
}

/// The fresh anchor of the line that a mismatch names.
pub open spec fn fresh_anchor(m: HashMismatch, file: Seq<Seq<char>>) -> Seq<char> {
    anchor_text(m.line as nat, file[m.line - 1])
}

/// The stale anchor of a mismatch and the fresh anchor of the same line.
pub open spec fn remap_pair(m: HashMismatch, file: Seq<Seq<char>>) -> (Seq<char>, Seq<char>) {
    (stale_anchor(m), fresh_anchor(m, file))
}

/// A mismatch before place `i` has the stale anchor of the mismatch at
/// place `i`.
pub open spec fn key_seen(mismatches: Seq<HashMismatch>, i: int) -> bool {
    exists|j: int| 0 <= j < i && stale_anchor(#[trigger] mismatches[j]) == stale_anchor(mismatches[i])
}

/// The mapping from stale anchors to fresh ones, as pairs: one pair for each
/// stale anchor, in the order in which the anchors first occur.
pub open spec fn remapped(mismatches: Seq<HashMismatch>, file: Seq<Seq<char>>) -> Seq<
    (Seq<char>, Seq<char>),
>
    decreases mismatches.len(),
{
    if mismatches.len() == 0 {
        Seq::empty()
    } else if key_seen(mismatches, mismatches.len() - 1) {
        remapped(mismatches.drop_last(), file)
    } else {
        remapped(mismatches.drop_last(), file).push(remap_pair(mismatches.last(), file))
    }
}

/// The texts of a list of pairs.
pub open spec fn pairs_view(pairs: Seq<(String, String)>) -> Seq<(Seq<char>, Seq<char>)> {
    Seq::new(pairs.len(), |i: int| (pairs[i].0@, pairs[i].1@))
}

/// Mismatches with the same stale anchor name the same line, and so have
/// the same fresh anchor.
pub proof fn lemma_stale_anchor_line(a: HashMismatch, b: HashMismatch, file: Seq<Seq<char>>)
    requires
        stale_anchor(a) == stale_anchor(b),
    ensures
        a.line == b.line,
        remap_pair(a, file) == remap_pair(b, file),
{
    let da = decimal(a.line as nat);
    let db = decimal(b.line as nat);
    let s = stale_anchor(a);
    lemma_decimal(a.line as nat);
    lemma_decimal(b.line as nat);
    assert forall|i: int| 0 <= i < da.len() implies s[i] != ':' by {
        assert(s[i] == da[i]);
        assert(is_digit(da[i]));
    }
    assert(s[da.len() as int] == ':');
    lemma_first_index_unique(s, ':', da.len() as int);
    assert forall|i: int| 0 <= i < db.len() implies s[i] != ':' by {
        assert(s[i] == db[i]);
        assert(is_digit(db[i]));
    }
    assert(s[db.len() as int] == ':');
    lemma_first_index_unique(s, ':', db.len() as int);
    assert(s.take(da.len() as int) =~= da);
    assert(s.take(db.len() as int) =~= db);
}

/// The pairs are a mapping: no stale anchor stands in them twice, every
/// mismatch finds its stale anchor with the fresh anchor of its line, and
/// every pair is that of a mismatch.
pub proof fn lemma_remapped_is_a_mapping(mismatches: Seq<HashMismatch>, file: Seq<Seq<char>>)
    ensures
        forall|a: int, b: int|
            0 <= a < b < remapped(mismatches, file).len() ==> remapped(mismatches, file)[a].0
                != remapped(mismatches, file)[b].0,
        forall|i: int|
            0 <= i < mismatches.len() ==> remapped(mismatches, file).contains(
                remap_pair(#[trigger] mismatches[i], file),
            ),
        forall|k: int|
            0 <= k < remapped(mismatches, file).len() ==> exists|i: int|
                0 <= i < mismatches.len() && #[trigger] remapped(mismatches, file)[k] == remap_pair(
                    #[trigger] mismatches[i],
                    file,
                ),
    decreases mismatches.len(),
{
    let n = mismatches.len() as int;
    if n > 0 {
        let before = mismatches.drop_last();
        let last = mismatches.last();
        lemma_remapped_is_a_mapping(before, file);
        let old_pairs = remapped(before, file);
        let pairs = remapped(mismatches, file);
        assert forall|i: int| 0 <= i < n - 1 implies before[i] == mismatches[i] by {}
        if key_seen(mismatches, n - 1) {
            let j = choose|j: int|
                0 <= j < n - 1 && stale_anchor(#[trigger] mismatches[j]) == stale_anchor(
                    mismatches[n - 1],
                );
            lemma_stale_anchor_line(mismatches[j], last, file);
            assert(old_pairs.contains(remap_pair(before[j], file)));
            assert forall|i: int| 0 <= i < n implies pairs.contains(
                remap_pair(#[trigger] mismatches[i], file),
            ) by {
                if i < n - 1 {
                    assert(old_pairs.contains(remap_pair(before[i], file)));
                }
            }
            assert forall|k: int| 0 <= k < pairs.len() implies exists|i: int|
                0 <= i < n && #[trigger] pairs[k] == remap_pair(#[trigger] mismatches[i], file) by {
                let i = choose|i: int|
                    0 <= i < before.len() && #[trigger] old_pairs[k] == remap_pair(
                        #[trigger] before[i],
                        file,
                    );
                assert(pairs[k] == remap_pair(mismatches[i], file));
            }
        } else {
            let p = remap_pair(last, file);
            assert(pairs == old_pairs.push(p));
            assert forall|a: int, b: int| 0 <= a < b < pairs.len() implies pairs[a].0
                != pairs[b].0 by {
                if b == old_pairs.len() {
                    let i = choose|i: int|
                        0 <= i < before.len() && #[trigger] old_pairs[a] == remap_pair(
                            #[trigger] before[i],
                            file,
                        );
                    assert(stale_anchor(mismatches[i]) != stale_anchor(mismatches[n - 1]));
                } else {
                    assert(pairs[a] == old_pairs[a]);
                    assert(pairs[b] == old_pairs[b]);
                }
            }
            assert forall|i: int| 0 <= i < n implies pairs.contains(
                remap_pair(#[trigger] mismatches[i], file),
            ) by {
                if i < n - 1 {
                    assert(old_pairs.contains(remap_pair(before[i], file)));
                    let k = choose|k: int|
                        0 <= k < old_pairs.len() && old_pairs[k] == remap_pair(before[i], file);
                    assert(pairs[k] == remap_pair(mismatches[i], file));
                } else {
                    assert(pairs[old_pairs.len() as int] == p);
                }
            }
            assert forall|k: int| 0 <= k < pairs.len() implies exists|i: int|
                0 <= i < n && #[trigger] pairs[k] == remap_pair(#[trigger] mismatches[i], file) by {
                if k < old_pairs.len() {
                    let i = choose|i: int|
                        0 <= i < before.len() && #[trigger] old_pairs[k] == remap_pair(
                            #[trigger] before[i],
                            file,
                        );
                    assert(pairs[k] == remap_pair(mismatches[i], file));
                } else {
                    assert(pairs[k] == remap_pair(mismatches[n - 1], file));
                }
            }
        }
    }
}

impl HashlineMismatchError {
    /// Every mismatch names a line of the file.
    pub open spec fn wf(&self) -> bool {
        forall|i: int|
            0 <= i < self.mismatches@.len() ==> 1 <= (#[trigger] self.mismatches@[i]).line
                <= self.file_lines@.len()
    }

    /// The error for these stale anchors in a file with these lines.
    pub fn new(mismatches: Vec<HashMismatch>, file_lines: Vec<String>) -> (r: Self)
        ensures
            r.mismatches == mismatches,
            r.file_lines == file_lines,
    {
        Self { mismatches, file_lines }
    }

    /// Whether line `n` is shown, and whether it is one of the changed lines.
    fn status(&self, n: usize) -> (r: (bool, bool))
        ensures
            r.0 == is_shown(self.mismatches@, n as int, self.file_lines@.len() as int),
            r.1 == is_changed(self.mismatches@, n as int),
    {
        let total = self.file_lines.len();
        let mut shown = false;
        let mut changed = false;
        let mut i: usize = 0;
        while i < self.mismatches.len()
            invariant
                i <= self.mismatches.len(),
                total == self.file_lines@.len(),
                shown == is_shown(self.mismatches@.take(i as int), n as int, total as int),
                changed == is_changed(self.mismatches@.take(i as int), n as int),
            decreases self.mismatches.len() - i,
        {
            let m = self.mismatches[i].line;
            let low: usize = if m > MISMATCH_CONTEXT {
                m - MISMATCH_CONTEXT
            } else {
                1
            };
            let here = low <= n && (n as u128) <= (m as u128) + (MISMATCH_CONTEXT as u128) && n
                <= total;
            proof {
                let before = self.mismatches@.take(i as int);
                let after = self.mismatches@.take(i + 1);
                assert(after[i as int] == self.mismatches@[i as int]);
                assert(here == in_window(m as int, n as int, total as int));
                if is_shown(before, n as int, total as int) {
                    let w = choose|w: int|
                        0 <= w < before.len() && in_window(
                            (#[trigger] before[w]).line as int,
                            n as int,
                            total as int,
                        );
                    assert(after[w] == before[w]);
                }
                if is_shown(after, n as int, total as int) && !here {
                    let w = choose|w: int|
                        0 <= w < after.len() && in_window(
                            (#[trigger] after[w]).line as int,
                            n as int,
                            total as int,
                        );
                    assert(before[w] == after[w]);
                }
                if is_changed(before, n as int) {
                    let w = choose|w: int| 0 <= w < before.len() && #[trigger] before[w].line == n;
                    assert(after[w] == before[w]);
                }
                if is_changed(after, n as int) && m != n {
                    let w = choose|w: int| 0 <= w < after.len() && #[trigger] after[w].line == n;
                    assert(before[w] == after[w]);
                }
            }
            if here {
                shown = true;
            }
            if m == n {
                changed = true;
            }
            i += 1;
        }
        assert(self.mismatches@.take(self.mismatches@.len() as int) =~= self.mismatches@);
        (shown, changed)
    }

    /// The message for the agent: how many lines changed, then every changed
    /// line with two lines of context on each side, each behind its fresh
    /// anchor; changed lines are marked `>>> `, and `    ...` stands between
    /// windows that do not touch.
    pub fn format_message(&self) -> (r: String)
        ensures
            r@ == message(self.mismatches@, self.file_lines.deep_view()),
    {
        let ghost file = self.file_lines.deep_view();
        let ghost ms = self.mismatches@;
        let count = self.mismatches.len();
        let mut head = String::new();
        push_decimal(&mut head, count as u128);
        if count > 1 {
            head.append(" lines have");
        } else {
            head.append(" line has");
        }
        head.append(
            " changed since last read. Use the updated LINE:HASH references shown below (>>> marks changed lines).",
        );
        assert(head@ =~= header(ms.len()));
        let mut lines: Vec<String> = Vec::new();
        let ghost l0 = lines@;
        lines.push(head);
        proof {
            lemma_deep_view_push(l0, lines@, head);
        }
        let ghost l1 = lines@;
        let blank = String::new();
        lines.push(blank);
        proof {
            lemma_deep_view_push(l1, lines@, blank);
            assert(lines.deep_view() =~= seq![header(ms.len()), Seq::<char>::empty()] + rows(
                ms,
                file,
                0,
            ));
        }
        let total = self.file_lines.len();
        let mut n: usize = 0;
        let mut prev_shown = false;
        while n < total
            invariant
                n <= total,
                total == self.file_lines@.len(),
                file == self.file_lines.deep_view(),
                ms == self.mismatches@,
                lines.deep_view() == seq![header(ms.len()), Seq::<char>::empty()] + rows(
                    ms,
                    file,
                    n as int,
                ),
                prev_shown == is_shown(ms, n as int, total as int),
                lines@.len() == 2 + rows(ms, file, n as int).len(),
            decreases total - n,
        {
            n += 1;
            let (shown, changed) = self.status(n);
            let ghost before_rows = rows(ms, file, n - 1);
            let ghost head2 = seq![header(ms.len()), Seq::<char>::empty()];
            if shown {
                if lines.len() > 2 && !prev_shown {
                    let ghost b = lines@;
                    let ghost bd = lines.deep_view();
                    let gap = String::from_str("    ...");
                    lines.push(gap);
                    proof {
                        lemma_deep_view_push(b, lines@, gap);
                        assert(bd == head2 + before_rows);
                        assert(lines.deep_view() == bd.push(gap@));
                        assert(gap@ == "    ..."@);
                        assert(bd.push(gap@) =~= head2 + before_rows.push("    ..."@));
                    }
                }
                let mut text = if changed {
                    String::from_str(">>> ")
                } else {
                    String::from_str("    ")
                };
                text.append(display_string(n as u128, self.file_lines[n - 1].as_str()).as_str());
                assert(text@ == row(ms, file, n as int));
                let ghost b = lines@;
                let ghost bd = lines.deep_view();
                lines.push(text);
                proof {
                    lemma_deep_view_push(b, lines@, text);
                    assert(lines.deep_view() == bd.push(text@));
                    let r = row(ms, file, n as int);
                    if before_rows.len() > 0 && !is_shown(ms, n - 1, total as int) {
                        assert(bd == head2 + before_rows.push("    ..."@));
                        assert(bd.push(r) =~= head2 + before_rows.push("    ..."@).push(r));
                    } else {
                        assert(bd == head2 + before_rows);
                        assert(bd.push(r) =~= head2 + before_rows.push(r));
                    }
                }
            }
            prev_shown = shown;
        }
        join_text(lines.as_slice(), '\n')
    }

    /// The stale anchor of a mismatch, as it was sent.
    fn stale_key(m: &HashMismatch) -> (r: String)
        ensures
            r@ == stale_anchor(*m),
    {
        let mut r = String::new();
        push_decimal(&mut r, m.line as u128);
        r.push(':');
        r.append(m.expected.as_str());
        assert(r@ =~= stale_anchor(*m));
        r
    }

    /// The mapping from each stale anchor, as it was sent, to the fresh
    /// anchor of the same line, as pairs: each stale anchor stands in it
    /// once, in the order in which the anchors first occur among the
    /// mismatches.
    pub fn remaps(&self) -> (r: Vec<(String, String)>)
        requires
            self.wf(),
        ensures
            pairs_view(r@) == remapped(self.mismatches@, self.file_lines.deep_view()),
    {
        let ghost ms = self.mismatches@;
        let ghost file = self.file_lines.deep_view();
        let n = self.mismatches.len();
        let mut keys: Vec<String> = Vec::new();
        let mut k: usize = 0;
        while k < n
            invariant
                k <= n == self.mismatches.len(),
                ms == self.mismatches@,
                keys@.len() == k,
                forall|j: int| 0 <= j < k ==> (#[trigger] keys@[j])@ == stale_anchor(ms[j]),
            decreases n - k,
        {
            keys.push(Self::stale_key(&self.mismatches[k]));
            k += 1;
        }
        let mut r: Vec<(String, String)> = Vec::new();
        let mut i: usize = 0;
        proof {
            assert(ms.take(0) =~= Seq::<HashMismatch>::empty());
            assert(pairs_view(r@) =~= remapped(ms.take(0), file));
        }
        while i < n
            invariant
                i <= n == self.mismatches.len(),
                self.wf(),
                ms == self.mismatches@,
                file == self.file_lines.deep_view(),
                keys@.len() == n,
                forall|j: int| 0 <= j < n ==> (#[trigger] keys@[j])@ == stale_anchor(ms[j]),
                pairs_view(r@) == remapped(ms.take(i as int), file),
            decreases n - i,
        {
            let mut seen = false;
            let mut j: usize = 0;
            while j < i
                invariant
                    j <= i < n,
                    keys@.len() == n,
                    forall|q: int| 0 <= q < n ==> (#[trigger] keys@[q])@ == stale_anchor(ms[q]),
                    seen == exists|q: int|
                        0 <= q < j && stale_anchor(#[trigger] ms[q]) == stale_anchor(ms[i as int]),
                decreases i - j,
            {
                if str_equal(keys[j].as_str(), keys[i].as_str()) {
                    assert(stale_anchor(ms[j as int]) == stale_anchor(ms[i as int]));
                    seen = true;
                }
                j += 1;
            }
            proof {
                let now = ms.take(i + 1);
                assert(now.drop_last() =~= ms.take(i as int));
                assert(now.last() == ms[i as int]);
                assert(seen == key_seen(now, i as int)) by {
                    if seen {
                        let q = choose|q: int|
                            0 <= q < i && stale_anchor(#[trigger] ms[q]) == stale_anchor(
                                ms[i as int],
                            );
                        assert(stale_anchor(now[q]) == stale_anchor(now[i as int]));
                    }
                    if key_seen(now, i as int) {
                        let q = choose|q: int|
                            0 <= q < i && stale_anchor(#[trigger] now[q]) == stale_anchor(
                                now[i as int],
                            );
                        assert(stale_anchor(ms[q]) == stale_anchor(ms[i as int]));
                    }
                }
            }
            if !seen {
                let m = &self.mismatches[i];
                assert(1 <= ms[i as int].line <= self.file_lines@.len());
                let fresh = anchor_string(m.line as u128, self.file_lines[m.line - 1].as_str());
                let key = keys[i].clone();
                let ghost before = r@;
                r.push((key, fresh));
                assert(pairs_view(r@) =~= pairs_view(before).push(remap_pair(ms[i as int], file)));
            }
            i += 1;
        }
        assert(ms.take(n as int) =~= ms);
        r
    }
}

} // verus!
