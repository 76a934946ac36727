//! The per-line transform: classify a line, strip its annotation field, and
//! keep count of what happened to every line of a run.

use crate::fields::{
    all_lack, join_fields, join_with_tabs, lacks, lemma_join_first, lemma_join_lacks,
    lemma_join_prefix, lemma_join_split, lemma_split_join, lemma_split_lacks, split_fields,
    split_on_tabs, views, TAB,
};
use vstd::prelude::*;
use vstd::slice::{slice_subrange, slice_to_vec};

verus! {

/// The line terminator.
pub const NEWLINE: u8 = 10;

/// The first byte of a header line.
pub const HASH: u8 = 35;

/// What the annotation field becomes.
pub const DOT: u8 = 46;

/// A data line needs at least this many fields to be rewritten.
pub const MIN_FIELDS: usize = 9;

/// Position of the annotation field among a data line's fields.
pub const ANNOTATION_FIELD: usize = 7;

/// What was done with one line.
#[derive(Clone, Copy, Debug, PartialEq, Eq, Structural)]
pub enum Disposition {
    /// A header line, emitted unchanged.
    Header,
    /// A data line whose annotation field was replaced.
    Rewritten,
    /// A data line with too few fields, emitted unchanged.
    Malformed,
}

/// A header line starts with `#`.
pub open spec fn is_header(line: Seq<u8>) -> bool {
    line.len() > 0 && line[0] == HASH
}

/// The line without its terminating newline, if it has one.
pub open spec fn content_of(line: Seq<u8>) -> Seq<u8> {
    if line.len() > 0 && line.last() == NEWLINE {
        line.drop_last()
    } else {
        line
    }
}

/// ASCII whitespace: space, tab, line feed, vertical tab, form feed and
/// carriage return.
pub open spec fn is_space(b: u8) -> bool {
    b == 32 || (9 <= b && b <= 13)
}

/// Empty, or whitespace only.
pub open spec fn is_blank(s: Seq<u8>) -> bool {
    forall|i: int| 0 <= i < s.len() ==> is_space(s[i])
}

/// The fields of a data line. A blank line counts as one degenerate field.
pub open spec fn fields_of(line: Seq<u8>) -> Seq<Seq<u8>> {
    if is_blank(content_of(line)) {
        seq![content_of(line)]
    } else {
        split_fields(content_of(line))
    }
}

/// A data line with enough fields to carry an annotation field.
pub open spec fn is_rewritable(line: Seq<u8>) -> bool {
    !is_header(line) && fields_of(line).len() >= MIN_FIELDS
}

pub open spec fn disposition_of(line: Seq<u8>) -> Disposition {
    if is_header(line) {
        Disposition::Header
    } else if is_rewritable(line) {
        Disposition::Rewritten
    } else {
        Disposition::Malformed
    }
}

/// The fields of a rewritable line with the annotation field set to `.`.
pub open spec fn stripped_fields(line: Seq<u8>) -> Seq<Seq<u8>> {
    fields_of(line).update(ANNOTATION_FIELD as int, seq![DOT])
}

/// What the transform emits for `line`.
pub open spec fn rewritten(line: Seq<u8>) -> Seq<u8> {
    if is_rewritable(line) {
        join_fields(stripped_fields(line)).push(NEWLINE)
    } else {
        line
    }
}

/// Whether `s` holds only whitespace.
pub fn blank(s: &[u8]) -> (r: bool)
    ensures
        r == is_blank(s@),
{
    let mut i: usize = 0;
    while i < s.len()
        invariant
            i <= s@.len(),
            forall|j: int| 0 <= j < i ==> is_space(s@[j]),
        decreases s@.len() - i,
    {
        let b = s[i];
        if !(b == 32 || (9 <= b && b <= 13)) {
            return false;
        }
        i = i + 1;
    }
    true
}

/// Rewrites one line: a header line and a data line with fewer than nine
/// fields come back unchanged; any other data line comes back with field
/// seven replaced by `.`, its fields rejoined with tabs and one newline
/// appended.
pub fn rewrite_line(line: &[u8]) -> (r: (Disposition, Vec<u8>))
    ensures
        r.0 == disposition_of(line@),
        r.1@ == rewritten(line@),
{
    let n = line.len();
    if n > 0 && line[0] == HASH {
        return (Disposition::Header, slice_to_vec(line));
    }
    let end: usize = if n > 0 && line[n - 1] == NEWLINE {
        n - 1
    } else {
        n
    };
    let content = slice_subrange(line, 0, end);
    assert(content@ =~= content_of(line@));
    if blank(content) {
        return (Disposition::Malformed, slice_to_vec(line));
    }
    let mut fields = split_on_tabs(content);
    if fields.len() < MIN_FIELDS {
        return (Disposition::Malformed, slice_to_vec(line));
    }
    let mut dot: Vec<u8> = Vec::new();
    dot.push(DOT);
    fields.set(ANNOTATION_FIELD, dot);
    assert(views(fields@) =~= stripped_fields(line@));
    let mut out = join_with_tabs(&fields);
    out.push(NEWLINE);
    (Disposition::Rewritten, out)
}

/// How many lines of `lines` have disposition `d`.
pub open spec fn count_of(lines: Seq<Seq<u8>>, d: Disposition) -> nat
    decreases lines.len(),
{
    if lines.len() == 0 {
        0
    } else {
        count_of(lines.drop_last(), d) + if disposition_of(lines.last()) == d {
            1nat
        } else {
            0nat
        }
    }
}

/// The one-based numbers of the malformed lines of `lines`, in order.
pub open spec fn malformed_numbers(lines: Seq<Seq<u8>>) -> Seq<u64>
    decreases lines.len(),
{
    if lines.len() == 0 {
        Seq::<u64>::empty()
    } else if disposition_of(lines.last()) == Disposition::Malformed {
        malformed_numbers(lines.drop_last()).push(lines.len() as u64)
    } else {
        malformed_numbers(lines.drop_last())
    }
}

/// Per-run tallies of what was done with each line.
#[derive(Clone, Copy, Debug, PartialEq, Eq, Structural)]
pub struct RunCounters {
    pub lines_read: u64,
    pub headers: u64,
    pub rewritten: u64,
    pub malformed: u64,
    pub writes: u64,
}

impl RunCounters {
    /// Every line read is counted once under its disposition, and is written
    /// once.
    pub open spec fn consistent(&self) -> bool {
        &&& self.lines_read == self.headers + self.rewritten + self.malformed
        &&& self.writes == self.lines_read
    }

    /// The counters are those of a run over `lines`.
    pub open spec fn tallies(&self, lines: Seq<Seq<u8>>) -> bool {
        &&& self.lines_read == lines.len()
        &&& self.headers == count_of(lines, Disposition::Header)
        &&& self.rewritten == count_of(lines, Disposition::Rewritten)
        &&& self.malformed == count_of(lines, Disposition::Malformed)
        &&& self.writes == lines.len()
    }

    /// All counters at zero.
    pub fn new() -> (r: RunCounters)
        ensures
            r.tallies(Seq::<Seq<u8>>::empty()),
            r.consistent(),
    {
        RunCounters { lines_read: 0, headers: 0, rewritten: 0, malformed: 0, writes: 0 }
    }

    /// Counts one more line, read and written, under disposition `d`.
    pub fn record(&mut self, d: Disposition)
        requires
            old(self).consistent(),
            old(self).lines_read < u64::MAX,
        ensures
            final(self).consistent(),
            final(self).lines_read == old(self).lines_read + 1,
            final(self).writes == old(self).writes + 1,
            final(self).headers == old(self).headers + if d == Disposition::Header {
                1int
            } else {
                0int
            },
            final(self).rewritten == old(self).rewritten + if d == Disposition::Rewritten {
                1int
            } else {
                0int
            },
            final(self).malformed == old(self).malformed + if d == Disposition::Malformed {
                1int
            } else {
                0int
            },
    {
        self.lines_read = self.lines_read + 1;
        self.writes = self.writes + 1;
        match d {
            Disposition::Header => self.headers = self.headers + 1,
            Disposition::Rewritten => self.rewritten = self.rewritten + 1,
            Disposition::Malformed => self.malformed = self.malformed + 1,
        }
    }
}

/// Counting one more line extends the tallies of a run by that line.
pub proof fn lemma_tallies_push(c: RunCounters, next: RunCounters, lines: Seq<Seq<u8>>, line: Seq<u8>)
    requires
        c.tallies(lines),
        next.lines_read == c.lines_read + 1,
        next.writes == c.writes + 1,
        next.headers == c.headers + if disposition_of(line) == Disposition::Header { 1int } else { 0int },
        next.rewritten == c.rewritten + if disposition_of(line) == Disposition::Rewritten { 1int } else { 0int },
        next.malformed == c.malformed + if disposition_of(line) == Disposition::Malformed { 1int } else { 0int },
    ensures
        next.tallies(lines.push(line)),
{
    assert(lines.push(line).drop_last() =~= lines);
}

/// A rewritten line is not blank, and its first byte is that of the line it
/// came from.
proof fn lemma_rewritten_shape(line: Seq<u8>)
    requires
        is_rewritable(line),
    ensures
        ({
            let c = join_fields(stripped_fields(line));
            &&& !is_blank(c)
            &&& c.len() >= 1
            &&& content_of(line).len() >= 1 ==> c[0] == content_of(line)[0]
        }),
{
    let fs = fields_of(line);
    let s = stripped_fields(line);
    let c = join_fields(s);
    let k = ANNOTATION_FIELD as int;
    lemma_join_prefix(s, k + 1);
    lemma_join_prefix(s.take(k + 1), k);
    assert(s.take(k + 1).skip(k) =~= seq![seq![DOT]]);
    assert(s.take(k + 1).take(k) =~= s.take(k));
    let pre = join_fields(s.take(k));
    assert(c[pre.len() as int + 1] == DOT);
    lemma_join_first(s);
    lemma_join_first(fs);
    lemma_join_split(content_of(line));
}

/// Rewriting a line a second time changes nothing, where the line holds no
/// newline but its terminator.
pub proof fn lemma_rewrite_idempotent(line: Seq<u8>)
    requires
        lacks(content_of(line), NEWLINE),
    ensures
        rewritten(rewritten(line)) == rewritten(line),
        lacks(content_of(rewritten(line)), NEWLINE),
        disposition_of(rewritten(line)) == disposition_of(line),
        is_rewritable(line) ==> {
            &&& !is_blank(content_of(rewritten(line)))
            &&& fields_of(rewritten(line)) == stripped_fields(line)
            &&& rewritten(line).last() == NEWLINE
        },
{
    if is_rewritable(line) {
        let fs = fields_of(line);
        let s = stripped_fields(line);
        let c = join_fields(s);
        let r = rewritten(line);
        lemma_rewritten_shape(line);
        assert(r.drop_last() =~= c);
        assert(content_of(r) == c);
        lemma_split_lacks(content_of(line), NEWLINE);
        assert(all_lack(s, TAB) && all_lack(s, NEWLINE)) by {
            assert forall|k: int| 0 <= k < s.len() implies lacks(#[trigger] s[k], TAB) && lacks(
                s[k],
                NEWLINE,
            ) by {
                if k != ANNOTATION_FIELD as int {
                    assert(s[k] == fs[k]);
                }
            }
        }
        lemma_join_lacks(s, NEWLINE);
        lemma_split_join(s);
        assert(fields_of(r) == s);
        assert(!is_header(r));
        assert(s.update(ANNOTATION_FIELD as int, seq![DOT]) =~= s);
    }
}

} // verus!
