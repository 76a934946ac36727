//! Cutting decompressed text into lines, and a source that hands them out
//! one at a time.

use crate::fields::lacks;
use crate::rewrite::{content_of, NEWLINE};
use vstd::prelude::*;

verus! {

/// Length of the first line of `t`: up to and including the first newline,
/// or all of `t` where it has none.
pub open spec fn first_line_len(t: Seq<u8>) -> int
    decreases t.len(),
{
    if t.len() == 0 {
        0
    } else if t[0] == NEWLINE {
        1
    } else {
        1 + first_line_len(t.skip(1))
    }
}

/// The lines of `t`, in order. Each keeps its newline; a last line without
/// one is still a line; empty text has no lines.
pub open spec fn lines_of(t: Seq<u8>) -> Seq<Seq<u8>>
    decreases t.len(),
{
    if t.len() == 0 {
        Seq::<Seq<u8>>::empty()
    } else {
        let k = first_line_len(t);
        let k = if 1 <= k && k <= t.len() {
            k
        } else {
            t.len() as int
        };
        seq![t.take(k)] + lines_of(t.skip(k))
    }
}

/// A line: not empty, with no newline but possibly a terminating one.
pub open spec fn is_line(l: Seq<u8>) -> bool {
    l.len() > 0 && lacks(content_of(l), NEWLINE)
}

/// Lines that, concatenated, cut back into themselves: each is a line and
/// all but the last end with a newline.
pub open spec fn well_cut(ls: Seq<Seq<u8>>) -> bool {
    &&& forall|i: int| 0 <= i < ls.len() ==> is_line(#[trigger] ls[i])
    &&& forall|i: int| 0 <= i < ls.len() - 1 ==> (#[trigger] ls[i]).last() == NEWLINE
}

/// Where the first newline of `t` stands, or that it has none.
pub proof fn lemma_first_line_len(t: Seq<u8>, m: int)
    requires
        0 <= m <= t.len(),
        forall|i: int| 0 <= i < m ==> t[i] != NEWLINE,
        m == t.len() || t[m] == NEWLINE,
    ensures
        first_line_len(t) == if m < t.len() {
            m + 1
        } else {
            m
        },
    decreases m,
{
    if m > 0 {
        lemma_first_line_len(t.skip(1), m - 1);
    }
}

/// The first line ends at the first newline, or at the end of the text.
pub proof fn lemma_first_line_bounds(t: Seq<u8>)
    requires
        t.len() > 0,
    ensures
        1 <= first_line_len(t) <= t.len(),
        forall|i: int| 0 <= i < first_line_len(t) - 1 ==> t[i] != NEWLINE,
        first_line_len(t) == t.len() || t[first_line_len(t) - 1] == NEWLINE,
    decreases t.len(),
{
    if t[0] != NEWLINE && t.len() > 1 {
        let u = t.skip(1);
        lemma_first_line_bounds(u);
        assert(first_line_len(t) == 1 + first_line_len(u));
        assert forall|i: int| 0 <= i < first_line_len(t) - 1 implies t[i] != NEWLINE by {
            if i > 0 {
                assert(t[i] == u[i - 1]);
                assert(0 <= i - 1 < first_line_len(u) - 1);
            }
        }
        if first_line_len(t) < t.len() {
            assert(t[first_line_len(t) - 1] == u[first_line_len(u) - 1]);
        }
    } else if t[0] != NEWLINE {
        assert(t.skip(1).len() == 0);
        assert(first_line_len(t.skip(1)) == 0);
    }
}

/// The lines of a line followed by more text: that line, then the lines of
/// the rest.
pub proof fn lemma_lines_of_prefixed(x: Seq<u8>, rest: Seq<u8>)
    requires
        is_line(x),
        x.last() == NEWLINE || rest.len() == 0,
    ensures
        lines_of(x + rest) == seq![x] + lines_of(rest),
{
    let t = x + rest;
    let c = content_of(x);
    let m = c.len() as int;
    assert forall|i: int| 0 <= i < m implies t[i] != NEWLINE by {
        assert(t[i] == c[i]);
    }
    lemma_first_line_len(t, m);
    assert(t.take(x.len() as int) =~= x);
    assert(t.skip(x.len() as int) =~= rest);
}

/// Cutting the concatenation of well-cut lines gives those lines back.
pub proof fn lemma_lines_of_flatten(ls: Seq<Seq<u8>>)
    requires
        well_cut(ls),
    ensures
        lines_of(ls.flatten()) == ls,
    decreases ls.len(),
{
    if ls.len() > 0 {
        let tail = ls.drop_first();
        assert(well_cut(tail)) by {
            assert forall|i: int| 0 <= i < tail.len() implies is_line(#[trigger] tail[i]) by {
                assert(tail[i] == ls[i + 1]);
            }
            assert forall|i: int| 0 <= i < tail.len() - 1 implies (#[trigger] tail[i]).last()
                == NEWLINE by {
                assert(tail[i] == ls[i + 1]);
            }
        }
        lemma_lines_of_flatten(tail);
        assert(is_line(ls[0]));
        if ls.len() == 1 {
            assert(tail.flatten() =~= Seq::<u8>::empty());
        }
        lemma_lines_of_prefixed(ls[0], tail.flatten());
        assert(seq![ls[0]] + tail =~= ls);
    }
}

/// The lines of any text are well cut, and concatenate back to it.
pub proof fn lemma_lines_of_well_cut(t: Seq<u8>)
    ensures
        well_cut(lines_of(t)),
        lines_of(t).flatten() == t,
    decreases t.len(),
{
    if t.len() > 0 {
        let k0 = first_line_len(t);
        let k = if 1 <= k0 && k0 <= t.len() {
            k0
        } else {
            t.len() as int
        };
        let first = t.take(k);
        let rest = t.skip(k);
        lemma_lines_of_well_cut(rest);
        lemma_first_line_bounds(t);
        let ls = lines_of(t);
        let tl = lines_of(rest);
        assert(ls == seq![first] + tl);
        assert(is_line(first)) by {
            let c = content_of(first);
            assert forall|i: int| 0 <= i < c.len() implies c[i] != NEWLINE by {
                assert(c[i] == t[i]);
            }
        }
        assert(rest.len() > 0 ==> first.last() == NEWLINE);
        assert forall|i: int| 0 <= i < ls.len() implies is_line(#[trigger] ls[i]) by {
            if i > 0 {
                assert(ls[i] == tl[i - 1]);
            }
        }
        assert forall|i: int| 0 <= i < ls.len() - 1 implies (#[trigger] ls[i]).last() == NEWLINE by {
            if i > 0 {
                assert(ls[i] == tl[i - 1]);
            }
        }
        assert(ls.drop_first() =~= tl);
        assert(first + rest =~= t);
    }
}

/// Hands out the lines of a decompressed text in order.
pub struct LineSource {
    text: Vec<u8>,
    pos: usize,
}

impl LineSource {
    /// The text not handed out yet.
    pub closed spec fn rest(&self) -> Seq<u8> {
        self.text@.skip(self.pos as int)
    }

    /// How many bytes have been handed out.
    pub closed spec fn consumed(&self) -> nat {
        self.pos as nat
    }

    pub closed spec fn wf(&self) -> bool {
        self.pos <= self.text@.len() <= usize::MAX
    }

    /// What was handed out and what is left add up to a length that fits in
    /// memory.
    pub proof fn lemma_bounded(&self)
        requires
            self.wf(),
        ensures
            self.consumed() + self.rest().len() <= usize::MAX,
    {
    }

    /// A source over all of `text`.
    pub fn new(text: Vec<u8>) -> (r: LineSource)
        ensures
            r.wf(),
            r.rest() == text@,
            r.consumed() == 0,
    {
        let n: usize = text.len();
        assert(n == text@.len());
        let r = LineSource { text, pos: 0 };
        assert(r.text@.skip(0) =~= r.text@);
        r
    }

    /// The next line, with its newline if it has one; `None` once the text
    /// is used up.
    pub fn next_line(&mut self) -> (r: Option<Vec<u8>>)
        requires
            old(self).wf(),
        ensures
            final(self).wf(),
            match r {
                None => old(self).rest().len() == 0 && final(self).rest() == old(self).rest(),
                Some(l) => {
                    &&& lines_of(old(self).rest()).len() > 0
                    &&& l@ == lines_of(old(self).rest())[0]
                    &&& lines_of(final(self).rest()) == lines_of(old(self).rest()).drop_first()
                    &&& old(self).rest() == l@ + final(self).rest()
                    &&& final(self).consumed() == old(self).consumed() + l@.len()
                },
            },
            old(self).consumed() + old(self).rest().len() == final(self).consumed()
                + final(self).rest().len(),
    {
        let n = self.text.len();
        let start = self.pos;
        if start >= n {
            return None;
        }
        let mut j: usize = start;
        while j < n && self.text[j] != NEWLINE
            invariant
                start <= j <= n,
                n == self.text@.len(),
                forall|i: int| start <= i < j ==> self.text@[i] != NEWLINE,
            decreases n - j,
        {
            j = j + 1;
        }
        let end: usize = if j < n {
            j + 1
        } else {
            j
        };
        let mut line: Vec<u8> = Vec::new();
        let mut i: usize = start;
        while i < end
            invariant
                start <= i <= end <= n,
                n == self.text@.len(),
                line@ == self.text@.subrange(start as int, i as int),
            decreases end - i,
        {
            line.push(self.text[i]);
            assert(self.text@.subrange(start as int, i as int + 1) =~= self.text@.subrange(
                start as int,
                i as int,
            ).push(self.text@[i as int]));
            i = i + 1;
        }
        proof {
            let rest = self.text@.skip(start as int);
            let m = j - start;
            assert forall|i: int| 0 <= i < m implies rest[i] != NEWLINE by {
                assert(rest[i] == self.text@[start + i]);
            }
            if j < n {
                assert(rest[m as int] == self.text@[j as int]);
            }
            lemma_first_line_len(rest, m as int);
            assert(rest.take(end - start) =~= line@);
            assert(rest.skip(end - start) =~= self.text@.skip(end as int));
            assert(rest =~= line@ + self.text@.skip(end as int));
        }
        self.pos = end;
        Some(line)
    }
}

} // verus!
