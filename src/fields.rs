//! Splitting a line's content on tabs, and joining fields back together.

use vstd::prelude::*;

verus! {

/// The field separator.
pub const TAB: u8 = 9;

/// Appends one byte to the last field of a non-empty field sequence.
pub open spec fn extend_last(fs: Seq<Seq<u8>>, b: u8) -> Seq<Seq<u8>> {
    fs.update(fs.len() - 1, fs.last().push(b))
}

/// The fields of `s`: the maximal runs of bytes between tab characters.
/// There is always at least one field, and `k` tabs make `k + 1` fields.
pub open spec fn split_fields(s: Seq<u8>) -> Seq<Seq<u8>>
    decreases s.len(),
{
    if s.len() == 0 {
        seq![Seq::<u8>::empty()]
    } else {
        let prev = split_fields(s.drop_last());
        if s.last() == TAB {
            prev.push(Seq::<u8>::empty())
        } else {
            extend_last(prev, s.last())
        }
    }
}

/// The fields of `fs` with one tab between neighbours.
pub open spec fn join_fields(fs: Seq<Seq<u8>>) -> Seq<u8>
    decreases fs.len(),
{
    if fs.len() == 0 {
        Seq::<u8>::empty()
    } else if fs.len() == 1 {
        fs[0]
    } else {
        join_fields(fs.drop_last()) + seq![TAB] + fs.last()
    }
}

/// The contents of a sequence of byte vectors.
pub open spec fn views(v: Seq<Vec<u8>>) -> Seq<Seq<u8>> {
    v.map_values(|f: Vec<u8>| f@)
}

/// No byte of `s` is a tab.
pub open spec fn tab_free(s: Seq<u8>) -> bool {
    forall|i: int| 0 <= i < s.len() ==> s[i] != TAB
}

/// Every byte of `s` differs from `b`.
pub open spec fn lacks(s: Seq<u8>, b: u8) -> bool {
    forall|i: int| 0 <= i < s.len() ==> s[i] != b
}

/// Every field of `fs` lacks the byte `b`.
pub open spec fn all_lack(fs: Seq<Seq<u8>>, b: u8) -> bool {
    forall|k: int| 0 <= k < fs.len() ==> lacks(#[trigger] fs[k], b)
}

pub proof fn lemma_split_nonempty(s: Seq<u8>)
    ensures
        split_fields(s).len() >= 1,
    decreases s.len(),
{
    if s.len() > 0 {
        lemma_split_nonempty(s.drop_last());
    }
}

/// The fields hold no tab, and no byte that `s` lacks.
pub proof fn lemma_split_lacks(s: Seq<u8>, b: u8)
    requires
        lacks(s, b),
    ensures
        all_lack(split_fields(s), TAB),
        all_lack(split_fields(s), b),
    decreases s.len(),
{
    if s.len() > 0 {
        let p = s.drop_last();
        assert(lacks(p, b));
        lemma_split_lacks(p, b);
        lemma_split_nonempty(p);
        let fs = split_fields(s);
        assert forall|k: int| 0 <= k < fs.len() implies lacks(#[trigger] fs[k], TAB) && lacks(
            fs[k],
            b,
        ) by {
            let prev = split_fields(p);
            if k < prev.len() {
                assert(lacks(prev[k], TAB) && lacks(prev[k], b));
            }
            if s.last() != TAB && k == prev.len() - 1 {
                assert(s.last() == s[s.len() - 1]);
            }
        }
    }
}

/// Splitting a tab-free sequence gives it back as the only field.
pub proof fn lemma_split_tab_free(s: Seq<u8>)
    requires
        tab_free(s),
    ensures
        split_fields(s) == seq![s],
    decreases s.len(),
{
    if s.len() > 0 {
        let p = s.drop_last();
        assert(tab_free(p)) by {
            assert forall|i: int| 0 <= i < p.len() implies p[i] != TAB by {
                assert(p[i] == s[i]);
            }
        }
        lemma_split_tab_free(p);
        assert(s.last() == s[s.len() - 1]);
        assert(p.push(s.last()) =~= s);
        assert(extend_last(seq![p], s.last()) =~= seq![s]);
    } else {
        assert(s =~= Seq::<u8>::empty());
    }
}

/// A tab splits a sequence into the fields before it and those after it.
pub proof fn lemma_split_at_tab(a: Seq<u8>, b: Seq<u8>)
    ensures
        split_fields(a + seq![TAB] + b) == split_fields(a) + split_fields(b),
    decreases b.len(),
{
    let s = a + seq![TAB] + b;
    if b.len() == 0 {
        assert(s.drop_last() =~= a);
        assert(split_fields(b) =~= seq![Seq::<u8>::empty()]);
        assert(split_fields(a).push(Seq::<u8>::empty()) =~= split_fields(a) + split_fields(b));
    } else {
        let bp = b.drop_last();
        lemma_split_at_tab(a, bp);
        assert(s.drop_last() =~= a + seq![TAB] + bp);
        assert(s.last() == b.last());
        lemma_split_nonempty(a);
        lemma_split_nonempty(bp);
        let x = split_fields(a);
        let y = split_fields(bp);
        if b.last() == TAB {
            assert((x + y).push(Seq::<u8>::empty()) =~= x + y.push(Seq::<u8>::empty()));
        } else {
            assert(extend_last(x + y, b.last()) =~= x + extend_last(y, b.last()));
        }
    }
}

/// Joining tab-free fields and splitting the result gives the fields back.
pub proof fn lemma_split_join(fs: Seq<Seq<u8>>)
    requires
        fs.len() >= 1,
        all_lack(fs, TAB),
    ensures
        split_fields(join_fields(fs)) == fs,
    decreases fs.len(),
{
    if fs.len() == 1 {
        assert(lacks(fs[0], TAB));
        lemma_split_tab_free(fs[0]);
        assert(seq![fs[0]] =~= fs);
    } else {
        let p = fs.drop_last();
        assert(all_lack(p, TAB)) by {
            assert forall|k: int| 0 <= k < p.len() implies lacks(#[trigger] p[k], TAB) by {
                assert(p[k] == fs[k]);
            }
        }
        lemma_split_join(p);
        assert(lacks(fs[fs.len() - 1], TAB));
        lemma_split_tab_free(fs.last());
        lemma_split_at_tab(join_fields(p), fs.last());
        assert(p + seq![fs.last()] =~= fs);
    }
}

/// Splitting and joining again gives the sequence back.
pub proof fn lemma_join_split(s: Seq<u8>)
    ensures
        join_fields(split_fields(s)) == s,
    decreases s.len(),
{
    if s.len() > 0 {
        let p = s.drop_last();
        lemma_join_split(p);
        lemma_split_nonempty(p);
        let prev = split_fields(p);
        if s.last() == TAB {
            assert(prev.push(Seq::<u8>::empty()).drop_last() =~= prev);
            assert(p + seq![TAB] + Seq::<u8>::empty() =~= s);
        } else {
            lemma_join_extend_last(prev, s.last());
            assert(p.push(s.last()) =~= s);
        }
    }
}

/// Appending a byte to the last field appends it to the joined sequence.
pub proof fn lemma_join_extend_last(fs: Seq<Seq<u8>>, b: u8)
    requires
        fs.len() >= 1,
    ensures
        join_fields(extend_last(fs, b)) == join_fields(fs).push(b),
{
    let e = extend_last(fs, b);
    if fs.len() == 1 {
        assert(e[0] == fs[0].push(b));
    } else {
        assert(e.drop_last() =~= fs.drop_last());
        assert(e.last() == fs.last().push(b));
        assert(join_fields(fs.drop_last()) + seq![TAB] + fs.last().push(b) =~= (join_fields(
            fs.drop_last(),
        ) + seq![TAB] + fs.last()).push(b));
    }
}

/// The joined sequence lacks a byte that every field lacks, as long as that
/// byte is not the tab.
pub proof fn lemma_join_lacks(fs: Seq<Seq<u8>>, b: u8)
    requires
        all_lack(fs, b),
        b != TAB,
    ensures
        lacks(join_fields(fs), b),
    decreases fs.len(),
{
    if fs.len() == 1 {
        assert(lacks(fs[0], b));
    } else if fs.len() > 1 {
        let p = fs.drop_last();
        assert(all_lack(p, b)) by {
            assert forall|k: int| 0 <= k < p.len() implies lacks(#[trigger] p[k], b) by {
                assert(p[k] == fs[k]);
            }
        }
        lemma_join_lacks(p, b);
        assert(lacks(fs[fs.len() - 1], b));
        let j = join_fields(fs);
        let jp = join_fields(p);
        assert forall|i: int| 0 <= i < j.len() implies j[i] != b by {
            if i < jp.len() {
                assert(j[i] == jp[i]);
            } else if i > jp.len() {
                assert(j[i] == fs.last()[i - jp.len() - 1]);
            }
        }
    }
}

/// The join of the first `k` fields, a tab, then the join of the rest.
pub proof fn lemma_join_prefix(fs: Seq<Seq<u8>>, k: int)
    requires
        1 <= k < fs.len(),
    ensures
        join_fields(fs) == join_fields(fs.take(k)) + seq![TAB] + join_fields(fs.skip(k)),
    decreases fs.len(),
{
    let p = fs.drop_last();
    if k == fs.len() - 1 {
        assert(p =~= fs.take(k));
        assert(fs.skip(k) =~= seq![fs.last()]);
    } else {
        lemma_join_prefix(p, k);
        assert(p.take(k) =~= fs.take(k));
        assert(fs.skip(k).drop_last() =~= p.skip(k));
        assert(fs.skip(k).last() == fs.last());
    }
}

/// The first byte of joined fields comes from the first field, or is the
/// first tab where that field is empty.
pub proof fn lemma_join_first(fs: Seq<Seq<u8>>)
    requires
        fs.len() >= 2,
    ensures
        join_fields(fs).len() >= 1,
        join_fields(fs)[0] == (if fs[0].len() > 0 { fs[0][0] } else { TAB }),
{
    lemma_join_prefix(fs, 1);
    assert(fs.take(1) =~= seq![fs[0]]);
}

/// Splits `line` on tab characters in one left-to-right scan.
pub fn split_on_tabs(line: &[u8]) -> (r: Vec<Vec<u8>>)
    ensures
        views(r@) == split_fields(line@),
{
    let mut fields: Vec<Vec<u8>> = Vec::new();
    let mut current: Vec<u8> = Vec::new();
    let mut i: usize = 0;
    while i < line.len()
        invariant
            i <= line@.len(),
            views(fields@).push(current@) == split_fields(line@.take(i as int)),
        decreases line@.len() - i,
    {
        let b = line[i];
        proof {
            assert(line@.take(i as int + 1).drop_last() =~= line@.take(i as int));
            assert(line@.take(i as int + 1).last() == b);
        }
        if b == TAB {
            fields.push(current);
            current = Vec::new();
            assert(views(fields@) =~= split_fields(line@.take(i as int)));
        } else {
            current.push(b);
            assert(views(fields@).push(current@) =~= extend_last(
                split_fields(line@.take(i as int)),
                b,
            ));
        }
        i = i + 1;
    }
    fields.push(current);
    assert(line@.take(i as int) =~= line@);
    fields
}

/// Joins `fields` with one tab between neighbours.
pub fn join_with_tabs(fields: &Vec<Vec<u8>>) -> (r: Vec<u8>)
    ensures
        r@ == join_fields(views(fields@)),
{
    let mut out: Vec<u8> = Vec::new();
    let mut k: usize = 0;
    while k < fields.len()
        invariant
            k <= fields@.len(),
            out@ == join_fields(views(fields@).take(k as int)),
        decreases fields@.len() - k,
    {
        let field = &fields[k];
        if k > 0 {
            out.push(TAB);
        }
        let ghost before = out@;
        let mut j: usize = 0;
        while j < field.len()
            invariant
                j <= field@.len(),
                out@ == before + field@.take(j as int),
            decreases field@.len() - j,
        {
            out.push(field[j]);
            assert(field@.take(j as int + 1) =~= field@.take(j as int).push(field@[j as int]));
            j = j + 1;
        }
        proof {
            let dv = views(fields@);
            assert(field@.take(j as int) =~= field@);
            assert(dv[k as int] == field@);
            let t = dv.take(k as int + 1);
            if k > 0 {
                assert(t.drop_last() =~= dv.take(k as int));
            } else {
                assert(t.len() == 1);
                assert(before =~= Seq::<u8>::empty());
            }
            assert(out@ =~= join_fields(t));
        }
        k = k + 1;
    }
    assert(views(fields@).take(k as int) =~= views(fields@));
    out
}

} // verus!
