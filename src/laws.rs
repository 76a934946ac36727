//! What holds of every run of the transform.

use crate::fields::split_fields;
use crate::lines::{is_line, lemma_lines_of_flatten, lemma_lines_of_well_cut, lines_of, well_cut};
use crate::pipeline::transform;
use crate::rewrite::{
    content_of, count_of, fields_of, is_blank, is_header, is_rewritable, lemma_rewrite_idempotent,
    rewritten, stripped_fields, Disposition, ANNOTATION_FIELD, DOT, MIN_FIELDS, NEWLINE,
};
use vstd::prelude::*;

verus! {

/// The lines of the output are the lines of the input, each rewritten, in
/// the same order.
pub proof fn lemma_output_lines(text: Seq<u8>)
    ensures
        lines_of(transform(text)) == lines_of(text).map_values(|l: Seq<u8>| rewritten(l)),
{
    let ls = lines_of(text);
    let out = ls.map_values(|l: Seq<u8>| rewritten(l));
    lemma_lines_of_well_cut(text);
    assert forall|i: int| 0 <= i < out.len() implies is_line(#[trigger] out[i]) by {
        assert(is_line(ls[i]));
        lemma_rewrite_idempotent(ls[i]);
    }
    assert forall|i: int| 0 <= i < out.len() - 1 implies (#[trigger] out[i]).last() == NEWLINE by {
        assert(ls[i].last() == NEWLINE);
    }
    assert(well_cut(out));
    lemma_lines_of_flatten(out);
}

/// The output has exactly as many lines as the input.
pub proof fn lemma_line_count_preserved(text: Seq<u8>)
    ensures
        lines_of(transform(text)).len() == lines_of(text).len(),
{
    lemma_output_lines(text);
}

/// A header line comes out unchanged, at the same position.
pub proof fn lemma_header_unchanged(text: Seq<u8>, i: int)
    requires
        0 <= i < lines_of(text).len(),
        is_header(lines_of(text)[i]),
    ensures
        lines_of(transform(text))[i] == lines_of(text)[i],
{
    lemma_output_lines(text);
}

/// A data line with at least nine tab-separated fields, not all whitespace,
/// comes out with field seven equal to `.`, every other field unchanged and
/// in place, and a terminating newline.
pub proof fn lemma_annotation_stripped(text: Seq<u8>, i: int)
    requires
        0 <= i < lines_of(text).len(),
        !is_header(lines_of(text)[i]),
        !is_blank(content_of(lines_of(text)[i])),
        split_fields(content_of(lines_of(text)[i])).len() >= MIN_FIELDS,
    ensures
        ({
            let before = split_fields(content_of(lines_of(text)[i]));
            let after = split_fields(content_of(lines_of(transform(text))[i]));
            &&& after.len() == before.len()
            &&& after[ANNOTATION_FIELD as int] == seq![DOT]
            &&& forall|k: int| 0 <= k < before.len() && k != ANNOTATION_FIELD ==> after[k] == before[k]
            &&& lines_of(transform(text))[i].last() == NEWLINE
        }),
{
    let line = lines_of(text)[i];
    lemma_output_lines(text);
    lemma_lines_of_well_cut(text);
    assert(is_line(line));
    lemma_rewrite_idempotent(line);
    let r = rewritten(line);
    assert(is_rewritable(line));
    assert(fields_of(r) == stripped_fields(line));
}

/// A data line with fewer than nine fields comes out unchanged, and counts
/// as exactly one more malformed line.
pub proof fn lemma_malformed_unchanged(text: Seq<u8>, i: int)
    requires
        0 <= i < lines_of(text).len(),
        !is_header(lines_of(text)[i]),
        split_fields(content_of(lines_of(text)[i])).len() < MIN_FIELDS,
    ensures
        lines_of(transform(text))[i] == lines_of(text)[i],
        count_of(lines_of(text).take(i + 1), Disposition::Malformed) == count_of(
            lines_of(text).take(i),
            Disposition::Malformed,
        ) + 1,
{
    lemma_output_lines(text);
    assert(lines_of(text).take(i + 1).drop_last() =~= lines_of(text).take(i));
}

/// Running the transform over its own output changes nothing.
pub proof fn lemma_transform_idempotent(text: Seq<u8>)
    ensures
        transform(transform(text)) == transform(text),
{
    let ls = lines_of(text);
    let f = |l: Seq<u8>| rewritten(l);
    lemma_output_lines(text);
    lemma_lines_of_well_cut(text);
    assert forall|i: int| 0 <= i < ls.len() implies #[trigger] f(f(ls[i])) == f(ls[i]) by {
        assert(is_line(ls[i]));
        lemma_rewrite_idempotent(ls[i]);
    }
    assert(ls.map_values(f).map_values(f) =~= ls.map_values(f));
}

} // verus!
