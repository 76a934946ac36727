//! A whole run: decompress, rewrite every line in order, count, recompress.

use crate::codec::{bgzf_fast, decompress, gunzip_members, CodecError, LineSink};
use crate::lines::{lines_of, LineSource};
use crate::rewrite::{
    lemma_tallies_push, malformed_numbers, rewrite_line, rewritten, Disposition, RunCounters,
};
use vstd::prelude::*;

verus! {

broadcast use Seq::lemma_flatten_push;

/// The transformed text: every line of `text` rewritten, in order.
pub open spec fn transform(text: Seq<u8>) -> Seq<u8> {
    lines_of(text).map_values(|l: Seq<u8>| rewritten(l)).flatten()
}

/// What a run reports besides its output.
#[derive(Debug, PartialEq, Eq)]
pub struct RunReport {
    pub counters: RunCounters,
    /// One-based numbers of the lines that were passed through as malformed.
    pub malformed_lines: Vec<u64>,
}

impl RunReport {
    /// The report of a run over the lines `ls`.
    pub open spec fn describes(&self, ls: Seq<Seq<u8>>) -> bool {
        &&& self.counters.tallies(ls)
        &&& self.counters.consistent()
        &&& self.malformed_lines@ == malformed_numbers(ls)
    }
}

/// Rewrites every line that `source` has left into `sink`, in order.
pub fn run(source: &mut LineSource, sink: &mut LineSink) -> (r: RunReport)
    requires
        old(source).wf(),
    ensures
        final(source).wf(),
        final(source).rest().len() == 0,
        final(sink).written() == old(sink).written() + transform(old(source).rest()),
        r.describes(lines_of(old(source).rest())),
{
    let ghost all = lines_of(source.rest());
    let ghost c0 = source.consumed();
    let ghost w0 = sink.written();
    let ghost mut taken: Seq<Seq<u8>> = Seq::empty();
    let mut counters = RunCounters::new();
    let mut malformed: Vec<u64> = Vec::new();
    proof {
        source.lemma_bounded();
        assert(taken.map_values(|l: Seq<u8>| rewritten(l)).flatten() =~= Seq::<u8>::empty());
        assert(all =~= taken + lines_of(source.rest()));
    }
    loop
        invariant
            source.wf(),
            all == taken + lines_of(source.rest()),
            sink.written() == w0 + taken.map_values(|l: Seq<u8>| rewritten(l)).flatten(),
            counters.tallies(taken),
            counters.consistent(),
            malformed@ == malformed_numbers(taken),
            taken.len() + c0 <= source.consumed(),
            source.consumed() + source.rest().len() <= usize::MAX,
        ensures
            source.wf(),
            source.rest().len() == 0,
            all == taken,
            sink.written() == w0 + taken.map_values(|l: Seq<u8>| rewritten(l)).flatten(),
            counters.tallies(taken),
            counters.consistent(),
            malformed@ == malformed_numbers(taken),
        decreases source.rest().len(),
    {
        let ghost before = source.rest();
        match source.next_line() {
            None => {
                proof {
                    assert(lines_of(source.rest()) =~= Seq::<Seq<u8>>::empty());
                    assert(all =~= taken);
                }
                break;
            },
            Some(line) => {
                let (d, out) = rewrite_line(line.as_slice());
                sink.write_line(out.as_slice());
                let ghost prev = counters;
                counters.record(d);
                proof {
                    lemma_tallies_push(prev, counters, taken, line@);
                    let f = |l: Seq<u8>| rewritten(l);
                    assert(taken.push(line@).map_values(f) =~= taken.map_values(f).push(
                        rewritten(line@),
                    ));
                    assert(taken.push(line@).drop_last() =~= taken);
                    let lb = lines_of(before);
                    assert(all =~= taken.push(line@) + lines_of(source.rest())) by {
                        assert(lb =~= seq![lb[0]] + lb.drop_first());
                    }
                }
                if d == Disposition::Malformed {
                    malformed.push(counters.lines_read);
                }
                proof {
                    taken = taken.push(line@);
                }
            },
        }
    }
    RunReport { counters, malformed_lines: malformed }
}

/// Rewrites every line of an uncompressed text.
pub fn rewrite_text(text: Vec<u8>) -> (r: (Vec<u8>, RunReport))
    ensures
        r.0@ == transform(text@),
        r.1.describes(lines_of(text@)),
{
    let mut source = LineSource::new(text);
    let mut sink = LineSink::new();
    let report = run(&mut source, &mut sink);
    let out = sink.into_text();
    assert(out@ =~= transform(text@));
    (out, report)
}

/// Strips the annotation field from every data line of a gzip-compressed
/// text, and returns the result as a BGZF stream with the run's report.
/// Fails where the input does not decompress, and where the output does not
/// compress; nothing is returned in part.
pub fn remove_annotations(input: &[u8]) -> (r: Result<(Vec<u8>, RunReport), CodecError>)
    ensures
        match gunzip_members(input@) {
            None => r matches Err(CodecError::Decompress(_)),
            Some(text) => match bgzf_fast(transform(text)) {
                None => r matches Err(CodecError::Compress(_)),
                Some(out) => r matches Ok((o, report)) && o@ == out && report.describes(
                    lines_of(text),
                ),
            },
        },
{
    let text = match decompress(input) {
        Ok(t) => t,
        Err(e) => return Err(e),
    };
    let ghost t = text@;
    let mut source = LineSource::new(text);
    let mut sink = LineSink::new();
    let report = run(&mut source, &mut sink);
    assert(sink.written() =~= transform(t));
    match sink.finish() {
        Ok(out) => Ok((out, report)),
        Err(e) => Err(e),
    }
}

} // verus!
