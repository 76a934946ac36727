//! The compression codecs at both ends of a run: multi-member gzip on the
//! way in, BGZF on the way out.

use vstd::prelude::*;

verus! {

/// What decoding every gzip member of `data` gives: the decompressed bytes,
/// or `None` where the stream is corrupt or cut short.
pub uninterp spec fn gunzip_members(data: Seq<u8>) -> Option<Seq<u8>>;

/// What BGZF compression of `data` at the fast level gives: the blocks and
/// the end-of-file marker, or `None` where compressing failed.
pub uninterp spec fn bgzf_fast(data: Seq<u8>) -> Option<Seq<u8>>;

/// Relies on `flate2::read::MultiGzDecoder` read to the end: it decodes
/// every member of the stream in turn, and fails on a corrupt or truncated
/// stream; the outcome depends on the bytes alone.
#[verifier::external_body]
fn gunzip(data: &[u8]) -> (r: Result<Vec<u8>, String>)
    ensures
        match r {
            Ok(v) => gunzip_members(data@) == Some(v@),
            Err(_) => gunzip_members(data@) is None,
        },
{
    let mut decoder = flate2::read::MultiGzDecoder::new(data);
    let mut out: Vec<u8> = Vec::new();
    match std::io::Read::read_to_end(&mut decoder, &mut out) {
        Ok(_) => Ok(out),
        Err(e) => Err(e.to_string()),
    }
}

/// Relies on `bgzip::BGZFWriter` with `Compression::fast()` over an
/// in-memory buffer: it writes `data` as BGZF blocks, and `close` appends the
/// end-of-file marker; the outcome depends on the bytes alone.
#[verifier::external_body]
fn bgzf_compress(data: &[u8]) -> (r: Result<Vec<u8>, String>)
    ensures
        match r {
            Ok(v) => bgzf_fast(data@) == Some(v@),
            Err(_) => bgzf_fast(data@) is None,
        },
{
    let mut out: Vec<u8> = Vec::new();
    let mut writer = bgzip::BGZFWriter::new(&mut out, bgzip::Compression::fast());
    let written = std::io::Write::write_all(&mut writer, data);
    let closed = writer.close();
    match (written, closed) {
        (Ok(()), Ok(_)) => Ok(out),
        (Err(e), _) | (_, Err(e)) => Err(e.to_string()),
    }
}

/// Why a run failed.
#[derive(Debug, PartialEq, Eq)]
pub enum CodecError {
    /// The input is not a valid gzip stream; holds the decoder's message.
    Decompress(String),
    /// The output could not be compressed; holds the encoder's message.
    Compress(String),
}

/// Decompresses every member of a gzip stream.
pub fn decompress(data: &[u8]) -> (r: Result<Vec<u8>, CodecError>)
    ensures
        match r {
            Ok(v) => gunzip_members(data@) == Some(v@),
            Err(e) => gunzip_members(data@) is None && e is Decompress,
        },
{
    match gunzip(data) {
        Ok(v) => Ok(v),
        Err(msg) => Err(CodecError::Decompress(msg)),
    }
}

/// Collects the emitted lines of a run, in order, and compresses them as
/// one BGZF stream when the run is done.
pub struct LineSink {
    buffer: Vec<u8>,
}

impl LineSink {
    /// Every byte emitted so far.
    pub closed spec fn written(&self) -> Seq<u8> {
        self.buffer@
    }

    /// A sink that holds nothing yet.
    pub fn new() -> (r: LineSink)
        ensures
            r.written() == Seq::<u8>::empty(),
    {
        LineSink { buffer: Vec::new() }
    }

    /// Emits `line` after everything emitted before.
    pub fn write_line(&mut self, line: &[u8])
        ensures
            final(self).written() == old(self).written() + line@,
    {
        let ghost before = self.buffer@;
        let mut i: usize = 0;
        while i < line.len()
            invariant
                i <= line@.len(),
                self.buffer@ == before + line@.take(i as int),
            decreases line@.len() - i,
        {
            self.buffer.push(line[i]);
            assert(line@.take(i as int + 1) =~= line@.take(i as int).push(line@[i as int]));
            i = i + 1;
        }
        assert(line@.take(i as int) =~= line@);
    }

    /// The emitted bytes, uncompressed.
    pub fn into_text(self) -> (r: Vec<u8>)
        ensures
            r@ == self.written(),
    {
        self.buffer
    }

    /// The emitted bytes as a finished BGZF stream, end-of-file marker
    /// included.
    pub fn finish(self) -> (r: Result<Vec<u8>, CodecError>)
        ensures
            match r {
                Ok(v) => bgzf_fast(self.written()) == Some(v@),
                Err(e) => bgzf_fast(self.written()) is None && e is Compress,
            },
    {
        match bgzf_compress(self.buffer.as_slice()) {
            Ok(v) => Ok(v),
            Err(msg) => Err(CodecError::Compress(msg)),
        }
    }
}

} // verus!
