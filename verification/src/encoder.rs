//! The bzip2 encoders that a patch is written through.

use bzip2::write::BzEncoder;
use std::io::Write;
use vstd::prelude::*;

verus! {

/// Compression level of the bzip2 compressor.
#[derive(Clone, Copy, PartialEq, Eq, Structural, Debug)]
pub enum Compression {
    /// Optimize for the best speed of encoding.
    Fastest,
    /// Optimize for the size of data being encoded.
    Best,
    /// Choose the default compression, a balance between speed and size.
    Default,
}

/// `std::io::Error`, what an encoder fails with.
#[verifier::external_type_specification]
#[verifier::external_body]
pub struct ExIoError(std::io::Error);

/// Why a patch could not be constructed.
#[derive(Debug)]
pub struct PackError {
    /// What the encoder failed with.
    pub cause: std::io::Error,
}

/// A `bzip2::write::BzEncoder` that collects what it writes in a vector.
#[verifier::external_body]
pub struct Encoder {
    inner: BzEncoder<Vec<u8>>,
}

/// All bytes that were written to an encoder so far.
pub uninterp spec fn encoder_input(e: Encoder) -> Seq<u8>;

/// The compression level that an encoder was made with.
pub uninterp spec fn encoder_level(e: Encoder) -> Compression;

/// The bzip2 stream that `BzEncoder` writes for `data` at a compression level.
pub uninterp spec fn bzip2_stream(data: Seq<u8>, level: Compression) -> Seq<u8>;

/// `stream` is a bzip2 stream of `data`, at some compression level.
pub open spec fn encodes(stream: Seq<u8>, data: Seq<u8>) -> bool {
    exists|level: Compression| #[trigger] bzip2_stream(data, level) == stream
}

/// `stream` is a bzip2 stream of `data` and of no other data.
pub open spec fn encodes_only(stream: Seq<u8>, data: Seq<u8>) -> bool {
    forall|other: Seq<u8>| #[trigger] encodes(stream, other) <==> other == data
}

/// Calls `BzEncoder::new`: an encoder to which nothing was written yet.
#[verifier::external_body]
fn new_encoder(level: Compression) -> (e: Encoder)
    ensures
        encoder_input(e) == Seq::<u8>::empty(),
        encoder_level(e) == level,
{
    let lv = match level {
        Compression::Fastest => bzip2::Compression::Fastest,
        Compression::Best => bzip2::Compression::Best,
        Compression::Default => bzip2::Compression::Default,
    };
    Encoder { inner: BzEncoder::new(Vec::new(), lv) }
}

/// Calls `write_all` on the `BzEncoder`, which hands all of `data` to the compressor. The
/// compressor counts its input in 32 bits, and the call panics on a slice that is too long for
/// that. The only errors are those of the writer behind the encoder, and a vector takes
/// whatever is written to it.
#[verifier::external_body]
fn write_all(e: &mut Encoder, data: &[u8]) -> (r: Result<(), std::io::Error>)
    requires
        data@.len() <= u32::MAX,
    ensures
        r is Ok,
        encoder_input(*final(e)) == encoder_input(*old(e)) + data@,
        encoder_level(*final(e)) == encoder_level(*old(e)),
{
    e.inner.write_all(data)
}

/// Calls `flush` and then `finish` on the `BzEncoder`: the stream for everything that was
/// written to it, which does not depend on the pieces that it was written in. The compression is
/// lossless: what a stream decodes to is the data that it was made from, so that no other data
/// has the same stream. The only errors are those of the writer behind the encoder, and a vector
/// takes whatever is written to it.
#[verifier::external_body]
fn flush_and_finish(e: Encoder) -> (r: Result<Vec<u8>, std::io::Error>)
    ensures
        r is Ok,
        r->Ok_0@ == bzip2_stream(encoder_input(e), encoder_level(e)),
        encodes_only(r->Ok_0@, encoder_input(e)),
{
    let mut inner = e.inner;
    inner.flush()?;
    inner.finish()
}

/// The most bytes that are handed to an encoder at once.
const PIECE: usize = 0x4000_0000;

impl Encoder {
    /// An encoder to which nothing was written yet.
    pub fn new(level: Compression) -> (e: Encoder)
        ensures
            encoder_input(e) == Seq::<u8>::empty(),
            encoder_level(e) == level,
    {
        new_encoder(level)
    }

    /// Writes all of `data`, in pieces that the encoder can take.
    pub fn write(&mut self, data: &[u8]) -> (r: Result<(), PackError>)
        ensures
            r is Ok,
            encoder_input(*final(self)) == encoder_input(*old(self)) + data@,
            encoder_level(*final(self)) == encoder_level(*old(self)),
    {
        let ghost before = encoder_input(*self);
        let mut from: usize = 0;
        assert(before + data@.take(0) =~= before);
        while from < data.len()
            invariant
                from <= data@.len(),
                encoder_input(*self) == before + data@.take(from as int),
                encoder_level(*self) == encoder_level(*old(self)),
            decreases data@.len() - from,
        {
            let to: usize = if PIECE <= data.len() - from {
                from + PIECE
            } else {
                data.len()
            };
            match write_all(self, &data[from..to]) {
                Ok(_) => {},
                Err(cause) => {
                    return Err(PackError { cause });
                },
            }
            assert(before + data@.take(from as int) + data@.subrange(from as int, to as int)
                =~= before + data@.take(to as int));
            from = to;
        }
        assert(data@.take(from as int) =~= data@);
        Ok(())
    }

    /// The stream for everything that was written.
    pub fn finish(self) -> (r: Result<Vec<u8>, PackError>)
        ensures
            r is Ok,
            r->Ok_0@ == bzip2_stream(encoder_input(self), encoder_level(self)),
            encodes_only(r->Ok_0@, encoder_input(self)),
    {
        match flush_and_finish(self) {
            Ok(stream) => Ok(stream),
            Err(cause) => Err(PackError { cause }),
        }
    }
}

} // verus!
