use crate::error::Error;
use std::io::{Read, Write};
use vstd::prelude::*;

verus! {

/// The highest compression level that `Deflate` and `Lzma` accept.
pub const MAX_LEVEL: u32 = 9;

/// A data compression method.
#[derive(Debug, PartialEq, Eq, Clone, Copy, Structural)]
pub enum Compression {
    /// Do not compress data.
    Off,
    /// Compress data using the DEFLATE compression algorithm.
    Deflate {
        /// The compression level to use, in the range 0-9.
        level: u32,
    },
    /// Compress data using the LZMA compression algorithm.
    Lzma {
        /// The compression level to use, in the range 0-9.
        level: u32,
    },
    /// Compress data using the LZ4 compression algorithm.
    Lz4 {
        /// The compression level to use; levels above 16 count as 16.
        level: u32,
    },
}

/// The gzip stream that `flate2` produces for `data` at `level`, if it
/// produces one.
pub uninterp spec fn spec_gzip(data: Seq<u8>, level: u32) -> Option<Seq<u8>>;

/// The bytes that `flate2` reads out of the gzip stream `data`, if it is one.
pub uninterp spec fn spec_gunzip(data: Seq<u8>) -> Option<Seq<u8>>;

/// The xz stream that `xz2` produces for `data` at `level`, if it produces one.
pub uninterp spec fn spec_xz(data: Seq<u8>, level: u32) -> Option<Seq<u8>>;

/// The bytes that `xz2` reads out of the xz stream `data`, if it is one.
pub uninterp spec fn spec_unxz(data: Seq<u8>) -> Option<Seq<u8>>;

/// The LZ4 frame that `lz4` produces for `data` at `level`, if it produces one.
pub uninterp spec fn spec_lz4(data: Seq<u8>, level: u32) -> Option<Seq<u8>>;

/// The bytes that `lz4` reads out of the LZ4 frame `data`, if it is one.
pub uninterp spec fn spec_unlz4(data: Seq<u8>) -> Option<Seq<u8>>;

/// Whether an optional byte vector stands for the given optional sequence.
pub open spec fn is_bytes(out: Option<Vec<u8>>, bytes: Option<Seq<u8>>) -> bool {
    match out {
        Some(v) => bytes == Some(v@),
        None => bytes is None,
    }
}

/// Reads `flate2::read::GzEncoder` over `data` to its end.
///
/// Taken on trust: the stream is a function of the data and the level. The
/// encoder checks the level against its own limit, so levels above 9 are left
/// out.
#[verifier::external_body]
fn gzip(data: &[u8], level: u32) -> (out: Option<Vec<u8>>)
    requires
        level <= MAX_LEVEL,
    ensures
        is_bytes(out, spec_gzip(data@, level)),
{
    let mut output = Vec::with_capacity(data.len());
    let level = flate2::Compression::new(level);
    match flate2::read::GzEncoder::new(data, level).read_to_end(&mut output) {
        Ok(_) => Some(output),
        Err(_) => None,
    }
}

/// Reads `flate2::read::GzDecoder` over `data` to its end.
///
/// Taken on trust: whether the decoder accepts the stream, and what it reads
/// out of it, is a function of the stream.
#[verifier::external_body]
fn gunzip(data: &[u8]) -> (out: Option<Vec<u8>>)
    ensures
        is_bytes(out, spec_gunzip(data@)),
{
    let mut output = Vec::with_capacity(data.len());
    match flate2::read::GzDecoder::new(data).read_to_end(&mut output) {
        Ok(_) => Some(output),
        Err(_) => None,
    }
}

/// Reads `xz2::read::XzEncoder` over `data` to its end.
///
/// Taken on trust: the stream is a function of the data and the level. The
/// encoder does not return for a preset it does not know, so levels above 9
/// are left out.
#[verifier::external_body]
fn xz(data: &[u8], level: u32) -> (out: Option<Vec<u8>>)
    requires
        level <= MAX_LEVEL,
    ensures
        is_bytes(out, spec_xz(data@, level)),
{
    let mut output = Vec::with_capacity(data.len());
    match xz2::read::XzEncoder::new(data, level).read_to_end(&mut output) {
        Ok(_) => Some(output),
        Err(_) => None,
    }
}

/// Reads `xz2::read::XzDecoder` over `data` to its end.
///
/// Taken on trust: whether the decoder accepts the stream, and what it reads
/// out of it, is a function of the stream.
#[verifier::external_body]
fn unxz(data: &[u8]) -> (out: Option<Vec<u8>>)
    ensures
        is_bytes(out, spec_unxz(data@)),
{
    let mut output = Vec::with_capacity(data.len());
    match xz2::read::XzDecoder::new(data).read_to_end(&mut output) {
        Ok(_) => Some(output),
        Err(_) => None,
    }
}

/// Writes `data` through an `lz4::Encoder` and finishes the frame.
///
/// Taken on trust: the frame is a function of the data and the level.
#[verifier::external_body]
fn lz4(data: &[u8], level: u32) -> (out: Option<Vec<u8>>)
    ensures
        is_bytes(out, spec_lz4(data@, level)),
{
    let mut output = Vec::with_capacity(data.len());
    let mut encoder = lz4::EncoderBuilder::new().level(level).build(&mut output).ok()?;
    encoder.write_all(data).ok()?;
    let (_, result) = encoder.finish();
    result.ok()?;
    Some(output)
}

/// Reads an `lz4::Decoder` over `data` to its end and finishes it.
///
/// Taken on trust: whether the decoder accepts the frame, and what it reads
/// out of it, is a function of the frame.
#[verifier::external_body]
fn unlz4(data: &[u8]) -> (out: Option<Vec<u8>>)
    ensures
        is_bytes(out, spec_unlz4(data@)),
{
    let mut output = Vec::with_capacity(data.len());
    let mut decoder = lz4::Decoder::new(data).ok()?;
    decoder.read_to_end(&mut output).ok()?;
    let (_, result) = decoder.finish();
    result.ok()?;
    Some(output)
}

/// What compressing gives once the encoder has answered: its output, or
/// `Error::Io` where it gave none.
pub open spec fn spec_encoded(out: Option<Seq<u8>>) -> Result<Seq<u8>, Error> {
    match out {
        Some(bytes) => Ok(bytes),
        None => Err(Error::Io),
    }
}

/// What decompressing gives once the decoder has answered: its output, or
/// `Error::InvalidData` where it rejected the input.
pub open spec fn spec_decoded(out: Option<Seq<u8>>) -> Result<Seq<u8>, Error> {
    match out {
        Some(bytes) => Ok(bytes),
        None => Err(Error::InvalidData),
    }
}

/// Whether a result holds the bytes, or the error, of `expected`.
pub open spec fn is_result(result: Result<Vec<u8>, Error>, expected: Result<Seq<u8>, Error>) -> bool {
    match result {
        Ok(v) => expected == Ok::<Seq<u8>, Error>(v@),
        Err(e) => expected == Err::<Seq<u8>, Error>(e),
    }
}

/// Turns the answer of an encoder into the result of `compress`.
pub fn encoded(out: Option<Vec<u8>>) -> (result: Result<Vec<u8>, Error>)
    ensures
        match out {
            Some(v) => result == Ok::<Vec<u8>, Error>(v),
            None => result == Err::<Vec<u8>, Error>(Error::Io),
        },
{
    match out {
        Some(bytes) => Ok(bytes),
        None => Err(Error::Io),
    }
}

/// Turns the answer of a decoder into the result of `decompress`.
pub fn decoded(out: Option<Vec<u8>>) -> (result: Result<Vec<u8>, Error>)
    ensures
        match out {
            Some(v) => result == Ok::<Vec<u8>, Error>(v),
            None => result == Err::<Vec<u8>, Error>(Error::InvalidData),
        },
{
    match out {
        Some(bytes) => Ok(bytes),
        None => Err(Error::InvalidData),
    }
}

impl Compression {
    /// Whether the level is one that the method accepts.
    pub open spec fn spec_valid(&self) -> bool {
        match *self {
            Compression::Off => true,
            Compression::Deflate { level } => level <= MAX_LEVEL,
            Compression::Lzma { level } => level <= MAX_LEVEL,
            Compression::Lz4 { level } => true,
        }
    }

    /// Whether the level is one that the method accepts.
    #[verifier::when_used_as_spec(spec_valid)]
    pub fn valid(&self) -> (ok: bool)
        ensures
            ok == self.spec_valid(),
    {
        match *self {
            Compression::Off => true,
            Compression::Deflate { level } => level <= MAX_LEVEL,
            Compression::Lzma { level } => level <= MAX_LEVEL,
            Compression::Lz4 { level: _ } => true,
        }
    }

    /// The result of compressing `data`: the data itself without compression,
    /// `Error::InvalidInput` for a level that the method does not accept, and
    /// otherwise what the encoder gives.
    pub open spec fn spec_compress(&self, data: Seq<u8>) -> Result<Seq<u8>, Error> {
        match *self {
            Compression::Off => Ok(data),
            Compression::Deflate { level } => if level <= MAX_LEVEL {
                spec_encoded(spec_gzip(data, level))
            } else {
                Err(Error::InvalidInput)
            },
            Compression::Lzma { level } => if level <= MAX_LEVEL {
                spec_encoded(spec_xz(data, level))
            } else {
                Err(Error::InvalidInput)
            },
            Compression::Lz4 { level } => spec_encoded(spec_lz4(data, level)),
        }
    }

    /// The result of decompressing `data`: the data itself without
    /// compression, otherwise what the decoder gives.
    pub open spec fn spec_decompress(&self, data: Seq<u8>) -> Result<Seq<u8>, Error> {
        match *self {
            Compression::Off => Ok(data),
            Compression::Deflate { level } => spec_decoded(spec_gunzip(data)),
            Compression::Lzma { level } => spec_decoded(spec_unxz(data)),
            Compression::Lz4 { level } => spec_decoded(spec_unlz4(data)),
        }
    }

    /// Whether decompressing what compressing `data` gives, gives `data` back.
    pub open spec fn round_trips(&self, data: Seq<u8>) -> bool {
        match self.spec_compress(data) {
            Ok(packed) => self.spec_decompress(packed) == Ok::<Seq<u8>, Error>(data),
            Err(_) => true,
        }
    }

    /// Compresses the given `data` and returns it.
    pub fn compress(&self, data: &[u8]) -> (result: Result<Vec<u8>, Error>)
        ensures
            is_result(result, self.spec_compress(data@)),
    {
        match *self {
            Compression::Off => Ok(vstd::slice::slice_to_vec(data)),
            Compression::Deflate { level } => {
                if level > MAX_LEVEL {
                    return Err(Error::InvalidInput);
                }
                encoded(gzip(data, level))
            },
            Compression::Lzma { level } => {
                if level > MAX_LEVEL {
                    return Err(Error::InvalidInput);
                }
                encoded(xz(data, level))
            },
            Compression::Lz4 { level } => encoded(lz4(data, level)),
        }
    }

    /// Decompresses the given `data` and returns it.
    pub fn decompress(&self, data: &[u8]) -> (result: Result<Vec<u8>, Error>)
        ensures
            is_result(result, self.spec_decompress(data@)),
    {
        match *self {
            Compression::Off => Ok(vstd::slice::slice_to_vec(data)),
            Compression::Deflate { level: _ } => decoded(gunzip(data)),
            Compression::Lzma { level: _ } => decoded(unxz(data)),
            Compression::Lz4 { level: _ } => decoded(unlz4(data)),
        }
    }
}

/// Without compression, what is stored is what was given, and reads back as
/// such.
pub proof fn lemma_no_compression_round_trips(data: Seq<u8>)
    ensures
        Compression::Off.spec_compress(data) == Ok::<Seq<u8>, Error>(data),
        Compression::Off.spec_decompress(data) == Ok::<Seq<u8>, Error>(data),
        Compression::Off.round_trips(data),
{
}

} // verus!
