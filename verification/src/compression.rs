//! The compression multiplexer: one-shot encoding and decoding of a byte
//! buffer under any of the supported archive compressions.
use vstd::prelude::*;

use crate::error::PmtError;

verus! {

/// A compression supported in archives.
///
/// The wire encoding (one header byte) is `Unknown = 0`, `Uncompressed = 1`,
/// `GZip = 2`, `Brotli = 3`, `ZStd = 4`.
#[derive(Debug, Clone, Copy, PartialEq, Eq, Structural)]
pub enum Compression {
    /// Unknown compression; compressing and decompressing both fail.
    Unknown,
    /// No compression: data passes through unchanged.
    Uncompressed,
    /// GZIP as defined in RFC 1952.
    GZip,
    /// Brotli as defined in RFC 7932.
    Brotli,
    /// Zstandard as defined in RFC 8478.
    ZStd,
}

impl Compression {
    /// The `Content-Encoding` HTTP header value for tiles served with this
    /// compression, or `None` when no concrete value applies.
    pub fn http_content_encoding(&self) -> (r: Option<&'static str>)
        ensures
            match self {
                Compression::GZip => r is Some && r->Some_0@ == "gzip"@,
                Compression::Brotli => r is Some && r->Some_0@ == "br"@,
                Compression::ZStd => r is Some && r->Some_0@ == "zstd"@,
                _ => r is None,
            },
    {
        match self {
            Compression::GZip => Some("gzip"),
            Compression::Brotli => Some("br"),
            Compression::ZStd => Some("zstd"),
            _ => None,
        }
    }
}

/// What flate2's gzip decoder yields on `s`: `Some` exactly when `s` is a
/// well-formed gzip stream, with the decoded bytes. The decoding is a pure
/// function of the input.
pub uninterp spec fn gzip_decode_of(s: Seq<u8>) -> Option<Seq<u8>>;

/// What the brotli decoder yields on `s`; a pure function of the input.
pub uninterp spec fn brotli_decode_of(s: Seq<u8>) -> Option<Seq<u8>>;

/// What the zstd decoder yields on `s`; a pure function of the input.
pub uninterp spec fn zstd_decode_of(s: Seq<u8>) -> Option<Seq<u8>>;

/// What decompressing `s` under `c` yields: the identity for `None`,
/// the respective decoder for the real compressions, and failure for
/// `Unknown`.
pub open spec fn spec_decompress(c: Compression, s: Seq<u8>) -> Option<Seq<u8>> {
    match c {
        Compression::Unknown => Option::None,
        Compression::Uncompressed => Some(s),
        Compression::GZip => gzip_decode_of(s),
        Compression::Brotli => brotli_decode_of(s),
        Compression::ZStd => zstd_decode_of(s),
    }
}

/// Relies on flate2's `GzEncoder` at the default level (RFC 1952): the
/// encoded stream decodes back to the input with `GzDecoder`, and the
/// encoder cannot fail, since its only error paths propagate I/O errors
/// of the sink and the `Vec` sink never fails.
#[verifier::external_body]
fn gzip_compress(data: &Vec<u8>) -> (r: Result<Vec<u8>, PmtError>)
    ensures
        r is Ok,
        gzip_decode_of(r->Ok_0@) == Some(data@),
{
    let mut enc = flate2::write::GzEncoder::new(Vec::new(), flate2::Compression::default());
    match std::io::Write::write_all(&mut enc, data.as_slice()) {
        Ok(()) => match enc.finish() {
            Ok(v) => Ok(v),
            Err(_) => Err(PmtError::Io),
        },
        Err(_) => Err(PmtError::Io),
    }
}

/// Relies on flate2's `GzDecoder`: gzip decoding is a pure function of the
/// input bytes, succeeding exactly on well-formed streams.
#[verifier::external_body]
fn gzip_decompress(data: &Vec<u8>) -> (r: Result<Vec<u8>, PmtError>)
    ensures
        r is Ok <==> gzip_decode_of(data@) is Some,
        r is Ok ==> r->Ok_0@ == gzip_decode_of(data@)->Some_0,
        r is Err ==> r->Err_0 == PmtError::Malformed,
{
    let mut dec = flate2::read::GzDecoder::new(data.as_slice());
    let mut out = Vec::new();
    match std::io::Read::read_to_end(&mut dec, &mut out) {
        Ok(_) => Ok(out),
        Err(_) => Err(PmtError::Malformed),
    }
}

/// Relies on brotli's `CompressorWriter` with buffer 4096, quality 11,
/// window 24 (RFC 7932): the encoded stream decodes back to the input,
/// and encoding cannot fail, since writing into the `Vec` sink never
/// fails and `into_inner` finishes the stream unconditionally.
#[verifier::external_body]
fn brotli_compress(data: &Vec<u8>) -> (r: Result<Vec<u8>, PmtError>)
    ensures
        r is Ok,
        brotli_decode_of(r->Ok_0@) == Some(data@),
{
    let mut enc = brotli::CompressorWriter::new(Vec::new(), 4096, 11, 24);
    match std::io::Write::write_all(&mut enc, data.as_slice()) {
        Ok(()) => Ok(enc.into_inner()),
        Err(_) => Err(PmtError::Io),
    }
}

/// Relies on brotli's `Decompressor`: brotli decoding is a pure function
/// of the input bytes, succeeding exactly on well-formed streams.
#[verifier::external_body]
fn brotli_decompress(data: &Vec<u8>) -> (r: Result<Vec<u8>, PmtError>)
    ensures
        r is Ok <==> brotli_decode_of(data@) is Some,
        r is Ok ==> r->Ok_0@ == brotli_decode_of(data@)->Some_0,
        r is Err ==> r->Err_0 == PmtError::Malformed,
{
    let mut dec = brotli::Decompressor::new(data.as_slice(), 4096);
    let mut out = Vec::new();
    match std::io::Read::read_to_end(&mut dec, &mut out) {
        Ok(_) => Ok(out),
        Err(_) => Err(PmtError::Malformed),
    }
}

/// Relies on zstd's `encode_all` at the default level (RFC 8478): the
/// encoded frame decodes back to the input with `decode_all`, and
/// encoding from a slice into a `Vec` cannot fail, since the encoder is
/// built with default parameters and the only error paths propagate I/O
/// errors of the sink.
#[verifier::external_body]
fn zstd_compress(data: &Vec<u8>) -> (r: Result<Vec<u8>, PmtError>)
    ensures
        r is Ok,
        zstd_decode_of(r->Ok_0@) == Some(data@),
{
    match zstd::stream::encode_all(data.as_slice(), 0) {
        Ok(v) => Ok(v),
        Err(_) => Err(PmtError::Io),
    }
}

/// Relies on zstd's `decode_all`: zstd decoding is a pure function of the
/// input bytes, succeeding exactly on well-formed frames.
#[verifier::external_body]
fn zstd_decompress(data: &Vec<u8>) -> (r: Result<Vec<u8>, PmtError>)
    ensures
        r is Ok <==> zstd_decode_of(data@) is Some,
        r is Ok ==> r->Ok_0@ == zstd_decode_of(data@)->Some_0,
        r is Err ==> r->Err_0 == PmtError::Malformed,
{
    match zstd::stream::decode_all(data.as_slice()) {
        Ok(v) => Ok(v),
        Err(_) => Err(PmtError::Malformed),
    }
}

/// Compress a byte buffer under `c`.
///
/// Fails, with `UnsupportedCompression`, exactly when `c` is `Unknown`;
/// the result decompresses back to `data` under `c`.
pub fn compress_all(c: Compression, data: &Vec<u8>) -> (r: Result<Vec<u8>, PmtError>)
    ensures
        c is Unknown <==> r == Err::<Vec<u8>, PmtError>(PmtError::UnsupportedCompression),
        r is Ok <==> !(c is Unknown),
        c is Uncompressed ==> r is Ok && r->Ok_0@ == data@,
        r is Ok ==> spec_decompress(c, r->Ok_0@) == Some(data@),
{
    match c {
        Compression::Unknown => Err(PmtError::UnsupportedCompression),
        Compression::Uncompressed => Ok(data.clone()),
        Compression::GZip => gzip_compress(data),
        Compression::Brotli => brotli_compress(data),
        Compression::ZStd => zstd_compress(data),
    }
}

/// Decompress a byte buffer under `c`.
///
/// Fails with `UnsupportedCompression` exactly when `c` is `Unknown`;
/// otherwise succeeds exactly when the decoder accepts `data`, with the
/// decoded bytes.
pub fn decompress_all(c: Compression, data: &Vec<u8>) -> (r: Result<Vec<u8>, PmtError>)
    ensures
        c is Unknown <==> r == Err::<Vec<u8>, PmtError>(PmtError::UnsupportedCompression),
        !(c is Unknown) ==> {
            &&& r is Ok <==> spec_decompress(c, data@) is Some
            &&& r is Ok ==> r->Ok_0@ == spec_decompress(c, data@)->Some_0
            &&& r is Err ==> r->Err_0 == PmtError::Malformed
        },
{
    match c {
        Compression::Unknown => Err(PmtError::UnsupportedCompression),
        Compression::Uncompressed => Ok(data.clone()),
        Compression::GZip => gzip_decompress(data),
        Compression::Brotli => brotli_decompress(data),
        Compression::ZStd => zstd_decompress(data),
    }
}

} // verus!
