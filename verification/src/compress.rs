//! Compression of payloads.

use vstd::prelude::*;
use vstd::slice::*;

use crate::decompress;
use crate::error::{Error, Fault, IoErrorKind, Result};
use crate::zip::CompressionMethod;

verus! {

/// The Zstandard frame of a byte run at a level, or what the encoder reports.
pub uninterp spec fn zstd_encoded(data: Seq<u8>, level: i32) -> std::result::Result<
    Seq<u8>,
    Seq<char>,
>;

/// A Zstandard frame decodes to `data`, whatever stands behind it.
pub open spec fn zstd_reads_back(stored: Seq<u8>, data: Seq<u8>) -> bool {
    forall|tail: Seq<u8>| #[trigger]
        decompress::zstd_decoded(stored + tail) == Ok::<Seq<u8>, Seq<char>>(data)
}

/// `zstd::stream::encode_all`: what it gives or reports depends on the bytes
/// and the level alone. The decoder takes one frame and leaves what follows
/// it, so the frame decodes to the bytes whatever stands behind it.
#[verifier::external_body]
fn write_zstd_frame(data: &[u8], level: i32) -> (r: std::result::Result<Vec<u8>, String>)
    ensures
        match r {
            Ok(out) => {
                &&& zstd_encoded(data@, level) == Ok::<Seq<u8>, Seq<char>>(out@)
                &&& zstd_reads_back(out@, data@)
            },
            Err(report) => zstd_encoded(data@, level) == Err::<Seq<u8>, Seq<char>>(report@),
        },
{
    zstd::stream::encode_all(data, level).map_err(|e| e.to_string())
}

/// The DEFLATE stream of a byte run at a level, or what the encoder reports.
pub uninterp spec fn deflate_encoded(data: Seq<u8>, level: u32) -> std::result::Result<
    Seq<u8>,
    Seq<char>,
>;

/// A DEFLATE stream decodes to `data`, whatever stands behind it.
pub open spec fn deflate_reads_back(stored: Seq<u8>, data: Seq<u8>) -> bool {
    forall|tail: Seq<u8>| #[trigger]
        decompress::deflate_decoded(stored + tail) == Ok::<Seq<u8>, Seq<char>>(data)
}

/// `flate2::write::DeflateEncoder`, written to and finished: what it gives or
/// reports depends on the bytes and the level alone. The decoder stops where
/// the stream ends, so the stream decodes to the bytes whatever stands behind
/// it. The encoder asserts that the level is at most ten.
#[verifier::external_body]
fn write_deflate_stream(data: &[u8], level: u32) -> (r: std::result::Result<Vec<u8>, String>)
    requires
        level <= 10,
    ensures
        match r {
            Ok(out) => {
                &&& deflate_encoded(data@, level) == Ok::<Seq<u8>, Seq<char>>(out@)
                &&& deflate_reads_back(out@, data@)
            },
            Err(report) => deflate_encoded(data@, level) == Err::<Seq<u8>, Seq<char>>(report@),
        },
{
    let out = Vec::with_capacity(data.len());
    let mut encoder = flate2::write::DeflateEncoder::new(out, flate2::Compression::new(level));
    std::io::Write::write_all(&mut encoder, data).map_err(|e| e.to_string())?;
    encoder.finish().map_err(|e| e.to_string())
}

/// The zlib stream of a byte run at a level, or what the encoder reports.
pub uninterp spec fn zlib_encoded(data: Seq<u8>, level: u32) -> std::result::Result<
    Seq<u8>,
    Seq<char>,
>;

/// A zlib stream decodes to `data`, whatever stands behind it.
pub open spec fn zlib_reads_back(stored: Seq<u8>, data: Seq<u8>) -> bool {
    forall|tail: Seq<u8>| #[trigger]
        decompress::zlib_decoded(stored + tail) == Ok::<Seq<u8>, Seq<char>>(data)
}

/// `flate2::write::ZlibEncoder`, written to and finished: what it gives or
/// reports depends on the bytes and the level alone. The decoder stops where
/// the stream ends, so the stream decodes to the bytes whatever stands behind
/// it. The encoder asserts that the level is at most ten.
#[verifier::external_body]
fn write_zlib_stream(data: &[u8], level: u32) -> (r: std::result::Result<Vec<u8>, String>)
    requires
        level <= 10,
    ensures
        match r {
            Ok(out) => {
                &&& zlib_encoded(data@, level) == Ok::<Seq<u8>, Seq<char>>(out@)
                &&& zlib_reads_back(out@, data@)
            },
            Err(report) => zlib_encoded(data@, level) == Err::<Seq<u8>, Seq<char>>(report@),
        },
{
    let out = Vec::with_capacity(data.len());
    let mut encoder = flate2::write::ZlibEncoder::new(out, flate2::Compression::new(level));
    std::io::Write::write_all(&mut encoder, data).map_err(|e| e.to_string())?;
    encoder.finish().map_err(|e| e.to_string())
}

/// What an encoder gave, its report as the message of a failure of that kind.
pub open spec fn encoder_outcome(
    encoded: std::result::Result<Seq<u8>, Seq<char>>,
    kind: IoErrorKind,
) -> std::result::Result<Seq<u8>, Fault> {
    match encoded {
        Ok(out) => Ok(out),
        Err(report) => Err(Fault::Io { kind, message: report }),
    }
}

/// The stored form of bytes, or why there is none.
pub open spec fn compress_outcome(
    data: Seq<u8>,
    method: CompressionMethod,
    zstd_level: i32,
    deflate_level: u32,
) -> std::result::Result<Seq<u8>, Fault> {
    match method {
        CompressionMethod::Store => Ok(data),
        CompressionMethod::Deflate => encoder_outcome(
            deflate_encoded(data, deflate_level),
            IoErrorKind::InvalidInput,
        ),
        CompressionMethod::DeflateZlib => encoder_outcome(
            zlib_encoded(data, deflate_level),
            IoErrorKind::InvalidInput,
        ),
        CompressionMethod::Zstd => encoder_outcome(
            zstd_encoded(data, zstd_level),
            IoErrorKind::Other,
        ),
        CompressionMethod::ZstdDeprecated => encoder_outcome(
            zstd_encoded(data, zstd_level),
            IoErrorKind::Other,
        ),
    }
}

/// Take what an encoder gave.
pub fn take_encoded(
    encoded: std::result::Result<Vec<u8>, String>,
    kind: IoErrorKind,
) -> (r: Result<Vec<u8>>)
    ensures
        decompress::bytes_outcome(r) == encoder_outcome(decompress::decoder_view(encoded), kind),
{
    match encoded {
        Ok(out) => Ok(out),
        Err(message) => Err(Error::Io { kind, message }),
    }
}

/// Whether an encoder of the method takes the DEFLATE level: one of DEFLATE
/// takes a level of at most ten, the others take none.
pub open spec fn level_fits(method: CompressionMethod, deflate_level: u32) -> bool {
    method == CompressionMethod::Deflate || method == CompressionMethod::DeflateZlib
        ==> deflate_level <= 10
}

/// Bring bytes into their stored form.
///
/// What comes out decodes to the bytes again, and does so too with padding
/// behind it.
pub fn compress_bytes(
    data: &[u8],
    method: CompressionMethod,
    zstd_level: i32,
    deflate_level: u32,
) -> (r: Result<Vec<u8>>)
    requires
        level_fits(method, deflate_level),
    ensures
        decompress::bytes_outcome(r) == compress_outcome(data@, method, zstd_level, deflate_level),
        r matches Ok(out) ==> forall|tail: Seq<u8>| #[trigger]
            decompress::decode_outcome(out@ + tail, method, data@.len()) == Ok::<Seq<u8>, Fault>(
                data@,
            ),
{
    match method {
        CompressionMethod::Store => {
            let out: Vec<u8> = slice_to_vec(data);
            proof {
                assert forall|tail: Seq<u8>| #[trigger]
                    decompress::decode_outcome(out@ + tail, method, data@.len()) == Ok::<
                        Seq<u8>,
                        Fault,
                    >(data@) by {
                    assert((out@ + tail).take(data@.len() as int) =~= data@);
                }
            }
            Ok(out)
        },
        CompressionMethod::Deflate => take_encoded(
            write_deflate_stream(data, deflate_level),
            IoErrorKind::InvalidInput,
        ),
        CompressionMethod::DeflateZlib => take_encoded(
            write_zlib_stream(data, deflate_level),
            IoErrorKind::InvalidInput,
        ),
        CompressionMethod::Zstd => take_encoded(
            write_zstd_frame(data, zstd_level),
            IoErrorKind::Other,
        ),
        CompressionMethod::ZstdDeprecated => take_encoded(
            write_zstd_frame(data, zstd_level),
            IoErrorKind::Other,
        ),
    }
}

} // verus!
