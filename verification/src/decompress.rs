//! Decompression of payloads.

use vstd::prelude::*;
use vstd::seq::*;
use vstd::seq_lib::*;
use vstd::slice::*;
use vstd::string::*;

use crate::bytes::put_bytes;
use crate::error::{Error, Fault, Result};
use crate::text;
use crate::text::dec;
use crate::zip::CompressionMethod;

verus! {

/// What the first Zstandard frame of a byte run holds, or what the decoder reports.
pub uninterp spec fn zstd_decoded(data: Seq<u8>) -> std::result::Result<Seq<u8>, Seq<char>>;

/// `zstd::Decoder` in single-frame mode, read to its end: what it gives or
/// reports depends on the bytes alone.
#[verifier::external_body]
fn read_zstd_frame(data: &[u8]) -> (r: std::result::Result<Vec<u8>, String>)
    ensures
        match r {
            Ok(out) => zstd_decoded(data@) == Ok::<Seq<u8>, Seq<char>>(out@),
            Err(report) => zstd_decoded(data@) == Err::<Seq<u8>, Seq<char>>(report@),
        },
{
    let mut out = Vec::new();
    let mut decoder = zstd::Decoder::new(data).map_err(|e| e.to_string())?.single_frame();
    std::io::Read::read_to_end(&mut decoder, &mut out).map_err(|e| e.to_string())?;
    Ok(out)
}

/// What a DEFLATE stream holds, or what the decoder reports.
pub uninterp spec fn deflate_decoded(data: Seq<u8>) -> std::result::Result<Seq<u8>, Seq<char>>;

/// `flate2::read::DeflateDecoder`, read to its end: what it gives or reports
/// depends on the bytes alone.
#[verifier::external_body]
fn read_deflate_stream(data: &[u8]) -> (r: std::result::Result<Vec<u8>, String>)
    ensures
        match r {
            Ok(out) => deflate_decoded(data@) == Ok::<Seq<u8>, Seq<char>>(out@),
            Err(report) => deflate_decoded(data@) == Err::<Seq<u8>, Seq<char>>(report@),
        },
{
    let mut out = Vec::new();
    let mut decoder = flate2::read::DeflateDecoder::new(data);
    std::io::Read::read_to_end(&mut decoder, &mut out).map_err(|e| e.to_string())?;
    Ok(out)
}

/// What a zlib stream holds, or what the decoder reports.
pub uninterp spec fn zlib_decoded(data: Seq<u8>) -> std::result::Result<Seq<u8>, Seq<char>>;

/// `flate2::read::ZlibDecoder`, read to its end: what it gives or reports
/// depends on the bytes alone.
#[verifier::external_body]
fn read_zlib_stream(data: &[u8]) -> (r: std::result::Result<Vec<u8>, String>)
    ensures
        match r {
            Ok(out) => zlib_decoded(data@) == Ok::<Seq<u8>, Seq<char>>(out@),
            Err(report) => zlib_decoded(data@) == Err::<Seq<u8>, Seq<char>>(report@),
        },
{
    let mut out = Vec::new();
    let mut decoder = flate2::read::ZlibDecoder::new(data);
    std::io::Read::read_to_end(&mut decoder, &mut out).map_err(|e| e.to_string())?;
    Ok(out)
}

/// How messages name a method.
pub open spec fn method_text(method: CompressionMethod) -> Seq<char> {
    match method {
        CompressionMethod::Store => "stored"@,
        CompressionMethod::Deflate => "deflate"@,
        CompressionMethod::DeflateZlib => "zlib"@,
        CompressionMethod::Zstd => "zstd"@,
        CompressionMethod::ZstdDeprecated => "zstd"@,
    }
}

/// How messages name a method.
pub fn compression_method_name(method: CompressionMethod) -> (s: &'static str)
    ensures
        s@ == method_text(method),
{
    match method {
        CompressionMethod::Store => "stored",
        CompressionMethod::Deflate => "deflate",
        CompressionMethod::DeflateZlib => "zlib",
        CompressionMethod::Zstd => "zstd",
        CompressionMethod::ZstdDeprecated => "zstd",
    }
}

/// The fault of output that has the wrong size.
pub open spec fn size_fault(name: Seq<char>, actual: nat, expected: nat) -> Fault {
    Fault::Decompression(
        name + " decompressed size mismatch: expected "@ + text::dec_text(expected) + ", got "@
            + text::dec_text(actual),
    )
}

/// Check the size of decoded output.
pub fn validate_decompressed_size(name: &str, actual: usize, expected: usize) -> (r: Result<()>)
    ensures
        match r {
            Ok(_) => actual == expected,
            Err(e) => actual != expected && e@ == size_fault(
                name@,
                actual as nat,
                expected as nat,
            ),
        },
{
    if actual != expected {
        return Err(
            Error::Decompression(
                String::from_str(name).concat(" decompressed size mismatch: expected ").concat(
                    dec(expected as u64).as_str(),
                ).concat(", got ").concat(dec(actual as u64).as_str()),
            ),
        );
    }
    Ok(())
}

/// What a decoder gave, if it has the expected size.
pub open spec fn sized_outcome(
    decoded: std::result::Result<Seq<u8>, Seq<char>>,
    name: Seq<char>,
    expected: nat,
) -> std::result::Result<Seq<u8>, Fault> {
    match decoded {
        Err(report) => Err(Fault::Decompression(report)),
        Ok(out) => if out.len() != expected {
            Err(size_fault(name, out.len(), expected))
        } else {
            Ok(out)
        },
    }
}

/// The result of a decoder as a value.
pub open spec fn decoder_view(r: std::result::Result<Vec<u8>, String>) -> std::result::Result<
    Seq<u8>,
    Seq<char>,
> {
    match r {
        Ok(out) => Ok(out@),
        Err(report) => Err(report@),
    }
}

/// A result of bytes as a value.
pub open spec fn bytes_outcome(r: Result<Vec<u8>>) -> std::result::Result<Seq<u8>, Fault> {
    match r {
        Ok(out) => Ok(out@),
        Err(e) => Err(e@),
    }
}

/// Take what a decoder gave, if it has the expected size.
pub fn take_sized(
    decoded: std::result::Result<Vec<u8>, String>,
    name: &str,
    expected: usize,
) -> (r: Result<Vec<u8>>)
    ensures
        bytes_outcome(r) == sized_outcome(decoder_view(decoded), name@, expected as nat),
{
    match decoded {
        Err(report) => Err(Error::Decompression(report)),
        Ok(out) => {
            validate_decompressed_size(name, out.len(), expected)?;
            Ok(out)
        },
    }
}

fn replace_output(decoded: std::result::Result<Vec<u8>, String>, output: &mut Vec<u8>) -> (r:
    Result<()>)
    ensures
        match r {
            Ok(_) => decoder_view(decoded) == Ok::<Seq<u8>, Seq<char>>(final(output)@),
            Err(e) => e@ is Decompression && decoder_view(decoded) == Err::<Seq<u8>, Seq<char>>(
                e@->Decompression_0,
            ) && final(output)@ == Seq::<u8>::empty(),
        },
{
    output.clear();
    match decoded {
        Err(report) => Err(Error::Decompression(report)),
        Ok(out) => {
            *output = out;
            Ok(())
        },
    }
}

/// What becomes of the output buffer of a decoder.
pub open spec fn replaced_output(
    decoded: std::result::Result<Seq<u8>, Seq<char>>,
    output: Seq<u8>,
    r: Result<()>,
) -> bool {
    match r {
        Ok(_) => decoded == Ok::<Seq<u8>, Seq<char>>(output),
        Err(e) => {
            &&& e@ is Decompression
            &&& decoded == Err::<Seq<u8>, Seq<char>>(e@->Decompression_0)
            &&& output == Seq::<u8>::empty()
        },
    }
}

/// Decompress Zstandard-compressed data.
pub fn decompress_zstd(data: &[u8], output: &mut Vec<u8>) -> (r: Result<()>)
    ensures
        replaced_output(zstd_decoded(data@), final(output)@, r),
{
    replace_output(read_zstd_frame(data), output)
}

/// Decompress Zstandard-compressed data with known output size.
pub fn decompress_zstd_sized(data: &[u8], expected_size: usize) -> (r: Result<Vec<u8>>)
    ensures
        bytes_outcome(r) == sized_outcome(zstd_decoded(data@), "zstd"@, expected_size as nat),
{
    take_sized(read_zstd_frame(data), "zstd", expected_size)
}

/// Decompress DEFLATE-compressed data.
pub fn decompress_deflate(data: &[u8], output: &mut Vec<u8>) -> (r: Result<()>)
    ensures
        replaced_output(deflate_decoded(data@), final(output)@, r),
{
    replace_output(read_deflate_stream(data), output)
}

/// Decompress DEFLATE-compressed data with known output size.
pub fn decompress_deflate_sized(data: &[u8], expected_size: usize) -> (r: Result<Vec<u8>>)
    ensures
        bytes_outcome(r) == sized_outcome(
            deflate_decoded(data@),
            "deflate"@,
            expected_size as nat,
        ),
{
    take_sized(read_deflate_stream(data), "deflate", expected_size)
}

/// Decompress zlib-wrapped DEFLATE-compressed data.
pub fn decompress_zlib(data: &[u8], output: &mut Vec<u8>) -> (r: Result<()>)
    ensures
        replaced_output(zlib_decoded(data@), final(output)@, r),
{
    replace_output(read_zlib_stream(data), output)
}

/// Decompress zlib-wrapped DEFLATE-compressed data with known output size.
pub fn decompress_zlib_sized(data: &[u8], expected_size: usize) -> (r: Result<Vec<u8>>)
    ensures
        bytes_outcome(r) == sized_outcome(zlib_decoded(data@), "zlib"@, expected_size as nat),
{
    take_sized(read_zlib_stream(data), "zlib", expected_size)
}

/// What the stored form of a payload decodes to, or why it does not.
pub open spec fn decode_outcome(
    data: Seq<u8>,
    method: CompressionMethod,
    expected: nat,
) -> std::result::Result<Seq<u8>, Fault> {
    match method {
        CompressionMethod::Store => if data.len() < expected {
            Err(size_fault("stored"@, data.len(), expected))
        } else {
            Ok(data.take(expected as int))
        },
        CompressionMethod::Deflate => sized_outcome(
            deflate_decoded(data),
            method_text(method),
            expected,
        ),
        CompressionMethod::DeflateZlib => sized_outcome(
            zlib_decoded(data),
            method_text(method),
            expected,
        ),
        CompressionMethod::Zstd => sized_outcome(zstd_decoded(data), method_text(method), expected),
        CompressionMethod::ZstdDeprecated => sized_outcome(
            zstd_decoded(data),
            method_text(method),
            expected,
        ),
    }
}

/// Decode the stored form of a payload.
pub fn decode(data: &[u8], method: CompressionMethod, expected_size: usize) -> (r: Result<Vec<u8>>)
    ensures
        bytes_outcome(r) == decode_outcome(data@, method, expected_size as nat),
{
    match method {
        CompressionMethod::Store => {
            if data.len() < expected_size {
                validate_decompressed_size("stored", data.len(), expected_size)?;
            }
            let out: Vec<u8> = slice_to_vec(slice_subrange(data, 0, expected_size));
            assert(out@ =~= data@.take(expected_size as int));
            Ok(out)
        },
        CompressionMethod::Deflate => take_sized(
            read_deflate_stream(data),
            compression_method_name(method),
            expected_size,
        ),
        CompressionMethod::DeflateZlib => take_sized(
            read_zlib_stream(data),
            compression_method_name(method),
            expected_size,
        ),
        CompressionMethod::Zstd => take_sized(
            read_zstd_frame(data),
            compression_method_name(method),
            expected_size,
        ),
        CompressionMethod::ZstdDeprecated => take_sized(
            read_zstd_frame(data),
            compression_method_name(method),
            expected_size,
        ),
    }
}

/// Decode the stored form of a payload, and append what it holds to `writer`.
pub fn decode_to_writer(
    data: &[u8],
    method: CompressionMethod,
    expected_size: usize,
    writer: &mut Vec<u8>,
) -> (r: Result<()>)
    ensures
        match r {
            Ok(_) => {
                &&& decode_outcome(data@, method, expected_size as nat) is Ok
                &&& final(writer)@ == old(writer)@ + decode_outcome(
                    data@,
                    method,
                    expected_size as nat,
                )->Ok_0
            },
            Err(e) => {
                &&& decode_outcome(data@, method, expected_size as nat) == Err::<Seq<u8>, Fault>(
                    e@,
                )
                &&& final(writer)@ == old(writer)@
            },
        },
{
    let out: Vec<u8> = decode(data, method, expected_size)?;
    put_bytes(writer, out.as_slice());
    Ok(())
}

/// Zstandard decompressor.
pub struct ZstdDecompressor {}

impl ZstdDecompressor {
    /// Create a new decompressor.
    pub fn new() -> (r: Self)
        ensures
            r == (ZstdDecompressor {  }),
    {
        ZstdDecompressor {  }
    }

    /// Decompress data.
    pub fn decompress(&mut self, data: &[u8], expected_size: usize) -> (r: Result<Vec<u8>>)
        ensures
            bytes_outcome(r) == sized_outcome(zstd_decoded(data@), "zstd"@, expected_size as nat),
            *final(self) == *old(self),
    {
        decompress_zstd_sized(data, expected_size)
    }
}

impl Default for ZstdDecompressor {
    fn default() -> (r: Self)
        ensures
            r == (ZstdDecompressor {  }),
    {
        ZstdDecompressor::new()
    }
}

} // verus!
