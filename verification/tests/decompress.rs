use std::io::Write;

use flate2::write::{DeflateEncoder, ZlibEncoder};
use flate2::Compression;

use svarog_p4k::compress::compress_bytes;
use svarog_p4k::decompress::{
    compression_method_name, decode, decode_to_writer, decompress_deflate,
    decompress_deflate_sized, decompress_zlib, decompress_zlib_sized, decompress_zstd,
    decompress_zstd_sized, ZstdDecompressor,
};
use svarog_p4k::zip::CompressionMethod;

#[test]
fn test_zstd_roundtrip() {
    let original = b"Hello, World! This is a test of Zstandard compression.";

    // Compress
    let compressed = zstd::encode_all(&original[..], 3).unwrap();

    // Decompress
    let decompressed = decompress_zstd_sized(&compressed, original.len()).unwrap();

    assert_eq!(decompressed, original);
}

#[test]
fn test_zstd_size_mismatch_is_rejected() {
    let original = b"zstd size mismatch";
    let compressed = zstd::encode_all(&original[..], 3).unwrap();
    let err = decompress_zstd_sized(&compressed, original.len() + 1).unwrap_err();
    assert!(err.message().contains("decompressed size mismatch"));
}

#[test]
fn test_deflate_roundtrip() {
    let original = b"Hello, World! This is a test of DEFLATE compression.";

    // Compress
    let mut encoder = DeflateEncoder::new(Vec::new(), Compression::default());
    encoder.write_all(original).unwrap();
    let compressed = encoder.finish().unwrap();

    // Decompress
    let decompressed = decompress_deflate_sized(&compressed, original.len()).unwrap();

    assert_eq!(decompressed, original);
}

#[test]
fn test_deflate_size_mismatch_is_rejected() {
    let original = b"deflate size mismatch";
    let mut encoder = DeflateEncoder::new(Vec::new(), Compression::default());
    encoder.write_all(original).unwrap();
    let compressed = encoder.finish().unwrap();
    let err = decompress_deflate_sized(&compressed, original.len() + 1).unwrap_err();
    assert!(err.message().contains("decompressed size mismatch"));
}

#[test]
fn test_zlib_size_mismatch_is_rejected() {
    let original = b"zlib size mismatch";
    let mut encoder = ZlibEncoder::new(Vec::new(), Compression::default());
    encoder.write_all(original).unwrap();
    let compressed = encoder.finish().unwrap();
    let err = decompress_zlib_sized(&compressed, original.len() + 1).unwrap_err();
    assert!(err.message().contains("decompressed size mismatch"));
}

#[test]
fn unsized_decoders_replace_their_output() {
    let mut output = b"old contents".to_vec();
    let zstd_data = zstd::encode_all(&b"zstd"[..], 1).unwrap();
    decompress_zstd(&zstd_data, &mut output).unwrap();
    assert_eq!(output, b"zstd");

    let mut encoder = DeflateEncoder::new(Vec::new(), Compression::default());
    encoder.write_all(b"deflate").unwrap();
    decompress_deflate(&encoder.finish().unwrap(), &mut output).unwrap();
    assert_eq!(output, b"deflate");

    let mut encoder = ZlibEncoder::new(Vec::new(), Compression::default());
    encoder.write_all(b"zlib").unwrap();
    decompress_zlib(&encoder.finish().unwrap(), &mut output).unwrap();
    assert_eq!(output, b"zlib");

    let mut decompressor = ZstdDecompressor::new();
    assert_eq!(decompressor.decompress(&zstd_data, 4).unwrap(), b"zstd");
}

#[test]
fn broken_streams_are_decompression_errors() {
    for method in [
        CompressionMethod::Deflate,
        CompressionMethod::DeflateZlib,
        CompressionMethod::Zstd,
        CompressionMethod::ZstdDeprecated,
    ] {
        let err = decode(b"\xFF\xFE\xFD not a stream", method, 4).unwrap_err();
        assert!(
            err.message().starts_with("decompression error: "),
            "{}",
            err.message()
        );
    }
}

#[test]
fn compressed_bytes_decode_to_themselves() {
    let data = b"some text that repeats, some text that repeats, some text that repeats";
    for method in [
        CompressionMethod::Store,
        CompressionMethod::Deflate,
        CompressionMethod::DeflateZlib,
        CompressionMethod::Zstd,
        CompressionMethod::ZstdDeprecated,
    ] {
        let packed = compress_bytes(data, method, 3, 9).unwrap();
        if method == CompressionMethod::Store {
            assert_eq!(packed, data);
        } else {
            assert_ne!(packed, data);
            assert!(packed.len() < data.len());
        }
        assert_eq!(decode(&packed, method, data.len()).unwrap(), data);

        let mut padded = packed.clone();
        padded.extend_from_slice(&[0; 11]);
        assert_eq!(decode(&padded, method, data.len()).unwrap(), data);

        let mut out = b"before ".to_vec();
        decode_to_writer(&packed, method, data.len(), &mut out).unwrap();
        assert_eq!(&out[..7], b"before ");
        assert_eq!(&out[7..], data);

        let err = decode(&packed, method, data.len() + 40).unwrap_err();
        assert_eq!(
            err.message(),
            format!(
                "decompression error: {} decompressed size mismatch: expected {}, got {}",
                compression_method_name(method),
                data.len() + 40,
                data.len()
            )
        );
    }
}

#[test]
fn stored_bytes_are_cut_to_their_size() {
    assert_eq!(
        decode(b"0123456789", CompressionMethod::Store, 4).unwrap(),
        b"0123"
    );
}

#[test]
fn a_default_decompressor_decompresses() {
    let data = b"by default".repeat(20);
    let compressed = zstd::encode_all(&data[..], 3).unwrap();
    let mut decompressor = ZstdDecompressor::default();
    assert_eq!(
        decompressor.decompress(&compressed, data.len()).unwrap(),
        data
    );
}
