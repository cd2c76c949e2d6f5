use sha2::{Digest, Sha256};

use svarog_p4k::align::v1_local_file_record_size;
use svarog_p4k::compress::compress_bytes;
use svarog_p4k::crc::hash_bytes;
use svarog_p4k::crypto::{encrypt, signature_metadata_sha256};
use svarog_p4k::datetime::dos_datetime_from_unix_secs;
use svarog_p4k::path::{normalize_archive_name, normalize_p4k_path, safe_output_path};
use svarog_p4k::writer::convert::{
    copy_exact_prefix, max_v1_payload_end, merge_freelist_blocks, trim_trailing_freelist_blocks,
};
use svarog_p4k::writer::options::DEFAULT_SECTOR_SIZE;
use svarog_p4k::writer::staged::validate_stored_crc32_metadata;
use svarog_p4k::writer::tail::write_v2_tail;
use svarog_p4k::zip::CompressionMethod;
use svarog_p4k::{
    P4kArchive, P4kBuilder, P4kEntryMetadata, P4kEntryRef, P4kFreelistBlock, P4kRawEntryRef,
    P4kWriterOptions,
};

fn sha256_array(bytes: &[u8]) -> [u8; 32] {
    Sha256::digest(bytes).into()
}

#[test]
fn default_compression_levels_match_dump() {
    let options = P4kWriterOptions::default();
    assert_eq!(options.compression, CompressionMethod::Zstd);
    assert_eq!(options.zstd_level, 1);
    assert_eq!(options.deflate_level, 9);
}

#[test]
fn max_v1_payload_end_ignores_empty_entries_and_checks_overflow() {
    let entries = vec![
        test_raw_entry("empty.bin", 900, 0),
        test_raw_entry("small.bin", 100, 20),
        test_raw_entry("large.bin", 4096, 128),
    ];
    assert_eq!(max_v1_payload_end(&entries).unwrap(), 4224);

    let overflowing = vec![test_raw_entry("overflow.bin", u64::MAX, 1)];
    let err = max_v1_payload_end(&overflowing).unwrap_err();
    assert!(err.message().contains("source v1 payload range overflow"));
}

#[test]
fn fresh_writer_orders_equal_size_entries_by_sorted_filename_handle() {
    let options = P4kWriterOptions {
        compression: CompressionMethod::Store,
        sector_size: 256,
        ..Default::default()
    };

    let write_names = |names: &[&str]| {
        let mut builder = P4kBuilder::with_options(options.clone());
        for name in names {
            builder.add_bytes(name, b"same").unwrap();
        }
        let ordered_names: Vec<_> = builder
            .entries_for_fresh_write()
            .into_iter()
            .map(|entry| entry.name.clone())
            .collect();
        let mut output = Vec::new();
        builder.write_to(&mut output).unwrap();
        (ordered_names, output)
    };

    let (forward_names, forward_bytes) = write_names(&["z.bin", "A.bin", "m.bin"]);
    let (reverse_names, reverse_bytes) = write_names(&["m.bin", "z.bin", "A.bin"]);

    assert_eq!(forward_names, ["A.bin", "m.bin", "z.bin"]);
    assert_eq!(reverse_names, forward_names);
    assert_eq!(reverse_bytes, forward_bytes);
}

#[test]
fn fresh_filename_handles_use_sorted_lowercase_normalized_names() {
    let mut builder = P4kBuilder::new();
    builder.add_bytes("Z.bin", b"same").unwrap();
    builder.add_bytes("a.bin", b"same").unwrap();
    builder.add_bytes("Data\\File.bin", b"same").unwrap();
    builder.add_bytes("data/file.bin", b"same").unwrap();

    let handles = builder.fresh_filename_handles();
    assert!(handles[1] < handles[2]);
    assert!(handles[2] < handles[0]);
    assert_eq!(handles[2], handles[3]);
}

#[test]
fn path_normalization_matches_cig_inplace_rules() {
    assert_eq!(
        normalize_p4k_path("Dir\\./Sub//Leaf.txt   ", false),
        "Dir/Sub/Leaf.txt"
    );
    assert_eq!(
        normalize_p4k_path("Dir/Sub/../Leaf.txt", false),
        "Dir/Leaf.txt"
    );
    assert_eq!(
        normalize_p4k_path("Dir\\Mixed/Case.txt", true),
        "dir/mixed/case.txt"
    );
    assert_eq!(normalize_p4k_path("../escape.bin", false), ".escape.bin");
    assert_eq!(
        normalize_archive_name("../escape.bin").unwrap(),
        ".escape.bin"
    );
}

#[test]
fn archive_names_are_relative_paths() {
    for name in ["", "a\0b"] {
        assert_eq!(
            normalize_archive_name(name).unwrap_err().message(),
            "I/O error: archive entry name is empty or contains NUL"
        );
    }
    for name in ["/abs.bin", "dir/", ".", "  ", "a/..", ".."] {
        assert_eq!(
            normalize_archive_name(name).unwrap_err().message(),
            "I/O error: archive entry name must be relative and normalized",
            "{name:?}"
        );
    }
    assert_eq!(normalize_archive_name("a\\b.c ").unwrap(), "a/b.c");
}

#[test]
fn writer_uses_cig_crc32c_for_p4k_metadata() {
    let mut builder = P4kBuilder::new();
    builder.add_bytes("crc.bin", b"123456789").unwrap();

    assert_eq!(hash_bytes(b"123456789"), 0xE306_9283);
    assert_eq!(builder.entries()[0].crc32, 0xE306_9283);
    assert_ne!(builder.entries()[0].crc32, 0xCBF4_3926);
}

#[test]
fn add_bytes_with_entry_metadata_preserves_signature_and_dos_time() {
    let payload = b"signed payload";
    let crc32 = hash_bytes(payload);
    let digest = signature_metadata_sha256(
        "Data\\Signed.bin",
        crc32,
        payload.len() as u64,
        payload.len() as u64,
        true,
    );
    let mut signature = [0xA5; 128];
    signature[..digest.len()].copy_from_slice(&digest);
    let metadata = P4kEntryMetadata {
        last_mod_file_time: 0x1234,
        last_mod_file_date: 0x5678,
        signature,
    };

    let options = P4kWriterOptions {
        compression: CompressionMethod::Store,
        ..Default::default()
    };
    let mut builder = P4kBuilder::with_options(options);
    builder
        .add_bytes_with_entry_metadata(
            "Data\\Signed.bin",
            payload,
            CompressionMethod::Store,
            false,
            metadata,
        )
        .unwrap();

    let mut v2 = Vec::new();
    builder.write_to(&mut v2).unwrap();
    let archive = P4kArchive::from_bytes("v2.p4k", &v2).unwrap();
    let entry = archive.find("Data/Signed.bin").unwrap();
    assert_eq!(entry.last_mod_file_time, metadata.last_mod_file_time);
    assert_eq!(entry.last_mod_file_date, metadata.last_mod_file_date);
    assert_eq!(entry.signature, metadata.signature);
    assert_eq!(archive.read(&entry).unwrap(), payload);

    let mut v1 = Vec::new();
    builder.write_v1_to(&mut v1).unwrap();
    let archive = P4kArchive::from_bytes("v1.p4k", &v1).unwrap();
    let entry = archive.find("Data/Signed.bin").unwrap();
    assert_eq!(entry.last_mod_file_time, metadata.last_mod_file_time);
    assert_eq!(entry.last_mod_file_date, metadata.last_mod_file_date);
    assert_eq!(entry.signature, metadata.signature);
    assert_eq!(archive.read(&entry).unwrap(), payload);
}

#[test]
fn precompressed_payload_rejects_sha256_metadata_mismatch() {
    let mut builder = P4kBuilder::new();
    let mut wrong_sha256 = sha256_array(b"payload");
    wrong_sha256[0] ^= 0xFF;

    let err = builder
        .add_precompressed_with_metadata(
            "bad-sha.bin",
            b"payload".to_vec(),
            7,
            CompressionMethod::Store,
            hash_bytes(b"payload"),
            0,
            0,
            false,
            [0; 128],
            wrong_sha256,
        )
        .unwrap_err();

    assert!(
        err.message().contains("payload SHA-256 metadata"),
        "expected SHA-256 metadata mismatch rejection, got {}",
        err.message()
    );
    assert!(builder.is_empty());
}

#[test]
fn precompressed_stored_payload_rejects_crc32_metadata_mismatch() {
    let mut builder = P4kBuilder::new();
    let payload = b"payload".to_vec();
    let sha256 = sha256_array(&payload);

    let err = builder
        .add_precompressed_with_metadata(
            "bad-crc.bin",
            payload,
            7,
            CompressionMethod::Store,
            0xDEAD_BEEF,
            0,
            0,
            false,
            [0; 128],
            sha256,
        )
        .unwrap_err();

    assert!(
        err.message().contains("CRC32C metadata"),
        "expected CRC32C metadata mismatch rejection, got {}",
        err.message()
    );
    assert!(builder.is_empty());
}

#[test]
fn precompressed_encrypted_stored_payload_rejects_crc32_metadata_mismatch() {
    let mut builder = P4kBuilder::new();
    let payload = encrypt(b"payload").unwrap();
    let sha256 = sha256_array(&payload);

    let err = builder
        .add_precompressed_with_metadata(
            "bad-encrypted-crc.bin",
            payload,
            7,
            CompressionMethod::Store,
            0xDEAD_BEEF,
            0,
            0,
            true,
            [0; 128],
            sha256,
        )
        .unwrap_err();

    assert!(
        err.message().contains("CRC32C metadata"),
        "expected encrypted CRC32C metadata mismatch rejection, got {}",
        err.message()
    );
    assert!(builder.is_empty());
}

#[test]
fn precompressed_compressed_payload_rejects_crc32_metadata_mismatch() {
    let mut builder = P4kBuilder::new();
    let plaintext = b"payload that should be deflated before storage";
    let payload = compress_bytes(plaintext, CompressionMethod::Deflate, 1, 9).unwrap();
    let sha256 = sha256_array(&payload);

    let err = builder
        .add_precompressed_with_metadata(
            "bad-compressed-crc.bin",
            payload,
            plaintext.len() as u64,
            CompressionMethod::Deflate,
            0xDEAD_BEEF,
            0,
            0,
            false,
            [0; 128],
            sha256,
        )
        .unwrap_err();

    assert!(
        err.message().contains("CRC32C metadata"),
        "expected compressed CRC32C metadata mismatch rejection, got {}",
        err.message()
    );
    assert!(builder.is_empty());
}

#[test]
fn precompressed_encrypted_compressed_payload_rejects_crc32_metadata_mismatch() {
    let mut builder = P4kBuilder::new();
    let plaintext = b"payload that should be compressed and encrypted";
    let compressed = compress_bytes(plaintext, CompressionMethod::Zstd, 1, 9).unwrap();
    let payload = encrypt(&compressed).unwrap();
    let sha256 = sha256_array(&payload);

    let err = builder
        .add_precompressed_with_metadata(
            "bad-encrypted-compressed-crc.bin",
            payload,
            plaintext.len() as u64,
            CompressionMethod::Zstd,
            0xDEAD_BEEF,
            0,
            0,
            true,
            [0; 128],
            sha256,
        )
        .unwrap_err();

    assert!(
        err.message().contains("CRC32C metadata"),
        "expected encrypted compressed CRC32C metadata mismatch rejection, got {}",
        err.message()
    );
    assert!(builder.is_empty());
}

#[test]
fn copy_exact_prefix_rejects_short_source() {
    let mut output = Vec::new();
    let err = copy_exact_prefix(&b"short"[..], &mut output, 6).unwrap_err();
    assert_eq!(
        err.message(),
        "I/O error: source ended after 5 bytes, expected 6 bytes"
    );
    assert_eq!(output, b"short");
}

#[test]
fn copy_exact_prefix_copies_no_more_than_asked_for() {
    let mut output = b"x".to_vec();
    copy_exact_prefix(b"prefix and rest", &mut output, 6).unwrap();
    assert_eq!(output, b"xprefix");
}

#[test]
fn safe_output_path_rejects_windows_drive_and_stream_components() {
    for name in ["C:/escape.bin", "dir/file:stream.bin"] {
        let err = safe_output_path(name).unwrap_err();
        assert!(
            err.message().contains("unsafe archive path"),
            "expected unsafe path rejection for {name}, got {}",
            err.message()
        );
    }
    for name in ["../escape.bin", "a/../b", "a//b", "./a", "/a", "a\\..\\b", ""] {
        assert_eq!(
            safe_output_path(name).unwrap_err().message(),
            format!("I/O error: unsafe archive path: {name}")
        );
    }
    assert_eq!(safe_output_path("a\\b/c.d").unwrap(), "a/b/c.d");
}

#[test]
fn v1_local_file_record_size_uses_dump_formula_with_checked_arithmetic() {
    assert_eq!(v1_local_file_record_size(12, 256).unwrap(), 512);

    let err = v1_local_file_record_size(u64::MAX, 4096).unwrap_err();
    assert!(
        err.message()
            .contains("v1 local file record size overflow"),
        "expected checked size overflow, got {}",
        err.message()
    );
}

#[test]
fn unix_time_to_dos_datetime_matches_known_values() {
    assert_eq!(dos_datetime_from_unix_secs(0), (0, 0x0021));

    // 2026-05-28 12:34:56 UTC
    let unix = 1_779_971_696;
    let (time, date) = dos_datetime_from_unix_secs(unix);
    assert_eq!(time, (12 << 11) | (34 << 5) | 28);
    assert_eq!(date, ((2026 - 1980) << 9) | (5 << 5) | 28);
}

fn block(offset: u64, size: u64) -> P4kFreelistBlock {
    P4kFreelistBlock { offset, size }
}

#[test]
fn freelist_merge_matches_dump_adjacent_only_then_trims_tail() {
    let mut blocks = vec![block(100, 20), block(64, 8), block(72, 8), block(110, 5)];
    merge_freelist_blocks(&mut blocks).unwrap();
    assert_eq!(blocks, vec![block(64, 16), block(100, 20), block(110, 5)]);

    blocks.push(block(112, 16));
    let mut payload_end = 113;
    trim_trailing_freelist_blocks(&mut blocks, &mut payload_end, 16).unwrap();
    assert_eq!(payload_end, 112);
    assert_eq!(blocks, vec![block(64, 16), block(100, 20), block(110, 5)]);
}

#[test]
fn freelist_merge_rejects_merged_size_overflow() {
    let mut blocks = vec![block(0, u64::MAX), block(u64::MAX, 1)];

    let err = merge_freelist_blocks(&mut blocks).unwrap_err();
    assert!(
        err.message()
            .contains("merged freelist block size overflow"),
        "expected merged freelist overflow rejection, got {}",
        err.message()
    );
}

#[test]
fn write_v2_tail_rejects_cdr_offset_overflow() {
    let mut writer = Vec::new();
    let options = P4kWriterOptions {
        sector_size: 4096,
        ..Default::default()
    };
    let entries = vec![P4kEntryRef {
        name: "overflow.bin",
        local_header_offset: 0,
        compressed_size: 0,
        uncompressed_size: 0,
        compression_method: CompressionMethod::Store,
        crc32: 0,
        last_mod_file_time: 0,
        last_mod_file_date: 0,
        is_encrypted: false,
        signature: [0; 128],
        sha256: [0; 32],
        bytes_already_written: 0,
    }];

    let err = write_v2_tail(
        &mut writer,
        u64::MAX - 10,
        &entries,
        &vec![],
        u64::MAX - 10,
        &options,
        false,
    )
    .unwrap_err();
    assert!(
        err.message().contains("v2 CDR offset overflow"),
        "expected CDR offset overflow rejection, got {}",
        err.message()
    );
    assert!(writer.is_empty());
}

fn test_raw_entry(name: &str, payload_offset: u64, payload_len: u64) -> P4kRawEntryRef<'_> {
    P4kRawEntryRef {
        name,
        payload_len,
        local_header_offset: payload_offset.saturating_sub(DEFAULT_SECTOR_SIZE),
        payload_offset,
        local_record_size: DEFAULT_SECTOR_SIZE,
        uncompressed_size: payload_len,
        compression_method: CompressionMethod::Store,
        is_encrypted: false,
        crc32: 0,
        last_mod_file_time: 0,
        last_mod_file_date: 0,
        signature: [0; 128],
        sha256: [0; 32],
        bytes_already_written: payload_len,
    }
}

#[test]
fn merged_free_ranges_are_sorted_apart_and_merge_no_further() {
    let mut blocks = vec![
        block(300, 10),
        block(0, 0),
        block(40, 8),
        block(32, 8),
        block(310, 5),
        block(48, 1),
    ];
    merge_freelist_blocks(&mut blocks).unwrap();
    assert_eq!(blocks, vec![block(32, 17), block(300, 15)]);

    let merged = blocks.clone();
    merge_freelist_blocks(&mut blocks).unwrap();
    assert_eq!(blocks, merged);
}

#[test]
fn a_merge_that_fails_leaves_the_ranges_in_order() {
    let mut blocks = vec![
        block(u64::MAX, 1),
        block(9, 0),
        block(4, u64::MAX - 4),
        block(2, 2),
        block(0, 2),
        block(u64::MAX, 9),
    ];
    let err = merge_freelist_blocks(&mut blocks).unwrap_err();
    assert!(err
        .message()
        .contains("merged freelist block size overflow"));
    assert_eq!(
        blocks,
        vec![
            block(0, u64::MAX),
            block(2, 2),
            block(4, u64::MAX - 4),
            block(u64::MAX, 1),
            block(u64::MAX, 9),
        ]
    );
}

#[test]
fn the_checksum_of_a_stored_payload_is_taken_of_its_bytes() {
    validate_stored_crc32_metadata(b"plain", 99, false, hash_bytes(b"plain")).unwrap();
    let err = validate_stored_crc32_metadata(b"plain", 5, false, 1).unwrap_err();
    assert!(err
        .message()
        .contains("stored payload CRC32C metadata does not match uncompressed bytes"));

    let mut sealed = encrypt(b"sixteen bytes ok").unwrap();
    validate_stored_crc32_metadata(&sealed, 7, true, hash_bytes(b"sixteen")).unwrap();
    let err = validate_stored_crc32_metadata(&sealed, 17, true, 0).unwrap_err();
    assert!(err
        .message()
        .contains("stored decompressed size mismatch: expected 17, got 16"));
    sealed.push(0);
    validate_stored_crc32_metadata(&sealed, 16, true, hash_bytes(b"sixteen bytes ok")).unwrap();
    let err = validate_stored_crc32_metadata(&sealed, 17, true, 0).unwrap_err();
    assert!(err
        .message()
        .contains("encrypted data length must be a multiple of 16 bytes"));
}
