use sha2::{Digest, Sha256};

use svarog_p4k::archive::v1::read_v1_p4k_cd_entry_at;
use svarog_p4k::crc::{hash_bytes, hash_bytes_with_seed};
use svarog_p4k::writer::deferred::{defers_file, DeferredFile};
use svarog_p4k::writer::dump::{plan_dump, repeats_path};
use svarog_p4k::zip::{
    CentralDirectoryHeaderV2, CompressionMethod, Eocd2Record, CDR_V2_ENTRY_SIZE, EOCD_V2_MAGIC,
    EOCD_V2_SIZE, EOCD_V2_VERSION,
};
use svarog_p4k::{
    convert_v1_to_v2, Error, P4kArchive, P4kBuilder, P4kEntryMetadata, P4kVersion,
    P4kWriterOptions,
};

const SECTOR_SIZE: u64 = 0x100;

const METHODS: [CompressionMethod; 5] = [
    CompressionMethod::Store,
    CompressionMethod::Deflate,
    CompressionMethod::DeflateZlib,
    CompressionMethod::Zstd,
    CompressionMethod::ZstdDeprecated,
];

fn options(compression: CompressionMethod) -> P4kWriterOptions {
    P4kWriterOptions {
        sector_size: SECTOR_SIZE,
        compression,
        ..Default::default()
    }
}

fn sha256_array(data: &[u8]) -> [u8; 32] {
    Sha256::digest(data).into()
}

fn field_u64(bytes: &[u8], at: usize) -> u64 {
    u64::from_le_bytes(bytes[at..at + 8].try_into().unwrap())
}

/// A builder with one entry for each method, plain and encrypted.
fn full_builder() -> (P4kBuilder, Vec<(String, Vec<u8>, CompressionMethod, bool)>) {
    let mut builder = P4kBuilder::with_options(options(CompressionMethod::Zstd));
    let mut files = Vec::new();
    for (i, method) in METHODS.into_iter().enumerate() {
        for encrypted in [false, true] {
            let name = format!("Data/Part{i}/{}.bin", if encrypted { "Secret" } else { "Plain" });
            let data = format!("contents of {name} ").repeat(10 + i).into_bytes();
            let metadata = P4kEntryMetadata {
                last_mod_file_time: 0x1230 + i as u16,
                last_mod_file_date: 0x5670 + i as u16,
                signature: [i as u8 + 1; 128],
            };
            builder
                .add_bytes_with_entry_metadata(&name, &data, method, encrypted, metadata)
                .unwrap();
            files.push((name, data, method, encrypted));
        }
    }
    (builder, files)
}

fn check_full_archive(archive: &P4kArchive, files: &[(String, Vec<u8>, CompressionMethod, bool)]) {
    assert_eq!(archive.entry_count(), files.len());
    for (name, data, method, encrypted) in files {
        let entry = archive.find(&name.to_uppercase().replace('/', "\\")).unwrap();
        assert_eq!(entry.name, name);
        assert_eq!(entry.compression_method, *method);
        assert_eq!(entry.is_encrypted, *encrypted);
        assert_eq!(entry.uncompressed_size, data.len() as u64);
        assert_eq!(entry.crc32, hash_bytes(data));
        assert_eq!(&archive.read(&entry).unwrap(), data);
        let mut extracted = Vec::new();
        archive.extract_to_writer(&entry, &mut extracted).unwrap();
        assert_eq!(&extracted, data);
        let mut raw = Vec::new();
        archive
            .extract_raw_payload_to_writer(&entry, &mut raw)
            .unwrap();
        assert_eq!(raw.len() as u64, entry.compressed_size);
        assert_eq!(sha256_array(&raw), entry.sha256);
        assert_eq!(archive.decoded_crc32(&entry).unwrap(), entry.crc32);
        archive.verify_entry_integrity(&entry).unwrap();
        archive.verify_entry_integrity_fast(&entry).unwrap();
    }
    archive.verify_integrity().unwrap();
    archive.verify_payloads_sha256().unwrap();
    archive.verify_payloads_sha256_physical_order().unwrap();
}

#[test]
fn what_is_written_as_v2_reads_back() {
    let (builder, files) = full_builder();
    let mut bytes = Vec::new();
    let stats = builder.write_to(&mut bytes).unwrap();
    assert_eq!(stats.entry_count, files.len());
    assert_eq!(stats.file_size, bytes.len() as u64);
    let archive = P4kArchive::from_bytes("full.p4k", &bytes).unwrap();
    assert_eq!(archive.name(), "full.p4k");
    assert_eq!(archive.version(), P4kVersion::V2);
    assert_eq!(archive.v1_payload_placement_kind(), None);
    check_full_archive(&archive, &files);
}

#[test]
fn what_is_written_as_v1_reads_back() {
    let (builder, files) = full_builder();
    let mut bytes = Vec::new();
    let stats = builder.write_v1_to(&mut bytes).unwrap();
    assert_eq!(stats.entry_count, files.len());
    assert_eq!(stats.file_size, bytes.len() as u64);
    let archive = P4kArchive::from_bytes("full.p4k", &bytes).unwrap();
    assert_eq!(archive.version(), P4kVersion::V1);
    assert_eq!(archive.v1_payload_placement_kind(), Some("aligned_record"));
    check_full_archive(&archive, &files);
}

#[test]
fn what_is_converted_reads_back() {
    let (builder, files) = full_builder();
    let mut v1 = Vec::new();
    builder.write_v1_to(&mut v1).unwrap();
    let (v2, stats) = convert_v1_to_v2(&v1, options(CompressionMethod::Store)).unwrap();
    assert_eq!(stats.entry_count, files.len());
    assert_eq!(stats.file_size, v2.len() as u64);

    let source = P4kArchive::from_bytes("v1.p4k", &v1).unwrap();
    let archive = P4kArchive::from_bytes("v2.p4k", &v2).unwrap();
    assert_eq!(archive.version(), P4kVersion::V2);
    check_full_archive(&archive, &files);
    for (old, new) in source.iter().iter().zip(archive.iter()) {
        assert_eq!(old.name, new.name);
        assert_eq!(old.last_mod_file_time, new.last_mod_file_time);
        assert_eq!(old.last_mod_file_date, new.last_mod_file_date);
        assert_eq!(old.signature, new.signature);
        assert_eq!(old.sha256, new.sha256);
        assert_eq!(old.bytes_already_written, new.bytes_already_written);
        let at = source.payload_offset(old).unwrap();
        assert_eq!(new.local_header_offset, at);
        let range = at as usize..(at + new.compressed_size) as usize;
        assert_eq!(v1[range.clone()], v2[range]);
    }
    let err = convert_v1_to_v2(&v2, options(CompressionMethod::Store)).unwrap_err();
    assert_eq!(err.message(), "I/O error: source archive is not P4K v1");
}

#[test]
fn an_archive_can_stand_behind_other_bytes() {
    let mut builder = P4kBuilder::with_options(options(CompressionMethod::Store));
    builder.add_bytes("a.bin", b"payload").unwrap();
    let mut bytes = vec![7u8; SECTOR_SIZE as usize];
    builder.write_to(&mut bytes).unwrap();
    assert!(bytes[..SECTOR_SIZE as usize].iter().all(|b| *b == 7));
    let archive = P4kArchive::from_bytes("tail.p4k", &bytes).unwrap();
    let entry = archive.get(0).unwrap();
    assert_eq!(entry.local_header_offset, SECTOR_SIZE);
    assert_eq!(archive.read(&entry).unwrap(), b"payload");

    let mut bytes = vec![7u8; SECTOR_SIZE as usize];
    let stats = builder.write_v1_to(&mut bytes).unwrap();
    assert!(bytes[..SECTOR_SIZE as usize].iter().all(|b| *b == 7));
    assert_eq!(stats.file_size, bytes.len() as u64);
    let archive = P4kArchive::from_bytes("tail.p4k", &bytes).unwrap();
    assert_eq!(archive.version(), P4kVersion::V1);
    let entry = archive.get(0).unwrap();
    assert_eq!(entry.local_header_offset, SECTOR_SIZE);
    assert_eq!(archive.read(&entry).unwrap(), b"payload");
}

#[test]
fn payloads_of_a_v1_archive_are_found_behind_the_whole_records() {
    let mut builder = P4kBuilder::with_options(options(CompressionMethod::Store));
    let zeroes = [0u8; 0x300];
    builder.add_bytes("zeroes.bin", &zeroes).unwrap();
    builder.add_bytes("one.bin", b"\0\0\x01").unwrap();
    let mut bytes = Vec::new();
    builder.write_v1_to(&mut bytes).unwrap();
    let archive = P4kArchive::from_bytes("zeroes.p4k", &bytes).unwrap();
    // One entry is taken for a payload behind the header sector, and the other is not.
    assert_eq!(archive.v1_payload_placement_kind(), Some("unknown"));
    for (name, data) in [("zeroes.bin", &zeroes[..]), ("one.bin", b"\0\0\x01")] {
        let entry = archive.find(name).unwrap();
        let mut out = Vec::new();
        archive.extract_to_writer(&entry, &mut out).unwrap();
        assert_eq!(out, data);
        archive.verify_entry_integrity(&entry).unwrap();
    }

    let mut builder = P4kBuilder::with_options(options(CompressionMethod::Store));
    builder.add_bytes("one.bin", b"\0\0\x01").unwrap();
    builder.add_bytes("two.bin", b"\x02").unwrap();
    let mut bytes = Vec::new();
    builder.write_v1_to(&mut bytes).unwrap();
    let archive = P4kArchive::from_bytes("ones.p4k", &bytes).unwrap();
    assert_eq!(archive.v1_payload_placement_kind(), Some("aligned_record"));
    let entry = archive.find("two.bin").unwrap();
    let mut out = Vec::new();
    archive.extract_to_writer(&entry, &mut out).unwrap();
    assert_eq!(out, b"\x02");
}

#[test]
fn local_names_are_as_long_as_the_names_of_their_entries() {
    let mut builder = P4kBuilder::with_options(options(CompressionMethod::Store));
    builder.add_bytes("Data/name.bin", b"payload").unwrap();
    let mut good = Vec::new();
    builder.write_v1_to(&mut good).unwrap();
    assert_eq!(&good[30..43], b"Data/name.bin");
    for (local, accepted) in [
        (&b"DATA\\NAME.BIN"[..], true),
        (b"Data/name.bi\xFF", false),
        (b"Data/name.bi\0", false),
        (b"Data//name.bi", false),
    ] {
        let mut bytes = good.clone();
        bytes[30..43].copy_from_slice(local);
        let archive = P4kArchive::from_bytes("names.p4k", &bytes).unwrap();
        let entry = archive.get(0).unwrap();
        let known = archive.known_payload_offset(&entry);
        match archive.payload_offset(&entry) {
            Ok(at) => {
                assert!(accepted);
                assert_eq!(known, Some(at));
                assert_eq!(archive.read(&entry).unwrap(), b"payload");
            }
            Err(err) => {
                assert!(!accepted);
                assert_eq!(
                    err.message(),
                    "malformed P4K v1 CDR entry: local header file name does not match CDR"
                );
            }
        }
    }
}

#[test]
fn the_deflate_level_matters_to_deflate_only() {
    let mut builder = P4kBuilder::with_options(P4kWriterOptions {
        deflate_level: 50,
        ..options(CompressionMethod::Zstd)
    });
    builder.add_bytes("a.bin", b"payload").unwrap();
    builder
        .add_bytes_with_method("b.bin", b"payload", CompressionMethod::Store)
        .unwrap();
    builder
        .add_bytes_with_method("c.bin", b"", CompressionMethod::Deflate)
        .unwrap();
    let mut bytes = Vec::new();
    builder.write_to(&mut bytes).unwrap();
    let archive = P4kArchive::from_bytes("levels.p4k", &bytes).unwrap();
    for (name, data) in [("a.bin", &b"payload"[..]), ("b.bin", b"payload"), ("c.bin", b"")] {
        let entry = archive.find(name).unwrap();
        assert_eq!(archive.read(&entry).unwrap(), data);
    }
}

#[test]
fn a_conversion_frees_what_the_local_records_took() {
    let mut builder = P4kBuilder::with_options(options(CompressionMethod::Store));
    builder.add_bytes("a.bin", &[1; 0x200]).unwrap();
    builder.add_bytes("b.bin", &[2; 0x100]).unwrap();
    let mut v1 = Vec::new();
    builder.write_v1_to(&mut v1).unwrap();
    let (v2, _) = convert_v1_to_v2(
        &v1,
        P4kWriterOptions {
            manifest_sha256: [9; 64],
            ..options(CompressionMethod::Store)
        },
    )
    .unwrap();

    let source = P4kArchive::from_bytes("v1.p4k", &v1).unwrap();
    let archive = P4kArchive::from_bytes("v2.p4k", &v2).unwrap();
    assert_eq!(archive.layout().manifest_sha256, Some([9; 64]));
    assert_eq!(archive.layout().physical_sector_size, Some(SECTOR_SIZE));
    let records: Vec<(u64, u64)> = source
        .raw_entries()
        .unwrap()
        .iter()
        .map(|raw| (raw.local_header_offset, raw.local_record_size))
        .collect();
    let free: Vec<(u64, u64)> = archive
        .freelist_blocks()
        .iter()
        .map(|block| (block.offset, block.size))
        .collect();
    assert_eq!(records.len(), 2);
    assert_eq!(free, records);
}

#[test]
fn entries_are_found_under_any_spelling() {
    let (builder, files) = full_builder();
    let mut bytes = Vec::new();
    builder.write_to(&mut bytes).unwrap();
    let archive = P4kArchive::from_bytes("full.p4k", &bytes).unwrap();
    for (name, _, _, _) in &files {
        for spelling in [
            name.clone(),
            name.to_lowercase(),
            name.to_uppercase(),
            name.replace('/', "\\"),
        ] {
            assert_eq!(archive.find(&spelling).unwrap().name, name);
        }
    }
    assert!(archive.find("Data/Part0/Other.bin").is_none());
}

#[test]
fn bad_options_are_refused_before_anything_is_written() {
    for sector_size in [0, 3, 0x180] {
        let mut builder = P4kBuilder::with_options(P4kWriterOptions {
            sector_size,
            ..Default::default()
        });
        builder.add_bytes("a.bin", b"payload").unwrap();
        let mut bytes = b"kept".to_vec();
        for result in [builder.write_to(&mut bytes), builder.write_v1_to(&mut bytes)] {
            assert_eq!(
                result.unwrap_err().message(),
                "I/O error: sector size must be a non-zero power of two"
            );
        }
        assert_eq!(bytes, b"kept");
    }
    let builder = P4kBuilder::with_options(P4kWriterOptions {
        sector_size: 0x1_0000,
        ..Default::default()
    });
    let mut bytes = Vec::new();
    assert_eq!(
        builder.write_v1_to(&mut bytes).unwrap_err().message(),
        "I/O error: v1 sector size must fit in u16"
    );
    assert!(builder.write_to(&mut bytes).is_ok());
}

#[test]
fn v2_layout_of_one_stored_entry() {
    let mut builder = P4kBuilder::with_options(options(CompressionMethod::Store));
    builder
        .add_bytes("dir\\./sub//../file.txt   ", b"abc")
        .unwrap();
    let mut bytes = Vec::new();
    let stats = builder.write_to(&mut bytes).unwrap();
    assert_eq!(stats.entry_count, 1);
    assert_eq!(stats.payload_end, SECTOR_SIZE);
    assert_eq!(stats.cdr_offset, 0x1_0000);
    assert_eq!(stats.cdr_size, CDR_V2_ENTRY_SIZE as u64);
    assert_eq!(stats.name_table_size, 13);
    assert_eq!(stats.file_size, bytes.len() as u64);

    assert_eq!(&bytes[..3], b"abc");
    assert!(bytes[3..SECTOR_SIZE as usize].iter().all(|b| *b == 0));
    assert_eq!(field_u64(&bytes, SECTOR_SIZE as usize), 3);
    let record = CentralDirectoryHeaderV2::read(&bytes, 0x1_0000);
    assert_eq!(record.compression_method, 0);
    assert_eq!(record.crc32, hash_bytes(b"abc"));
    assert_eq!(record.compressed_size, 3);
    assert_eq!(record.uncompressed_size, 3);
    assert_eq!(record.offset_to_file_data, 0);
    assert_eq!(record.offset_to_filename, 0);
    assert_eq!(record.sha256, sha256_array(b"abc"));
    let names = 0x1_0000 + CDR_V2_ENTRY_SIZE;
    assert_eq!(&bytes[names..names + 13], b"dir/file.txt\0");

    let trailer = Eocd2Record::read(&bytes, bytes.len() - EOCD_V2_SIZE);
    assert_eq!(trailer.num_file_entries, 1);
    assert_eq!(trailer.reserved_08, 0);
    assert_eq!(trailer.end_of_file_block_offset, stats.cdr_offset);
    assert_eq!(trailer.cdr_size, stats.cdr_size);
    assert_eq!(trailer.reserved_20, 0);
    assert_eq!(trailer.name_table_abs_offset, names as u64);
    assert_eq!(trailer.total_name_length, 13);
    assert_eq!(trailer.reserved_38, 0);
    assert_eq!(trailer.end_of_payload, SECTOR_SIZE);
    assert_eq!(trailer.num_freelist_blocks, 0);
    assert_eq!(trailer.trie_cache_offset, names as u64 + 13);
    assert_eq!(trailer.trie_cache_size, 60);
    let cache = &bytes[names + 13..names + 13 + 60];
    assert_eq!(cache[..16], [24, 0, 0, 0, 1, 0, 0, 0, 16, 0, 0, 0, 0, 0, 0, 0]);
    assert!(cache[16..].iter().all(|b| *b == 0));
    assert_eq!(trailer.physical_sector_size, SECTOR_SIZE);
    assert_eq!(trailer.status_flags, 0);
    assert_eq!(trailer.version, EOCD_V2_VERSION);
    assert_eq!(trailer.magic, EOCD_V2_MAGIC);

    let archive = P4kArchive::from_bytes("one.p4k", &bytes).unwrap();
    let layout = archive.layout();
    assert_eq!(layout.file_size, bytes.len() as u64);
    assert_eq!(layout.actual_content_end, bytes.len() as u64);
    assert_eq!(layout.physical_sector_size, Some(SECTOR_SIZE));
    assert_eq!(layout.cdr_offset, stats.cdr_offset);
    assert_eq!(layout.cdr_size, stats.cdr_size);
    assert_eq!(layout.name_table_offset, Some(names as u64));
    assert_eq!(layout.name_table_size, 13);
    assert_eq!(layout.end_of_payload, Some(SECTOR_SIZE));
    assert_eq!(layout.install_block_offset, Some(SECTOR_SIZE));
    assert_eq!(
        layout.install_block_size,
        Some(stats.cdr_offset - SECTOR_SIZE)
    );
    assert_eq!(layout.eocd_offset, (bytes.len() - EOCD_V2_SIZE) as u64);
    assert_eq!(layout.manifest_sha256, Some([0u8; 64]));
    assert!(archive.freelist_blocks().is_empty());
    assert_eq!(
        archive.find("DIR\\./SUB//../FILE.TXT   ").unwrap().name,
        "dir/file.txt"
    );
    assert!(archive.find("dir/other.txt").is_none());
}

#[test]
fn v2_layout_of_an_empty_archive() {
    let builder = P4kBuilder::with_options(options(CompressionMethod::Zstd));
    let mut bytes = Vec::new();
    let stats = builder.write_to(&mut bytes).unwrap();
    assert_eq!(stats.entry_count, 0);
    assert_eq!(stats.payload_end, 0);
    assert_eq!(stats.cdr_offset, 0);
    assert_eq!(stats.cdr_size, 0);
    assert_eq!(stats.name_table_size, 0);
    assert_eq!(stats.file_size, SECTOR_SIZE);
    assert_eq!(bytes.len(), SECTOR_SIZE as usize);
    let at = bytes.len() - EOCD_V2_SIZE;
    assert_eq!(bytes[..16], [24, 0, 0, 0, 0, 0, 0, 0, 16, 0, 0, 0, 0, 0, 0, 0]);
    assert!(bytes[16..at].iter().all(|b| *b == 0));
    assert_eq!(field_u64(&bytes, at + 0x60), SECTOR_SIZE);

    let archive = P4kArchive::from_bytes("empty.p4k", &bytes).unwrap();
    assert_eq!(archive.version(), P4kVersion::V2);
    assert_eq!(archive.entry_count(), 0);
    assert!(archive.freelist_blocks().is_empty());
    archive.verify_integrity().unwrap();
    assert!(archive.get(0).is_none());
    assert!(matches!(
        archive.read_index(0).unwrap_err(),
        Error::EntryNotFound(_) | Error::Io { .. }
    ));
}

#[test]
fn reserved_v2_fields_must_be_zero_and_the_archive_complete() {
    let mut builder = P4kBuilder::with_options(options(CompressionMethod::Store));
    builder.add_bytes("a.bin", b"payload").unwrap();
    let mut good = Vec::new();
    builder.write_to(&mut good).unwrap();
    let at = good.len() - EOCD_V2_SIZE;
    for (offset, name) in [
        (0x08, "reserved_08"),
        (0x20, "reserved_20"),
        (0x38, "reserved_38"),
    ] {
        let mut bytes = good.clone();
        bytes[at + offset] = 1;
        let err = P4kArchive::from_bytes("bad.p4k", &bytes).unwrap_err();
        assert_eq!(
            err.message(),
            format!("malformed P4K v2 EOCDR: {name} is 1, expected 0")
        );
    }
    for flag in [1, 3] {
        let mut bytes = good.clone();
        bytes[at + 0x68] = flag;
        let err = P4kArchive::from_bytes("bad.p4k", &bytes).unwrap_err();
        assert_eq!(
            err.message(),
            format!("malformed P4K v2 EOCDR: status flags {flag} have the incomplete bit set")
        );
    }
    let mut bytes = good.clone();
    bytes[at + 0x68] = 2;
    assert!(P4kArchive::from_bytes("good.p4k", &bytes).is_ok());
    let mut bytes = good.clone();
    bytes[at + 0x50] ^= 1;
    let err = P4kArchive::from_bytes("bad.p4k", &bytes).unwrap_err();
    assert!(err.message().contains("trie cache offset"), "{}", err.message());
    let mut bytes = good.clone();
    bytes[at + 0xA9] = 3;
    assert!(matches!(
        P4kArchive::from_bytes("bad.p4k", &bytes).unwrap_err(),
        Error::UnsupportedVersion(3)
    ));
}

#[test]
fn empty_files_are_neither_compressed_nor_encrypted() {
    let mut builder = P4kBuilder::with_options(options(CompressionMethod::Zstd));
    builder
        .add_bytes_with_method_encrypted("empty-bytes.bin", b"", CompressionMethod::Zstd)
        .unwrap()
        .add_file_encrypted(b"", None, "empty-file.bin")
        .unwrap();
    let mut v2 = Vec::new();
    builder.write_to(&mut v2).unwrap();
    let mut v1 = Vec::new();
    builder.write_v1_to(&mut v1).unwrap();
    for bytes in [&v2, &v1] {
        let archive = P4kArchive::from_bytes("empty.p4k", bytes).unwrap();
        assert_eq!(archive.entry_count(), 2);
        for name in ["empty-bytes.bin", "empty-file.bin"] {
            let entry = archive.find(name).unwrap();
            assert_eq!(entry.compression_method, CompressionMethod::Store);
            assert!(!entry.is_encrypted);
            assert_eq!(entry.compressed_size, 0);
            assert_eq!(entry.uncompressed_size, 0);
            assert_eq!(entry.crc32, hash_bytes(b""));
            assert_eq!(entry.sha256, sha256_array(b""));
            assert_eq!(archive.known_payload_offset(&entry), Some(0));
            assert!(archive.read(&entry).unwrap().is_empty());
            archive.verify_entry_integrity(&entry).unwrap();
        }
    }
}

#[test]
fn files_keep_their_times() {
    let mut builder = P4kBuilder::with_options(options(CompressionMethod::Store));
    // 2024-01-01 00:00:00
    builder
        .add_file(b"dated", Some(1_704_067_200), "dated.txt")
        .unwrap();
    builder.add_file(b"undated", None, "undated.txt").unwrap();
    let mut bytes = Vec::new();
    builder.write_to(&mut bytes).unwrap();
    let archive = P4kArchive::from_bytes("times.p4k", &bytes).unwrap();
    let dated = archive.find("dated.txt").unwrap();
    assert_eq!((dated.last_mod_file_time, dated.last_mod_file_date), (0, 0x5821));
    let undated = archive.find("undated.txt").unwrap();
    assert_eq!((undated.last_mod_file_time, undated.last_mod_file_date), (0, 0));

    let entries = archive.entries();
    assert_eq!(entries.len(), 2);
    for entry in &entries {
        if entry.name() == "dated.txt" {
            assert_eq!(entry.last_modified(), Some(1_704_067_200));
            assert_eq!(archive.read_entry(entry).unwrap(), b"dated");
        } else {
            assert_eq!(entry.last_modified(), None);
        }
    }
}

#[test]
fn staged_entries_are_appended_in_caller_order() {
    let staging = options(CompressionMethod::Zstd);
    let mut staged = Vec::new();
    for name in ["b.bin", "a.bin"] {
        staged.push(
            P4kBuilder::stage_file_with_options(&staging, name.as_bytes(), None, name, true)
                .unwrap(),
        );
    }
    assert!(P4kBuilder::stage_file_with_options(&staging, b"x", None, "/bad", false).is_err());
    let mut builder = P4kBuilder::with_options(options(CompressionMethod::Zstd));
    builder.add_bytes("first.bin", b"first").unwrap();
    builder.append_staged(staged);
    let mut other = P4kBuilder::new();
    other.add_bytes("last.bin", b"last").unwrap();
    builder.append(other);
    assert_eq!(builder.len(), 4);
    let names: Vec<&str> = builder.entries().iter().map(|e| e.name.as_str()).collect();
    assert_eq!(names, ["first.bin", "b.bin", "a.bin", "last.bin"]);
    builder.options_mut().sector_size = 512;
    assert_eq!(builder.options().sector_size, 512);

    let mut bytes = Vec::new();
    builder.write_to(&mut bytes).unwrap();
    let archive = P4kArchive::from_bytes("staged.p4k", &bytes).unwrap();
    assert_eq!(archive.read(&archive.find("a.bin").unwrap()).unwrap(), b"a.bin");
    assert_eq!(archive.read(&archive.find("last.bin").unwrap()).unwrap(), b"last");
}

#[test]
fn deferred_files_are_read_when_the_archive_is_written() {
    let store = options(CompressionMethod::Store);
    assert!(defers_file(&store, 5, false));
    assert!(!defers_file(&store, 5, true));
    assert!(!defers_file(&options(CompressionMethod::Zstd), 5, false));
    assert!(defers_file(&options(CompressionMethod::Zstd), 0, true));

    let metadata = P4kEntryMetadata::modified(Some(1_704_067_200));
    let file = DeferredFile::new("/tmp/in.bin", "Data\\In.bin", 5, metadata).unwrap();
    assert_eq!(file.length(), 5);
    let err = file.resolve(b"longer").unwrap_err();
    assert_eq!(
        err.message(),
        "I/O error: staged file changed before archive write: /tmp/in.bin"
    );
    let mut builder = P4kBuilder::with_options(store);
    builder.append_staged(vec![file.resolve(b"12345").unwrap()]);
    let entry = &builder.entries()[0];
    assert_eq!(entry.name, "Data/In.bin");
    assert_eq!(entry.payload, b"12345");
    assert_eq!(entry.crc32, hash_bytes(b"12345"));
    assert_eq!(entry.sha256, sha256_array(b"12345"));
    assert_eq!(entry.last_mod_file_date, 0x5821);
    assert!(DeferredFile::new("/tmp/in.bin", "..", 5, metadata).is_err());
}

#[test]
fn dumps_leave_directories_out_and_stay_below() {
    let mut builder = P4kBuilder::with_options(options(CompressionMethod::Store));
    builder.add_bytes("a/b/c.txt", b"longest").unwrap();
    builder.add_bytes("A.txt", b"short").unwrap();
    let mut bytes = Vec::new();
    builder.write_to(&mut bytes).unwrap();
    let archive = P4kArchive::from_bytes("dump.p4k", &bytes).unwrap();
    let tasks = plan_dump(&archive).unwrap();
    let plan: Vec<(usize, &str)> = tasks.iter().map(|t| (t.index, t.path.as_str())).collect();
    assert_eq!(plan, [(0, "a/b/c.txt"), (1, "A.txt")]);
    assert!(!repeats_path(&tasks));
    let mut out = Vec::new();
    archive.extract_index_to_writer(0, &mut out).unwrap();
    assert_eq!(out, b"longest");

    let mut builder = P4kBuilder::with_options(options(CompressionMethod::Store));
    builder.add_bytes("x.bin", b"1").unwrap();
    builder.add_bytes("dup.bin", b"first").unwrap();
    builder.add_bytes("dup.bin", b"second").unwrap();
    let mut bytes = Vec::new();
    builder.write_to(&mut bytes).unwrap();
    let archive = P4kArchive::from_bytes("dup.p4k", &bytes).unwrap();
    assert!(repeats_path(&plan_dump(&archive).unwrap()));

    let mut builder = P4kBuilder::with_options(options(CompressionMethod::Store));
    builder.add_bytes("c:evil.bin", b"1").unwrap();
    let mut bytes = Vec::new();
    builder.write_to(&mut bytes).unwrap();
    let archive = P4kArchive::from_bytes("evil.p4k", &bytes).unwrap();
    assert_eq!(
        plan_dump(&archive).unwrap_err().message(),
        "I/O error: unsafe archive path: c:evil.bin"
    );
}

#[test]
fn physical_order_follows_the_payloads() {
    let mut builder = P4kBuilder::with_options(options(CompressionMethod::Store));
    builder.add_bytes("late.bin", b"late").unwrap();
    builder.add_bytes("empty.bin", b"").unwrap();
    builder.add_bytes("early.bin", b"early").unwrap();
    let mut bytes = Vec::new();
    builder.write_to(&mut bytes).unwrap();
    let archive = P4kArchive::from_bytes("order.p4k", &bytes).unwrap();
    let names: Vec<&str> = archive
        .physical_order()
        .into_iter()
        .map(|i| archive.get(i).unwrap().name)
        .collect();
    assert_eq!(names, ["early.bin", "empty.bin", "late.bin"]);
}

#[test]
fn checksums_can_be_taken_in_pieces() {
    let data = b"The quick brown fox jumps over the lazy dog";
    for cut in [0, 1, 17, data.len()] {
        let first = hash_bytes_with_seed(&data[..cut], 0);
        assert_eq!(hash_bytes_with_seed(&data[cut..], first), hash_bytes(data));
    }
    assert_eq!(hash_bytes(b""), 0);
    assert_eq!(hash_bytes(data), 0x2262_0404);
}

#[test]
fn the_order_of_adding_leaves_no_trace() {
    let files = [
        ("b/Second.bin", b"second".repeat(9)),
        ("a/First.bin", b"first".repeat(30)),
        ("C.bin", Vec::new()),
        ("b/Second.bin.bak", vec![0u8; 5]),
    ];
    let mut images = Vec::new();
    for order in [[0, 1, 2, 3], [3, 2, 1, 0], [2, 0, 3, 1]] {
        let mut builder = P4kBuilder::with_options(options(CompressionMethod::Zstd));
        for i in order {
            builder
                .add_bytes_with_entry_metadata(
                    files[i].0,
                    &files[i].1,
                    CompressionMethod::Zstd,
                    false,
                    P4kEntryMetadata::default(),
                )
                .unwrap();
        }
        let mut v1 = Vec::new();
        builder.write_v1_to(&mut v1).unwrap();
        let mut v2 = Vec::new();
        builder.write_to(&mut v2).unwrap();
        images.push((v1, v2));
    }
    assert_eq!(images[0], images[1]);
    assert_eq!(images[0], images[2]);
    let archive = P4kArchive::from_bytes("sorted.p4k", &images[0].1).unwrap();
    let names: Vec<String> = archive
        .iter()
        .iter()
        .map(|entry| entry.name.to_string())
        .collect();
    assert_eq!(
        names,
        ["a/First.bin", "b/Second.bin", "b/Second.bin.bak", "C.bin"]
    );
}

#[test]
fn what_was_added_is_found_under_the_name_it_was_added_with() {
    let payloads: [&[u8]; 4] = [b"", b"x", &[0u8; 40], b"ends in zeroes\0\0\0"];
    for method in METHODS {
        let mut builder = P4kBuilder::with_options(options(method));
        for (i, payload) in payloads.iter().enumerate() {
            let metadata = P4kEntryMetadata {
                last_mod_file_time: 0x0841 + i as u16,
                last_mod_file_date: 0x5821 + i as u16,
                signature: [0x30 + i as u8; 128],
            };
            builder
                .add_bytes_with_entry_metadata(
                    &format!("Some\\Dir//{i}.Bin"),
                    payload,
                    method,
                    i == 1,
                    metadata,
                )
                .unwrap();
        }
        let mut v1 = Vec::new();
        builder.write_v1_to(&mut v1).unwrap();
        let mut v2 = Vec::new();
        builder.write_to(&mut v2).unwrap();
        for bytes in [v1, v2] {
            let archive = P4kArchive::from_bytes("added.p4k", &bytes).unwrap();
            for (i, payload) in payloads.iter().enumerate() {
                let entry = archive.find(&format!("Some\\Dir//{i}.Bin")).unwrap();
                assert_eq!(entry.last_mod_file_time, 0x0841 + i as u16);
                assert_eq!(entry.last_mod_file_date, 0x5821 + i as u16);
                assert_eq!(entry.signature, [0x30 + i as u8; 128]);
                assert_eq!(entry.uncompressed_size, payload.len() as u64);
                assert_eq!(&archive.read(&entry).unwrap(), payload);
                archive.verify_entry_integrity(&entry).unwrap();
            }
        }
    }
}

#[test]
fn a_directory_record_reads_back_where_it_stands() {
    let (builder, files) = full_builder();
    let mut bytes = Vec::new();
    builder.write_v1_to(&mut bytes).unwrap();
    let archive = P4kArchive::from_bytes("full.p4k", &bytes).unwrap();
    let layout = archive.layout();
    let start = layout.cdr_offset as usize;
    let cd = &bytes[start..start + layout.cdr_size as usize];
    let mut at = 0;
    for index in 0..files.len() {
        let (entry, next) = read_v1_p4k_cd_entry_at(cd, at, index).unwrap();
        let listed = archive.get(index).unwrap();
        assert_eq!(entry.name, listed.name);
        assert_eq!(entry.crc32, listed.crc32);
        assert_eq!(entry.local_header_offset, listed.local_header_offset);
        assert_eq!(next, at + 46 + listed.name.len() + 0xCE);
        at = next;
    }
    assert_eq!(at, cd.len());
}

#[test]
fn of_entries_with_the_same_name_the_first_that_was_written_is_found() {
    let mut builder = P4kBuilder::with_options(options(CompressionMethod::Store));
    builder.add_bytes("Data/Same.bin", b"short").unwrap();
    builder.add_bytes("data\\SAME.bin", b"a longer one").unwrap();
    builder.add_bytes("Data/Other.bin", b"other").unwrap();
    let mut v1 = Vec::new();
    builder.write_v1_to(&mut v1).unwrap();
    let mut v2 = Vec::new();
    builder.write_to(&mut v2).unwrap();
    for (bytes, listed) in [(v1, 2), (v2, 3)] {
        let archive = P4kArchive::from_bytes("same.p4k", &bytes).unwrap();
        assert_eq!(archive.entry_count(), listed);
        let entry = archive.find("DATA/same.BIN").unwrap();
        assert_eq!(entry.name, "data/SAME.bin");
        assert_eq!(archive.read(&entry).unwrap(), b"a longer one");
        let other = archive.find("data/other.bin").unwrap();
        assert_eq!(archive.read(&other).unwrap(), b"other");
    }
}

#[test]
fn a_conversion_to_large_sectors_opens_where_the_directory_starts_on_one() {
    let mut builder = P4kBuilder::with_options(P4kWriterOptions {
        sector_size: 0x4000,
        compression: CompressionMethod::Store,
        ..Default::default()
    });
    let payload = vec![0x5Au8; 0x18000];
    builder.add_bytes("Data/Full.bin", &payload).unwrap();
    builder.add_bytes("Data/Empty.bin", b"").unwrap();
    let mut v1 = vec![7u8; 0x18000];
    builder.write_v1_to(&mut v1).unwrap();

    let large = P4kWriterOptions {
        sector_size: 0x20000,
        ..Default::default()
    };
    let (v2, stats) = convert_v1_to_v2(&v1, large).unwrap();
    assert_eq!(stats.payload_end, 0x38000);
    assert_eq!(stats.cdr_offset, 0x60000);
    let archive = P4kArchive::from_bytes("large.p4k", &v2).unwrap();
    assert_eq!(archive.version(), P4kVersion::V2);
    assert_eq!(archive.entry_count(), 2);
    let entry = archive.find("data/full.bin").unwrap();
    assert_eq!(entry.local_header_offset, 0x20000);
    assert_eq!(archive.read(&entry).unwrap(), payload);
    let empty = archive.find("data/empty.bin").unwrap();
    assert_eq!(empty.local_header_offset, 0);
    assert!(archive.read(&empty).unwrap().is_empty());
}
