use sha2::{Digest, Sha256};

use svarog_p4k::align::v1_local_record_size_from_name_len;
use svarog_p4k::archive::local::checked_local_record_size;
use svarog_p4k::archive::model::P4kEntryCompact;
use svarog_p4k::archive::payload::payload_location_by_local_header;
use svarog_p4k::archive::placement::{detect_v1_payload_placement, V1PayloadPlacement};
use svarog_p4k::archive::v1::parse_entries_sequential;
use svarog_p4k::archive::v1_install::merge_freelist_blocks;
use svarog_p4k::archive::v1_spans::{parse_entries_by_span, scan_cdr_record_spans};
use svarog_p4k::archive::v2::{parse_v2_entries, read_trailer};
use svarog_p4k::archive::v2_names::{
    parse_v2_entries_by_name, parse_v2_names, read_v2_name_offset,
};
use svarog_p4k::crc::hash_bytes;
use svarog_p4k::path::{
    filename_handle_key, normalize_p4k_path, normalize_p4k_path_bytes,
    p4k_path_bytes_need_normalization, NameKey,
};
use svarog_p4k::scan::find_content_end;
use svarog_p4k::zip::central_dir::extra_field;
use svarog_p4k::zip::{
    CentralDirectoryHeader, CompressionMethod, Eocd2Record, LocalFileHeader,
    P4kEncryptionExtraField, P4kSha256ExtraField, P4kSignatureExtraField, P4kZip64ExtraField,
    CDR_V2_ENTRY_SIZE, CDR_V2_OFFSET_TO_FILENAME_OFFSET, EOCD_V2_SIZE,
};
use svarog_p4k::{P4kArchive, P4kBuilder, P4kFreelistBlock, P4kVersion, P4kWriterOptions};

#[test]
fn archive_freelist_merge_rejects_merged_size_overflow() {
    let mut blocks = vec![
        P4kFreelistBlock {
            offset: 0,
            size: u64::MAX,
        },
        P4kFreelistBlock {
            offset: u64::MAX,
            size: 1,
        },
    ];

    let err = merge_freelist_blocks(&mut blocks).unwrap_err();
    assert!(err
        .message()
        .contains("merged freelist block size overflow"));
}

#[test]
fn local_record_size_rejects_payload_before_header() {
    let err = checked_local_record_size(128, 64).unwrap_err();
    assert!(err
        .message()
        .contains("payload offset 64 is before local header offset 128"));
}

#[test]
fn byte_path_normalization_matches_string_path_normalization() {
    for raw in [
        b"Dir\\./Sub//Leaf.txt   ".as_slice(),
        b"Dir/Sub/../Leaf.txt".as_slice(),
        b"Dir\\Mixed/Case.txt".as_slice(),
        b"../escape.bin".as_slice(),
        b"Dir/\xffbad/Leaf.txt ".as_slice(),
    ] {
        let lossy = String::from_utf8_lossy(raw);
        assert_eq!(
            normalize_p4k_path_bytes(raw, false),
            normalize_p4k_path(&lossy, false)
        );
        assert_eq!(
            normalize_p4k_path_bytes(raw, true),
            normalize_p4k_path(&lossy, true)
        );
    }
}

#[test]
fn filename_handle_key_borrows_already_normalized_lowercase_names() {
    match filename_handle_key("data/path/file.bin") {
        NameKey::Borrowed(value) => assert_eq!(value, "data/path/file.bin"),
        NameKey::Owned(value) => panic!("expected borrowed key, got owned {value}"),
    }

    for name in [
        "Data/path/file.bin",
        "data\\path/file.bin",
        "data/path/../file.bin",
        "data/path/file.bin ",
    ] {
        assert_eq!(
            filename_handle_key(name).as_str(),
            normalize_p4k_path(name, true)
        );
        assert!(matches!(filename_handle_key(name), NameKey::Owned(_)));
    }
}

#[test]
fn v2_name_normalization_check_accepts_packed_normalized_names_without_rewrite() {
    assert!(!p4k_path_bytes_need_normalization(
        b"Data/Path/File.bin",
        false
    ));
    for raw in [
        b"Data\\Path/File.bin".as_slice(),
        b"Data//Path/File.bin".as_slice(),
        b"Data/./File.bin".as_slice(),
        b"Data/Path/../File.bin".as_slice(),
        b"Data/Path/File.bin ".as_slice(),
    ] {
        assert!(p4k_path_bytes_need_normalization(raw, false));
    }
}

#[test]
fn v2_name_offset_reader_uses_packed_field_bytes() {
    let mut cdr = vec![0u8; CDR_V2_ENTRY_SIZE * 2];
    cdr[CDR_V2_OFFSET_TO_FILENAME_OFFSET..CDR_V2_OFFSET_TO_FILENAME_OFFSET + 8]
        .copy_from_slice(&17u64.to_le_bytes());
    let second = CDR_V2_ENTRY_SIZE + CDR_V2_OFFSET_TO_FILENAME_OFFSET;
    cdr[second..second + 8].copy_from_slice(&1234u64.to_le_bytes());

    assert_eq!(read_v2_name_offset(&cdr, 0).unwrap(), 17);
    assert_eq!(read_v2_name_offset(&cdr, 1).unwrap(), 1234);

    let err = read_v2_name_offset(&cdr[..second + 7], 1).unwrap_err();
    assert!(err
        .message()
        .contains("CDR name-offset field extends past CDR size"));
}

#[test]
fn detect_v1_payload_placement_uses_actual_zip_local_header_span() {
    let name = "Data/file.bin";
    let payload = b"zip-local-payload";
    let (data, entry) = test_v1_detection_entry(name, payload, 0, false);

    assert_eq!(
        detect_v1_payload_placement(&data, P4kVersion::V1, &vec![entry], Some(4096)),
        V1PayloadPlacement::ZipLocal
    );
}

#[test]
fn detect_v1_payload_placement_recognizes_sector_zip_local_fast_path() {
    let name = "Data/retail-sector-local.bin";
    let payload = b"retail payload after one local-header sector";
    let sector_size = 4096;
    let (data, entry) = test_v1_sector_zip_local_entry(name, payload, sector_size);
    let entries = vec![entry];

    assert_eq!(
        detect_v1_payload_placement(&data, P4kVersion::V1, &entries, Some(sector_size)),
        V1PayloadPlacement::ZipLocalSector
    );

    let mut builder = P4kBuilder::with_options(P4kWriterOptions {
        sector_size,
        compression: CompressionMethod::Store,
        ..Default::default()
    });
    builder.add_bytes(name, payload).unwrap();
    let mut bytes = Vec::new();
    builder.write_v1_to(&mut bytes).unwrap();
    let at = sector_size as usize;
    bytes[at..at + payload.len()].copy_from_slice(payload);
    bytes[2 * at..2 * at + payload.len()].fill(0);

    let archive = P4kArchive::from_bytes("sector.p4k", &bytes).unwrap();
    assert_eq!(archive.v1_payload_placement_kind(), Some("zip_local_sector"));
    let entry = archive.get(0).unwrap();
    assert_eq!(archive.known_payload_offset(&entry), Some(sector_size));
    assert_eq!(archive.stored_payload(&entry).unwrap().0, payload);
    assert_eq!(archive.read(&entry).unwrap(), payload);
}

#[test]
fn payload_offset_resolves_v1_unknown_placement_with_sha256_fallback() {
    let payload = b"payload selected by raw sha";
    let mut builder = P4kBuilder::with_options(P4kWriterOptions {
        compression: CompressionMethod::Store,
        ..Default::default()
    });
    builder
        .add_bytes("Data/unknown-placement.bin", payload)
        .unwrap();
    let mut bytes = Vec::new();
    builder.write_v1_to(&mut bytes).unwrap();

    let archive = P4kArchive::from_bytes("unknown.p4k", &bytes).unwrap();
    let entry = archive.get(0).unwrap();
    let expected_payload_offset = archive.known_payload_offset(&entry);

    let location = payload_location_by_local_header(
        &bytes,
        Some(4096),
        V1PayloadPlacement::Unknown,
        &entry,
    )
    .unwrap();
    assert_eq!(location.offset, expected_payload_offset.unwrap());
    assert!(location.sha256_verified);
    assert_eq!(archive.payload_offset(&entry).unwrap(), location.offset);
    assert_eq!(archive.read(&entry).unwrap(), payload);
}

#[test]
fn detect_v1_payload_placement_uses_actual_aligned_record_span() {
    let name = "Data/file.bin";
    let payload = b"aligned-record-payload";
    let (data, entry) = test_v1_detection_entry(name, payload, 4096, true);

    assert_eq!(
        detect_v1_payload_placement(&data, P4kVersion::V1, &vec![entry], Some(4096)),
        V1PayloadPlacement::AlignedRecord
    );
}

#[test]
fn detect_v1_payload_placement_stops_after_confident_samples() {
    let sector_size = 4096usize;
    let mut data = Vec::new();
    let mut entries = Vec::new();

    for index in 0..16 {
        let name = format!("Data/sector-{index:02}.bin");
        let payload = format!("sector payload {index:02}");
        let (chunk, mut entry) =
            test_v1_sector_zip_local_entry(&name, payload.as_bytes(), sector_size as u64);
        let offset = align_test_data(&mut data, sector_size);
        entry.local_header_offset = offset as u64;
        data.extend_from_slice(&chunk);
        entries.push(entry);
    }

    let (chunk, mut conflicting) =
        test_v1_detection_entry("Data/conflict.bin", b"aligned after confidence", 4096, true);
    let offset = align_test_data(&mut data, sector_size);
    conflicting.local_header_offset = offset as u64;
    data.extend_from_slice(&chunk);
    entries.push(conflicting);

    assert_eq!(
        detect_v1_payload_placement(&data, P4kVersion::V1, &entries, Some(4096)),
        V1PayloadPlacement::ZipLocalSector
    );
}

#[test]
fn detect_v1_payload_placement_checks_alternate_candidate_on_early_mismatch() {
    let sector_size = 4096usize;
    let mut data = Vec::new();
    let mut entries = Vec::new();

    let (chunk, mut sector_entry) =
        test_v1_sector_zip_local_entry("Data/sector.bin", b"sector", sector_size as u64);
    let offset = align_test_data(&mut data, sector_size);
    sector_entry.local_header_offset = offset as u64;
    data.extend_from_slice(&chunk);
    entries.push(sector_entry);

    let (chunk, mut aligned_entry) =
        test_v1_detection_entry("Data/aligned.bin", b"aligned", sector_size, true);
    let offset = align_test_data(&mut data, sector_size);
    aligned_entry.local_header_offset = offset as u64;
    data.extend_from_slice(&chunk);
    entries.push(aligned_entry);

    assert_eq!(
        detect_v1_payload_placement(&data, P4kVersion::V1, &entries, Some(4096)),
        V1PayloadPlacement::Unknown
    );
}

fn test_entry(name: &str, payload: &[u8]) -> P4kEntryCompact {
    P4kEntryCompact {
        name: name.to_string(),
        compressed_size: payload.len() as u64,
        uncompressed_size: payload.len() as u64,
        compression_method: CompressionMethod::Store,
        is_encrypted: false,
        local_header_offset: 0,
        crc32: hash_bytes(payload),
        last_mod_file_time: 0,
        last_mod_file_date: 0,
        signature: [0; 128],
        sha256: Sha256::digest(payload).into(),
        bytes_already_written: payload.len() as u64,
    }
}

fn test_local_header(name: &str, payload: &[u8], extra_len: usize) -> Vec<u8> {
    let local_header = LocalFileHeader {
        version_needed: 45,
        flags: 0,
        compression_method: CompressionMethod::Store.id(),
        last_modified: 0,
        crc32: hash_bytes(payload),
        compressed_size: u32::MAX,
        uncompressed_size: u32::MAX,
        file_name_length: name.len() as u16,
        extra_field_length: extra_len as u16,
    };
    let mut data = Vec::new();
    data.extend_from_slice(&LocalFileHeader::SIGNATURE.to_le_bytes());
    local_header.write(&mut data);
    data.extend_from_slice(name.as_bytes());
    data
}

fn test_v1_detection_entry(
    name: &str,
    payload: &[u8],
    sector_size: usize,
    aligned_record: bool,
) -> (Vec<u8>, P4kEntryCompact) {
    let local_header_size = 4 + LocalFileHeader::SIZE;
    let extra_len = if aligned_record {
        sector_size - local_header_size - name.len()
    } else {
        sector_size
    };
    let mut data = test_local_header(name, payload, extra_len);
    data.resize(local_header_size + name.len() + extra_len, 0);
    let payload_offset = if aligned_record {
        v1_local_record_size_from_name_len(name.len() as u64, sector_size as u64).unwrap() as usize
    } else {
        data.len()
    };
    data.resize(payload_offset, 0);
    data.extend_from_slice(payload);
    (data, test_entry(name, payload))
}

fn test_v1_sector_zip_local_entry(
    name: &str,
    payload: &[u8],
    sector_size: u64,
) -> (Vec<u8>, P4kEntryCompact) {
    let local_header_size = 4 + LocalFileHeader::SIZE;
    let extra_len = sector_size as usize - local_header_size - name.len();
    let mut data = test_local_header(name, payload, extra_len);
    data.resize(sector_size as usize, 0);
    data.extend_from_slice(payload);
    (data, test_entry(name, payload))
}

fn align_test_data(data: &mut Vec<u8>, alignment: usize) -> usize {
    let aligned_len = (data.len() + alignment - 1) & !(alignment - 1);
    data.resize(aligned_len, 0);
    aligned_len
}

#[test]
fn parallel_v1_cdr_parse_matches_sequential_parse() {
    let mut cd = Vec::new();
    cd.extend_from_slice(&test_v1_cdr_record(
        "Data/Beta.bin",
        11,
        22,
        0x1000,
        0x1122_3344,
        0xAA,
        0xBB,
    ));
    cd.extend_from_slice(&test_v1_cdr_record(
        "Data/Alpha.bin",
        33,
        44,
        0x3000,
        0x5566_7788,
        0xCC,
        0xDD,
    ));

    let (sequential, sequential_len) = parse_entries_sequential(&cd, 2, true).unwrap();
    let (parallel, parallel_len) = parse_entries_by_span(&cd, 2, true).unwrap();

    assert_eq!(parallel_len, sequential_len);
    assert_eq!(parallel_len, cd.len());
    assert_eq!(parallel.len(), 2);
    assert_eq!(parallel.len(), sequential.len());
    for (parallel, sequential) in parallel.iter().zip(&sequential) {
        assert_eq!(parallel.name, sequential.name);
        assert_eq!(parallel.compressed_size, sequential.compressed_size);
        assert_eq!(parallel.uncompressed_size, sequential.uncompressed_size);
        assert_eq!(parallel.local_header_offset, sequential.local_header_offset);
        assert_eq!(parallel.crc32, sequential.crc32);
        assert_eq!(parallel.signature, sequential.signature);
        assert_eq!(parallel.sha256, sequential.sha256);
    }
    assert_eq!(parallel[1].name, "Data/Alpha.bin");
    assert_eq!(parallel[1].compressed_size, 33);
    assert_eq!(parallel[1].uncompressed_size, 44);
    assert_eq!(parallel[1].local_header_offset, 0x3000);
    assert_eq!(parallel[1].crc32, 0x5566_7788);
    assert_eq!(parallel[1].signature[0], 0xCC);
    assert_eq!(parallel[1].sha256[0], 0xDD);
    assert_eq!(parallel[1].last_mod_file_time, 0x1234);
    assert_eq!(parallel[1].last_mod_file_date, 0x5678);
}

#[test]
fn cdr_records_are_cut_where_their_headers_say() {
    let first = test_v1_cdr_record("Data/Beta.bin", 11, 22, 0x1000, 1, 2, 3);
    let second = test_v1_cdr_record("Data/Alpha.bin", 33, 44, 0x3000, 4, 5, 6);
    let mut cd = first.clone();
    cd.extend_from_slice(&second);

    let (spans, used) = scan_cdr_record_spans(&cd, 2).unwrap();
    assert_eq!(used, cd.len());
    assert_eq!((spans[0].start, spans[0].end), (0, first.len()));
    assert_eq!((spans[1].start, spans[1].end), (first.len(), cd.len()));

    let err = scan_cdr_record_spans(&cd[..cd.len() - 1], 2).unwrap_err();
    assert_eq!(
        err.message(),
        format!(
            "malformed P4K v1 install block: central directory record 1 ends at {}, past CDR size {}",
            cd.len(),
            cd.len() - 1
        )
    );
    assert!(parse_entries_sequential(&cd[..cd.len() - 1], 2, true).is_err());
}

fn test_v1_cdr_record(
    name: &str,
    compressed_size: u64,
    uncompressed_size: u64,
    local_header_offset: u64,
    crc32: u32,
    signature_byte: u8,
    sha256_byte: u8,
) -> Vec<u8> {
    let header = CentralDirectoryHeader {
        version_made_by: 46,
        version_needed: 45,
        flags: 0,
        compression_method: CompressionMethod::Store.id(),
        last_modified: 0x5678_1234,
        crc32,
        compressed_size: u32::MAX,
        uncompressed_size: u32::MAX,
        file_name_length: name.len() as u16,
        extra_field_length: 0xCE,
        file_comment_length: 0,
        disk_number_start: u16::MAX,
        internal_attrs: 0,
        external_attrs: 0,
        local_header_offset: u32::MAX,
    };
    let zip64 = P4kZip64ExtraField {
        id: extra_field::ZIP64,
        size: extra_field::ZIP64_TOTAL_SIZE,
        uncompressed_size,
        compressed_size,
        local_header_offset,
        disk_number_start: 0,
    };
    let mut signature = [0u8; 128];
    signature[0] = signature_byte;
    let signature = P4kSignatureExtraField {
        id: extra_field::P4K_5000,
        size: extra_field::P4K_5000_TOTAL_SIZE,
        signature,
    };
    let encryption = P4kEncryptionExtraField {
        id: extra_field::P4K_5002,
        size: extra_field::P4K_5002_TOTAL_SIZE,
        encryption: 0,
    };
    let mut sha256 = [0u8; 32];
    sha256[0] = sha256_byte;
    let sha256 = P4kSha256ExtraField {
        id: extra_field::P4K_5003,
        size: extra_field::P4K_5003_TOTAL_SIZE,
        sha256,
    };

    let mut out = Vec::new();
    out.extend_from_slice(&CentralDirectoryHeader::SIGNATURE.to_le_bytes());
    header.write(&mut out);
    out.extend_from_slice(name.as_bytes());
    zip64.write(&mut out);
    signature.write(&mut out);
    encryption.write(&mut out);
    sha256.write(&mut out);
    out
}

#[test]
fn parallel_v2_cdr_parse_matches_sequential_parse() {
    let mut builder = P4kBuilder::with_options(P4kWriterOptions {
        compression: CompressionMethod::Store,
        ..Default::default()
    });
    builder.add_bytes("Data/Beta.bin", b"beta").unwrap();
    builder.add_bytes("Data/Alpha.bin", b"alpha").unwrap();

    let mut bytes = Vec::new();
    builder.write_to(&mut bytes).unwrap();

    let end = find_content_end(&bytes);
    let record = Eocd2Record::read(&bytes, end - EOCD_V2_SIZE);
    let trailer = read_trailer(&bytes, end, &record).unwrap();

    let sequential = parse_v2_entries(&bytes, end, &trailer).unwrap();
    let names = parse_v2_names(&bytes, end, &trailer).unwrap();
    assert_eq!(names, ["Data/Alpha.bin", "Data/Beta.bin"]);
    let parallel = parse_v2_entries_by_name(&bytes, end, &trailer).unwrap();

    assert_eq!(parallel.len(), 2);
    assert_eq!(parallel.len(), sequential.len());
    for (parallel, sequential) in parallel.iter().zip(&sequential) {
        assert_eq!(parallel.name, sequential.name);
        assert_eq!(parallel.compressed_size, sequential.compressed_size);
        assert_eq!(parallel.uncompressed_size, sequential.uncompressed_size);
        assert_eq!(parallel.local_header_offset, sequential.local_header_offset);
        assert_eq!(parallel.crc32, sequential.crc32);
        assert_eq!(parallel.signature, sequential.signature);
        assert_eq!(parallel.sha256, sequential.sha256);
        assert_eq!(
            parallel.bytes_already_written,
            sequential.bytes_already_written
        );
    }
}
