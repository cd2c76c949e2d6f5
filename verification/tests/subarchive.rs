use svarog_p4k::subarchive::{
    check_subarchive_place, parse_subarchive, parse_subarchive_cdr_entries,
    parse_subarchive_cdr_info, read_subarchive_entries, subarchive_eocdr_begin_offset,
    subarchive_eocdr_size, validate_subarchive_eocdr, SubArchive, SubArchiveStatus,
    SUBARCHIVE_CDR_COMPRESSED_SIZE_BASE, SUBARCHIVE_CDR_FIXED_NAME_LEN_OFFSET,
    SUBARCHIVE_CDR_OFFSET_OFFSET, SUBARCHIVE_CDR_PAYLOAD_RELATIVE_BASE,
    SUBARCHIVE_CDR_RECORD_OVERHEAD, SUBARCHIVE_CDR_SIZE_OFFSET,
    SUBARCHIVE_CDR_UNCOMPRESSED_SIZE_BASE, SUBARCHIVE_ENTRY_COUNT_OFFSET, SUBARCHIVE_EOCDR_SIZE,
    SUBARCHIVE_FLAGS_OFFSET, SUBARCHIVE_MARKER, SUBARCHIVE_MARKER_OFFSET,
    SUBARCHIVE_NAME_BYTES_OFFSET, SUBARCHIVE_V1_CRC_OFFSET, SUBARCHIVE_V1_SHA256_BASE,
    SUBARCHIVE_V1_SIGNATURE_BASE, SUBARCHIVE_V2_CRC_BASE, SUBARCHIVE_V2_SHA256_BASE,
    SUBARCHIVE_V2_SIGNATURE_BASE, SUBARCHIVE_VERSION_OFFSET,
};
use svarog_p4k::zip::CompressionMethod;

fn sample_section() -> [u8; SUBARCHIVE_EOCDR_SIZE] {
    let mut section = [0u8; SUBARCHIVE_EOCDR_SIZE];
    section[SUBARCHIVE_MARKER_OFFSET..SUBARCHIVE_MARKER_OFFSET + 2]
        .copy_from_slice(&SUBARCHIVE_MARKER.to_le_bytes());
    section[SUBARCHIVE_VERSION_OFFSET..SUBARCHIVE_VERSION_OFFSET + 4]
        .copy_from_slice(&2u32.to_le_bytes());
    section[SUBARCHIVE_ENTRY_COUNT_OFFSET..SUBARCHIVE_ENTRY_COUNT_OFFSET + 8]
        .copy_from_slice(&3u64.to_le_bytes());
    section[SUBARCHIVE_CDR_SIZE_OFFSET..SUBARCHIVE_CDR_SIZE_OFFSET + 8]
        .copy_from_slice(&0x456u64.to_le_bytes());
    section[SUBARCHIVE_CDR_OFFSET_OFFSET..SUBARCHIVE_CDR_OFFSET_OFFSET + 8]
        .copy_from_slice(&0x123u64.to_le_bytes());
    section[SUBARCHIVE_NAME_BYTES_OFFSET..SUBARCHIVE_NAME_BYTES_OFFSET + 8]
        .copy_from_slice(&0x78u64.to_le_bytes());
    section
}

#[test]
fn subarchive_eocdr_offsets_match_dump() {
    assert_eq!(subarchive_eocdr_size(), 0x1062);
    assert_eq!(subarchive_eocdr_begin_offset(0x2000), Some(0xf9e));
    assert_eq!(subarchive_eocdr_begin_offset(0x100), None);
}

#[test]
fn subarchive_eocdr_status_matches_dump_marker_and_flag() {
    let mut section = sample_section();
    assert_eq!(
        validate_subarchive_eocdr(&section),
        SubArchiveStatus::Successful
    );

    section[SUBARCHIVE_FLAGS_OFFSET] = 1;
    assert_eq!(
        validate_subarchive_eocdr(&section),
        SubArchiveStatus::ErrorIncompleteSubArchive
    );

    section[SUBARCHIVE_MARKER_OFFSET..SUBARCHIVE_MARKER_OFFSET + 2]
        .copy_from_slice(&0u16.to_le_bytes());
    assert_eq!(
        validate_subarchive_eocdr(&section),
        SubArchiveStatus::ErrorNotASubArchive
    );
}

#[test]
fn subarchive_cdr_info_offsets_match_dump() {
    let info = parse_subarchive_cdr_info(&sample_section()).unwrap();
    assert_eq!(info.number_of_entries, 3);
    assert_eq!(info.cdr_offset, 0x123);
    assert_eq!(info.cdr_size, 0x456);
    assert_eq!(
        info.cdr_size_including_eocdr,
        0x456 + SUBARCHIVE_EOCDR_SIZE as u64
    );
    assert_eq!(info.total_name_bytes_including_nul, 0x78);
    assert_eq!(info.version, 2);
}

#[test]
fn subarchive_v1_cdr_entry_offsets_match_dump() {
    let mut cdr = vec![0u8; b"file.bin".len() + SUBARCHIVE_CDR_RECORD_OVERHEAD];
    fill_common_cdr_entry(&mut cdr, b"file.bin");
    cdr[SUBARCHIVE_V1_CRC_OFFSET..SUBARCHIVE_V1_CRC_OFFSET + 4]
        .copy_from_slice(&0x1122_3344u32.to_le_bytes());
    cdr[b"file.bin".len() + SUBARCHIVE_V1_SIGNATURE_BASE] = 0xaa;
    cdr[b"file.bin".len() + SUBARCHIVE_V1_SHA256_BASE] = 0xbb;

    let entries = parse_subarchive_cdr_entries(&cdr, 1).unwrap();
    assert_eq!(entries.len(), 1);
    assert_eq!(entries[0].name, "file.bin");
    assert_eq!(
        entries[0].compression_method,
        CompressionMethod::ZstdDeprecated
    );
    assert_eq!(entries[0].crc32, 0x1122_3344);
    assert_eq!(entries[0].compressed_size, 0x56);
    assert_eq!(entries[0].uncompressed_size, 0x78);
    assert_eq!(
        entries[0].offset_to_file_data,
        0x9a + b"file.bin".len() as u64 + 0x3e
    );
    assert_eq!(entries[0].last_mod_file_time, 0x1234);
    assert_eq!(entries[0].last_mod_file_date, 0x5678);
    assert_eq!(entries[0].signature[0], 0xaa);
    assert_eq!(entries[0].sha256[0], 0xbb);
}

#[test]
fn subarchive_v2_cdr_entry_offsets_match_dump() {
    let mut cdr = vec![0u8; b"file.bin".len() + SUBARCHIVE_CDR_RECORD_OVERHEAD];
    fill_common_cdr_entry(&mut cdr, b"file.bin");
    let base = b"file.bin".len();
    cdr[base + SUBARCHIVE_V2_CRC_BASE..base + SUBARCHIVE_V2_CRC_BASE + 4]
        .copy_from_slice(&0x5566_7788u32.to_le_bytes());
    cdr[base + SUBARCHIVE_V2_SHA256_BASE] = 0xcc;
    cdr[base + SUBARCHIVE_V2_SIGNATURE_BASE] = 0xdd;

    let entries = parse_subarchive_cdr_entries(&cdr, 2).unwrap();
    assert_eq!(entries.len(), 1);
    assert_eq!(entries[0].crc32, 0x5566_7788);
    assert_eq!(entries[0].sha256[0], 0xcc);
    assert_eq!(entries[0].signature[0], 0xdd);
}

#[test]
fn subarchive_payload_offset_formula_does_not_add_cdr_record_offset() {
    let mut first = vec![0u8; b"one.bin".len() + SUBARCHIVE_CDR_RECORD_OVERHEAD];
    fill_common_cdr_entry(&mut first, b"one.bin");
    first[SUBARCHIVE_V1_CRC_OFFSET..SUBARCHIVE_V1_CRC_OFFSET + 4]
        .copy_from_slice(&1u32.to_le_bytes());

    let mut second = vec![0u8; b"two.bin".len() + SUBARCHIVE_CDR_RECORD_OVERHEAD];
    fill_common_cdr_entry(&mut second, b"two.bin");
    second[SUBARCHIVE_V1_CRC_OFFSET..SUBARCHIVE_V1_CRC_OFFSET + 4]
        .copy_from_slice(&2u32.to_le_bytes());

    let second_expected = 0x9a + b"two.bin".len() as u64 + 0x3e;
    let cdr = [first, second].concat();
    let entries = parse_subarchive_cdr_entries(&cdr, 1).unwrap();
    assert_eq!(entries.len(), 2);
    assert_eq!(entries[1].name, "two.bin");
    assert_eq!(entries[1].offset_to_file_data, second_expected);
}

#[test]
fn parse_complete_subarchive_validates_cdr_range_and_entry_count() {
    let mut cdr = vec![0u8; b"file.bin".len() + SUBARCHIVE_CDR_RECORD_OVERHEAD];
    fill_common_cdr_entry(&mut cdr, b"file.bin");
    cdr[SUBARCHIVE_V1_CRC_OFFSET..SUBARCHIVE_V1_CRC_OFFSET + 4]
        .copy_from_slice(&0x1122_3344u32.to_le_bytes());

    let cdr_offset = 0x20usize;
    let mut file = vec![0u8; cdr_offset];
    file.extend_from_slice(&cdr);
    let cdr_end = file.len();
    let mut eocdr = sample_section();
    eocdr[SUBARCHIVE_VERSION_OFFSET..SUBARCHIVE_VERSION_OFFSET + 4]
        .copy_from_slice(&1u32.to_le_bytes());
    eocdr[SUBARCHIVE_ENTRY_COUNT_OFFSET..SUBARCHIVE_ENTRY_COUNT_OFFSET + 8]
        .copy_from_slice(&1u64.to_le_bytes());
    eocdr[SUBARCHIVE_CDR_SIZE_OFFSET..SUBARCHIVE_CDR_SIZE_OFFSET + 8]
        .copy_from_slice(&(cdr.len() as u64).to_le_bytes());
    eocdr[SUBARCHIVE_CDR_OFFSET_OFFSET..SUBARCHIVE_CDR_OFFSET_OFFSET + 8]
        .copy_from_slice(&(cdr_offset as u64).to_le_bytes());
    file.extend_from_slice(&eocdr);
    assert_eq!(cdr_end, file.len() - SUBARCHIVE_EOCDR_SIZE);

    let subarchive = parse_subarchive(&file).unwrap();
    assert_eq!(subarchive.cdr_info.number_of_entries, 1);
    assert_eq!(subarchive.cdr_info.cdr_offset, cdr_offset as u64);
    assert_eq!(subarchive.entries[0].name, "file.bin");

    let section_at = subarchive_eocdr_begin_offset(file.len() as u64).unwrap();
    let info = parse_subarchive_cdr_info(&file[section_at as usize..]).unwrap();
    check_subarchive_place(&info, section_at).unwrap();
    let streamed = SubArchive {
        entries: read_subarchive_entries(
            &file[info.cdr_offset as usize..section_at as usize],
            &info,
        )
        .unwrap(),
        cdr_info: info,
    };
    assert_eq!(streamed, subarchive);

    let mut bad_count = file.clone();
    let eocdr_start = bad_count.len() - SUBARCHIVE_EOCDR_SIZE;
    bad_count[eocdr_start + SUBARCHIVE_ENTRY_COUNT_OFFSET
        ..eocdr_start + SUBARCHIVE_ENTRY_COUNT_OFFSET + 8]
        .copy_from_slice(&2u64.to_le_bytes());
    let err = parse_subarchive(&bad_count).unwrap_err();
    assert!(
        err.message().contains("entry count"),
        "expected subarchive entry-count rejection, got {}",
        err.message()
    );

    let mut bad_range = file;
    let eocdr_start = bad_range.len() - SUBARCHIVE_EOCDR_SIZE;
    bad_range[eocdr_start + SUBARCHIVE_CDR_SIZE_OFFSET
        ..eocdr_start + SUBARCHIVE_CDR_SIZE_OFFSET + 8]
        .copy_from_slice(&((cdr.len() - 1) as u64).to_le_bytes());
    let err = parse_subarchive(&bad_range).unwrap_err();
    assert!(
        err.message().contains("CDR ends"),
        "expected subarchive CDR range rejection, got {}",
        err.message()
    );
}

fn fill_common_cdr_entry(cdr: &mut [u8], name: &[u8]) {
    cdr[0x0c..0x0e].copy_from_slice(&0x1234u16.to_le_bytes());
    cdr[0x0e..0x10].copy_from_slice(&0x5678u16.to_le_bytes());
    cdr[SUBARCHIVE_CDR_FIXED_NAME_LEN_OFFSET..SUBARCHIVE_CDR_FIXED_NAME_LEN_OFFSET + 2]
        .copy_from_slice(&(name.len() as u16).to_le_bytes());
    cdr[0x2e..0x2e + name.len()].copy_from_slice(name);
    let base = name.len();
    cdr[base + SUBARCHIVE_CDR_UNCOMPRESSED_SIZE_BASE
        ..base + SUBARCHIVE_CDR_UNCOMPRESSED_SIZE_BASE + 8]
        .copy_from_slice(&0x78u64.to_le_bytes());
    cdr[base + SUBARCHIVE_CDR_COMPRESSED_SIZE_BASE
        ..base + SUBARCHIVE_CDR_COMPRESSED_SIZE_BASE + 8]
        .copy_from_slice(&0x56u64.to_le_bytes());
    cdr[base + SUBARCHIVE_CDR_PAYLOAD_RELATIVE_BASE
        ..base + SUBARCHIVE_CDR_PAYLOAD_RELATIVE_BASE + 8]
        .copy_from_slice(&0x9au64.to_le_bytes());
}

#[test]
fn short_subarchives_are_refused() {
    let err = parse_subarchive(&[0u8; 100]).unwrap_err();
    assert_eq!(
        err.message(),
        "malformed P4K subarchive: subarchive has 100 bytes, need at least 4194"
    );
    assert!(parse_subarchive_cdr_entries(&[0u8; 40], 1).is_err());
    assert!(parse_subarchive_cdr_entries(&[], 1).unwrap().is_empty());
}

#[test]
fn directories_of_two_parts_join() {
    for version in [1, 2] {
        let mut first = vec![0u8; b"first.bin".len() + SUBARCHIVE_CDR_RECORD_OVERHEAD];
        fill_common_cdr_entry(&mut first, b"first.bin");
        let mut second = vec![0u8; b"2nd.bin".len() + SUBARCHIVE_CDR_RECORD_OVERHEAD];
        fill_common_cdr_entry(&mut second, b"2nd.bin");

        let joined = [first.clone(), second.clone()].concat();
        let entries = parse_subarchive_cdr_entries(&joined, version).unwrap();
        let mut parts = parse_subarchive_cdr_entries(&first, version).unwrap();
        parts.extend(parse_subarchive_cdr_entries(&second, version).unwrap());
        assert_eq!(entries.len(), 2);
        assert_eq!(parts.len(), 2);
        for (entry, part) in entries.iter().zip(&parts) {
            assert_eq!(entry.name, part.name);
            assert_eq!(entry.crc32, part.crc32);
            assert_eq!(entry.compressed_size, part.compressed_size);
            assert_eq!(entry.uncompressed_size, part.uncompressed_size);
            assert_eq!(entry.offset_to_file_data, part.offset_to_file_data);
            assert_eq!(entry.signature, part.signature);
            assert_eq!(entry.sha256, part.sha256);
        }
    }
}
