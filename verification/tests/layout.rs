use svarog_p4k::zip::central_dir::extra_field;
use svarog_p4k::zip::{
    CentralDirectoryHeader, CentralDirectoryHeaderV2, CompressionMethod, Eocd2Record,
    Eocd64Locator, Eocd64Record, EocdRecord, LocalFileHeader, P4kEncryptionExtraField,
    P4kSha256ExtraField, P4kSignatureExtraField, P4kZip64ExtraField, CDR_V2_ENTRY_SIZE,
    CDR_V2_OFFSET_TO_FILENAME_OFFSET, EOCD_V2_MAGIC, EOCD_V2_SIZE, EOCD_V2_VERSION,
};

/// Where `part` stands in `bytes`, which hold it once.
fn offset_of(bytes: &[u8], part: &[u8]) -> usize {
    let mut places: Vec<usize> = Vec::new();
    for at in 0..=bytes.len() - part.len() {
        if &bytes[at..at + part.len()] == part {
            places.push(at);
        }
    }
    assert_eq!(places.len(), 1);
    places[0]
}

#[test]
fn p4k_v1_extra_field_layouts_match_decompilation() {
    assert_eq!(
        P4kZip64ExtraField::SIZE,
        extra_field::ZIP64_TOTAL_SIZE as usize
    );
    assert_eq!(
        P4kSignatureExtraField::SIZE,
        extra_field::P4K_5000_TOTAL_SIZE as usize
    );
    assert_eq!(
        P4kEncryptionExtraField::SIZE,
        extra_field::P4K_5002_TOTAL_SIZE as usize
    );
    assert_eq!(
        P4kSha256ExtraField::SIZE,
        extra_field::P4K_5003_TOTAL_SIZE as usize
    );

    let mut zip64 = Vec::new();
    P4kZip64ExtraField {
        id: 0x0102,
        size: 0x0304,
        uncompressed_size: 0x1111_1111_1111_1112,
        compressed_size: 0x2222_2222_2222_2223,
        local_header_offset: 0x3333_3333_3333_3334,
        disk_number_start: 0x4444_4445,
    }
    .write(&mut zip64);
    assert_eq!(zip64.len(), P4kZip64ExtraField::SIZE);
    assert_eq!(offset_of(&zip64, &0x0102u16.to_le_bytes()), 0x00);
    assert_eq!(offset_of(&zip64, &0x0304u16.to_le_bytes()), 0x02);
    assert_eq!(
        offset_of(&zip64, &0x1111_1111_1111_1112u64.to_le_bytes()),
        0x04
    );
    assert_eq!(
        offset_of(&zip64, &0x2222_2222_2222_2223u64.to_le_bytes()),
        0x0C
    );
    assert_eq!(
        offset_of(&zip64, &0x3333_3333_3333_3334u64.to_le_bytes()),
        0x14
    );
    assert_eq!(offset_of(&zip64, &0x4444_4445u32.to_le_bytes()), 0x1C);

    let mut signature = Vec::new();
    P4kSignatureExtraField {
        id: 1,
        size: 2,
        signature: [7; 128],
    }
    .write(&mut signature);
    assert_eq!(signature.len(), P4kSignatureExtraField::SIZE);
    assert_eq!(offset_of(&signature, &[7; 128]), 0x04);

    let mut encryption = Vec::new();
    P4kEncryptionExtraField {
        id: 1,
        size: 2,
        encryption: 0x0907,
    }
    .write(&mut encryption);
    assert_eq!(encryption.len(), P4kEncryptionExtraField::SIZE);
    assert_eq!(offset_of(&encryption, &0x0907u16.to_le_bytes()), 0x04);

    let mut sha256 = Vec::new();
    P4kSha256ExtraField {
        id: 1,
        size: 2,
        sha256: [9; 32],
    }
    .write(&mut sha256);
    assert_eq!(sha256.len(), P4kSha256ExtraField::SIZE);
    assert_eq!(offset_of(&sha256, &[9; 32]), 0x04);
}

fn sample_v2_record() -> CentralDirectoryHeaderV2 {
    CentralDirectoryHeaderV2 {
        compression_method: 0x0102,
        last_mod_file_time: 0x0304,
        last_mod_file_date: 0x0506,
        crc32: 0x0708_090A,
        compressed_size: 0x1111_1111_1111_1112,
        uncompressed_size: 0x2222_2222_2222_2223,
        offset_to_file_data: 0x3333_3333_3333_3334,
        offset_to_filename: 0x4444_4444_4444_4445,
        signature: [0x55; 128],
        encryption_flag: 0x6667,
        sha256: [0x77; 32],
    }
}

#[test]
fn entry_layout_matches_decompilation() {
    let mut bytes = Vec::new();
    sample_v2_record().write(&mut bytes);
    assert_eq!(bytes.len(), CDR_V2_ENTRY_SIZE);
    assert_eq!(CentralDirectoryHeaderV2::SIZE, CDR_V2_ENTRY_SIZE);
    assert_eq!(offset_of(&bytes, &0x0102u16.to_le_bytes()), 0x00);
    assert_eq!(offset_of(&bytes, &0x0304u16.to_le_bytes()), 0x02);
    assert_eq!(offset_of(&bytes, &0x0506u16.to_le_bytes()), 0x04);
    assert_eq!(offset_of(&bytes, &0x0708_090Au32.to_le_bytes()), 0x06);
    assert_eq!(
        offset_of(&bytes, &0x1111_1111_1111_1112u64.to_le_bytes()),
        0x0A
    );
    assert_eq!(
        offset_of(&bytes, &0x2222_2222_2222_2223u64.to_le_bytes()),
        0x12
    );
    assert_eq!(
        offset_of(&bytes, &0x3333_3333_3333_3334u64.to_le_bytes()),
        0x1A
    );
    assert_eq!(
        offset_of(&bytes, &0x4444_4444_4444_4445u64.to_le_bytes()),
        CDR_V2_OFFSET_TO_FILENAME_OFFSET
    );
    assert_eq!(offset_of(&bytes, &[0x55; 128]), 0x2A);
    assert_eq!(offset_of(&bytes, &0x6667u16.to_le_bytes()), 0xAA);
    assert_eq!(offset_of(&bytes, &[0x77; 32]), 0xAC);

    let read = CentralDirectoryHeaderV2::read(&bytes, 0);
    assert_eq!(read.crc32, 0x0708_090A);
    assert_eq!(read.offset_to_filename, 0x4444_4444_4444_4445);
    assert_eq!(read.sha256, [0x77; 32]);
}

#[test]
fn encryption_flag_decoding() {
    let bytes = [0u8; CDR_V2_ENTRY_SIZE];
    let mut entry = CentralDirectoryHeaderV2::read(&bytes, 0);
    assert!(!entry.is_encrypted());
    entry.encryption_flag = 0;
    assert!(!entry.is_encrypted());
    entry.encryption_flag = 1;
    assert!(entry.is_encrypted());
    entry.encryption_flag = 3;
    assert!(!entry.is_encrypted());
    entry.encryption_flag = 2;
    assert!(!entry.is_encrypted());
}

#[test]
fn record_layout_matches_decompilation() {
    let record = Eocd2Record {
        num_file_entries: 0x0101_0101_0101_0102,
        reserved_08: 0x0202_0202_0202_0203,
        end_of_file_block_offset: 0x0303_0303_0303_0304,
        cdr_size: 0x0404_0404_0404_0405,
        reserved_20: 0x0505_0505_0505_0506,
        name_table_abs_offset: 0x0606_0606_0606_0607,
        total_name_length: 0x0707_0707_0707_0708,
        reserved_38: 0x0808_0808_0808_0809,
        end_of_payload: 0x0909_0909_0909_090A,
        num_freelist_blocks: 0x0A0A_0A0A_0A0A_0A0B,
        trie_cache_offset: 0x0B0B_0B0B_0B0B_0B0C,
        trie_cache_size: 0x0C0C_0C0C_0C0C_0C0D,
        physical_sector_size: 0x0D0D_0D0D_0D0D_0D0E,
        status_flags: 0xEE,
        manifest_sha256: [0xF0; 64],
        version: 0xF1F2,
        magic: 0xF3F4_F5F6,
    };
    let mut bytes = Vec::new();
    record.write(&mut bytes);
    assert_eq!(bytes.len(), EOCD_V2_SIZE);
    assert_eq!(Eocd2Record::SIZE, EOCD_V2_SIZE);
    let at64 = |value: u64| offset_of(&bytes, &value.to_le_bytes());
    assert_eq!(at64(record.num_file_entries), 0x00);
    assert_eq!(at64(record.reserved_08), 0x08);
    assert_eq!(at64(record.end_of_file_block_offset), 0x10);
    assert_eq!(at64(record.cdr_size), 0x18);
    assert_eq!(at64(record.reserved_20), 0x20);
    assert_eq!(at64(record.name_table_abs_offset), 0x28);
    assert_eq!(at64(record.total_name_length), 0x30);
    assert_eq!(at64(record.reserved_38), 0x38);
    assert_eq!(at64(record.end_of_payload), 0x40);
    assert_eq!(at64(record.num_freelist_blocks), 0x48);
    assert_eq!(at64(record.trie_cache_offset), 0x50);
    assert_eq!(at64(record.trie_cache_size), 0x58);
    assert_eq!(at64(record.physical_sector_size), 0x60);
    assert_eq!(offset_of(&bytes, &[0xEE]), 0x68);
    assert_eq!(offset_of(&bytes, &[0xF0; 64]), 0x69);
    assert_eq!(offset_of(&bytes, &0xF1F2u16.to_le_bytes()), 0xA9);
    assert_eq!(offset_of(&bytes, &0xF3F4_F5F6u32.to_le_bytes()), 0xAB);
}

#[test]
fn valid_when_magic_and_version_match() {
    let bytes = [0u8; EOCD_V2_SIZE];
    let mut record = Eocd2Record::read(&bytes, 0);
    record.magic = EOCD_V2_MAGIC;
    record.version = EOCD_V2_VERSION;
    assert!(record.is_valid());

    record.version = 1;
    assert!(!record.is_valid());

    record.version = EOCD_V2_VERSION;
    record.magic = 0xDEADBEEF;
    assert!(!record.is_valid());
}

#[test]
fn binary_layout_matches_zip_and_p4k_reader() {
    assert_eq!(LocalFileHeader::SIZE, 26);
    assert_eq!(CentralDirectoryHeader::SIZE, 42);
    assert_eq!(EocdRecord::SIZE, 18);
    assert_eq!(Eocd64Locator::SIZE, 16);
    assert_eq!(Eocd64Record::SIZE, 52);
    assert_eq!(P4kZip64ExtraField::SIZE, 0x20);
    assert_eq!(P4kSignatureExtraField::SIZE, 0x84);
    assert_eq!(P4kEncryptionExtraField::SIZE, 0x06);
    assert_eq!(P4kSha256ExtraField::SIZE, 0x24);
    assert_eq!(std::mem::size_of_val(&CompressionMethod::Zstd.id()), 2);
    assert_eq!(Eocd2Record::SIZE, EOCD_V2_SIZE);
    assert_eq!(CentralDirectoryHeaderV2::SIZE, CDR_V2_ENTRY_SIZE);

    let mut written = Vec::new();
    LocalFileHeader::read(&[0; 64], 0).write(&mut written);
    assert_eq!(written.len(), 26);
    CentralDirectoryHeader::read(&[0; 64], 0).write(&mut written);
    assert_eq!(written.len(), 26 + 42);
    EocdRecord::read(&[0; 64], 0).write(&mut written);
    assert_eq!(written.len(), 26 + 42 + 18);
    Eocd64Locator::read(&[0; 64], 0).write(&mut written);
    assert_eq!(written.len(), 26 + 42 + 18 + 16);
    Eocd64Record::read(&[0; 64], 0).write(&mut written);
    assert_eq!(written.len(), 26 + 42 + 18 + 16 + 52);
}

#[test]
fn compression_method_ids_match_cig_dump() {
    assert_eq!(CompressionMethod::Store.id(), 0);
    assert_eq!(CompressionMethod::Deflate.id(), 8);
    assert_eq!(CompressionMethod::ZstdDeprecated.id(), 93);
    assert_eq!(CompressionMethod::Zstd.id(), 100);
    assert_eq!(CompressionMethod::DeflateZlib.id(), 101);

    for method in [
        CompressionMethod::Store,
        CompressionMethod::Deflate,
        CompressionMethod::ZstdDeprecated,
        CompressionMethod::Zstd,
        CompressionMethod::DeflateZlib,
    ] {
        assert_eq!(CompressionMethod::try_from(method.id()), Ok(method));
    }
    assert_eq!(CompressionMethod::try_from(102), Err(102));
}

#[test]
fn records_read_back_as_written() {
    let local = LocalFileHeader {
        version_needed: 45,
        flags: 1,
        compression_method: 100,
        last_modified: 0x5678_1234,
        crc32: 0xDEAD_BEEF,
        compressed_size: 0x0102_0304,
        uncompressed_size: 0x0506_0708,
        file_name_length: 0x1122,
        extra_field_length: 0x3344,
    };
    let mut bytes = vec![0xFF; 3];
    local.write(&mut bytes);
    bytes.push(0xFF);
    let read = LocalFileHeader::read(&bytes, 3);
    assert_eq!(read.version_needed, 45);
    assert_eq!(read.flags, 1);
    assert_eq!(read.compression_method, 100);
    assert_eq!(read.last_modified, 0x5678_1234);
    assert_eq!(read.crc32, 0xDEAD_BEEF);
    assert_eq!(read.compressed_size, 0x0102_0304);
    assert_eq!(read.uncompressed_size, 0x0506_0708);
    assert_eq!(read.file_name_length, 0x1122);
    assert_eq!(read.extra_field_length, 0x3344);
    assert_eq!(read.variable_data_size(), 0x1122 + 0x3344);

    let eocd = Eocd64Record {
        record_size: 44,
        version_made_by: 45,
        version_needed: 46,
        disk_number: 1,
        central_dir_disk: 2,
        central_dir_count_disk: 3,
        central_dir_count_total: 4,
        central_dir_size: 0x0506_0708_090A_0B0C,
        central_dir_offset: 0x1112_1314_1516_1718,
    };
    let mut bytes = Vec::new();
    eocd.write(&mut bytes);
    let read = Eocd64Record::read(&bytes, 0);
    assert_eq!(read.record_size, 44);
    assert_eq!(read.central_dir_count_total, 4);
    assert_eq!(read.central_dir_size, 0x0506_0708_090A_0B0C);
    assert_eq!(read.central_dir_offset, 0x1112_1314_1516_1718);
}
