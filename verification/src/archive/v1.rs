//! The directory of a v1 (ZIP64-based) archive.

use vstd::prelude::*;
use vstd::seq::*;
use vstd::seq_lib::*;
use vstd::slice::*;
use vstd::string::*;

use crate::archive::model;
use crate::archive::model::{EntryModel, P4kEntryCompact};
use crate::archive::v1_records;
use crate::archive::v1_records::{
    validate_v1_cdr_fixed_header, validate_v1_zip64_classic_eocd, validate_v1_zip64_eocd,
    validate_v1_zip64_locator,
};
use crate::bytes;
use crate::bytes::get_u32;
use crate::error;
use crate::error::{bad_v1_directory, bad_v1_entry, Error, Fault, Result};
use crate::path;
use crate::path::normalize_p4k_path_bytes;
use crate::scan;
use crate::scan::{find_eocd_signature, occurs_at};
use crate::text;
use crate::text::dec;
use crate::zip;
use crate::zip::central_dir::extra_field;
use crate::zip::{
    CentralDirectoryHeader, CompressionMethod, Eocd64Locator, Eocd64Record, EocdRecord,
    P4kEncryptionExtraField, P4kSha256ExtraField, P4kSignatureExtraField, P4kZip64ExtraField,
};

verus! {

/// The EOCD record starts at most this far before the end of the content.
pub const EOCD_SEARCH_SPAN: usize = 65557;

/// Size of a ZIP64 locator with its signature.
pub const LOCATOR_SIZE: usize = 20;

/// The ZIP64 locator starts at most this far before the EOCD record.
pub const LOCATOR_SEARCH_SPAN: usize = 100;

/// Where the EOCD record starts.
pub open spec fn eocd_at(data: Seq<u8>, end: int) -> Option<int> {
    let from = if end > EOCD_SEARCH_SPAN {
        end - EOCD_SEARCH_SPAN
    } else {
        0
    };
    scan::last_position(data, scan::eocd_signature(), from, end - 4)
}

/// Find the EOCD record.
pub fn find_eocd_optimized(data: &[u8], actual_end: usize) -> (r: Result<usize>)
    requires
        actual_end <= data@.len(),
    ensures
        match r {
            Ok(at) => eocd_at(data@, actual_end as int) == Some(at as int) && at + 4 <= actual_end,
            Err(e) => eocd_at(data@, actual_end as int) is None && e@ == Fault::EocdNotFound,
        },
{
    let search_start: usize = if actual_end > EOCD_SEARCH_SPAN {
        actual_end - EOCD_SEARCH_SPAN
    } else {
        0
    };
    let found = find_eocd_signature(data, search_start, actual_end);
    proof {
        let r = match found {
            Some(i) => Some(i as int),
            None => None,
        };
        scan::lemma_last_position(
            data@,
            scan::eocd_signature(),
            search_start as int,
            actual_end - 4,
            r,
        );
    }
    match found {
        Some(at) => Ok(at),
        None => Err(Error::EocdNotFound),
    }
}

/// Where the ZIP64 locator starts.
pub open spec fn locator_at(data: Seq<u8>, eocd: int) -> Option<int> {
    let from = if eocd > LOCATOR_SEARCH_SPAN {
        eocd - LOCATOR_SEARCH_SPAN
    } else {
        0
    };
    scan::last_position(data, scan::eocd64_locator_signature(), from, eocd - 1)
}

fn find_locator(data: &[u8], eocd_offset: usize) -> (r: Option<usize>)
    requires
        eocd_offset <= data@.len(),
    ensures
        match r {
            Some(at) => locator_at(data@, eocd_offset as int) == Some(at as int) && at
                < eocd_offset,
            None => locator_at(data@, eocd_offset as int) is None,
        },
{
    assert(data.len() == data@.len());
    let search_start: usize = if eocd_offset > LOCATOR_SEARCH_SPAN {
        eocd_offset - LOCATOR_SEARCH_SPAN
    } else {
        0
    };
    let ghost needle = scan::eocd64_locator_signature();
    let mut i: usize = eocd_offset;
    while i > search_start
        invariant
            search_start <= i <= eocd_offset <= data@.len(),
            data@.len() <= usize::MAX,
            needle == scan::eocd64_locator_signature(),
            forall|j: int| i <= j < eocd_offset ==> !scan::occurs_at(data@, needle, j),
            search_start == if eocd_offset > LOCATOR_SEARCH_SPAN {
                eocd_offset - LOCATOR_SEARCH_SPAN
            } else {
                0
            },
        decreases i,
    {
        i -= 1;
        if data.len() - i >= 4 {
            proof {
                let part = data@.subrange(i as int, i + 4);
                assert(part[0] == data@[i as int] && part[1] == data@[i + 1] && part[2] == data@[i
                    + 2] && part[3] == data@[i + 3]);
                if part != needle {
                    assert(!(part =~= needle));
                }
            }
            if data[i] == 0x50 && data[i + 1] == 0x4B && data[i + 2] == 0x06 && data[i + 3]
                == 0x07 {
                proof {
                    assert(data@.subrange(i as int, i + 4) =~= needle);
                    scan::lemma_last_position(
                        data@,
                        needle,
                        search_start as int,
                        eocd_offset - 1,
                        Some(i as int),
                    );
                }
                return Some(i);
            }
        }
    }
    proof {
        scan::lemma_last_position(
            data@,
            needle,
            search_start as int,
            eocd_offset - 1,
            None,
        );
    }
    None
}

/// What the trailing records of a v1 archive say.
#[derive(Debug, Clone, Copy)]
pub struct V1Summary {
    pub eocd_offset: u64,
    pub comment_length: u16,
    pub is_zip64: bool,
    pub count: u64,
    pub cdr_offset: u64,
    pub cdr_size: u64,
}

/// What is wrong with the ZIP64 record at `at`, with the locator at `locator`.
pub open spec fn eocd64_at_fault(data: Seq<u8>, at: u64, locator: int) -> Option<Fault> {
    let signature = bytes::le32(data, at as int);
    if at > usize::MAX {
        Some(Fault::MalformedV1InstallBlock("ZIP64 EOCD offset overflows usize"@))
    } else if at + 4 > data.len() {
        Some(Fault::Zip64EocdNotFound)
    } else if signature != Eocd64Record::SIGNATURE {
        Some(Fault::InvalidSignature { expected: Eocd64Record::SIGNATURE, actual: signature })
    } else if at + 4 + Eocd64Record::SIZE > data.len() {
        Some(
            Fault::UnexpectedEof {
                needed: Eocd64Record::SIZE as u64,
                available: (data.len() - at - 4) as u64,
            },
        )
    } else {
        v1_records::eocd64_fault(Eocd64Record::at(data, at + 4), at as int, locator)
    }
}

/// What is wrong with the ZIP64 records before the EOCD record.
pub open spec fn zip64_fault(data: Seq<u8>, eocd: int) -> Option<Fault> {
    let found = locator_at(data, eocd);
    let at = found->Some_0;
    let locator = Eocd64Locator::at(data, at + 4);
    if eocd < LOCATOR_SIZE || found is None {
        Some(Fault::Zip64EocdNotFound)
    } else if at + LOCATOR_SIZE != eocd {
        Some(
            Fault::MalformedV1InstallBlock(
                "ZIP64 locator ends at "@ + text::dec_text((at + LOCATOR_SIZE) as nat)
                    + ", expected EOCD offset "@ + text::dec_text(eocd as nat),
            ),
        )
    } else if v1_records::locator_fault(locator) is Some {
        v1_records::locator_fault(locator)
    } else {
        eocd64_at_fault(data, locator.zip64_eocd_offset, at)
    }
}

/// The ZIP64 record that the locator before the EOCD record names.
pub open spec fn zip64_record(data: Seq<u8>, eocd: int) -> Eocd64Record {
    let locator = Eocd64Locator::at(data, locator_at(data, eocd)->Some_0 + 4);
    Eocd64Record::at(data, locator.zip64_eocd_offset + 4)
}

/// Read the ZIP64 records before the EOCD record.
pub fn read_zip64_eocd(data: &[u8], eocd_offset: usize) -> (r: Result<Eocd64Record>)
    requires
        eocd_offset + 4 + EocdRecord::SIZE <= data@.len(),
    ensures
        match r {
            Ok(record) => {
                &&& zip64_fault(data@, eocd_offset as int) is None
                &&& record == zip64_record(data@, eocd_offset as int)
            },
            Err(e) => zip64_fault(data@, eocd_offset as int) == Some(e@),
        },
{
    assert(data.len() == data@.len());
    if eocd_offset < LOCATOR_SIZE {
        return Err(Error::Zip64EocdNotFound);
    }
    let locator_offset: usize = match find_locator(data, eocd_offset) {
        Some(at) => at,
        None => return Err(Error::Zip64EocdNotFound),
    };
    if eocd_offset - locator_offset != LOCATOR_SIZE {
        return bad_v1_directory(
            String::from_str("ZIP64 locator ends at ").concat(
                dec(locator_offset as u64 + LOCATOR_SIZE as u64).as_str(),
            ).concat(", expected EOCD offset ").concat(dec(eocd_offset as u64).as_str()),
        );
    }
    let locator = Eocd64Locator::read(data, locator_offset + 4);
    validate_v1_zip64_locator(&locator)?;
    if locator.zip64_eocd_offset > usize::MAX as u64 {
        return bad_v1_directory(String::from_str("ZIP64 EOCD offset overflows usize"));
    }
    let at: usize = locator.zip64_eocd_offset as usize;
    if at > data.len() - 4 {
        return Err(Error::Zip64EocdNotFound);
    }
    let signature: u32 = get_u32(data, at);
    if signature != Eocd64Record::SIGNATURE {
        return Err(
            Error::InvalidSignature { expected: Eocd64Record::SIGNATURE, actual: signature },
        );
    }
    let available: usize = data.len() - at - 4;
    if available < Eocd64Record::SIZE {
        return Err(
            Error::UnexpectedEof {
                needed: Eocd64Record::SIZE as u64,
                available: available as u64,
            },
        );
    }
    let record = Eocd64Record::read(data, at + 4);
    validate_v1_zip64_eocd(&record, at, locator_offset)?;
    Ok(record)
}

/// What the trailing records say, before their ranges are checked.
pub open spec fn unchecked_summary(data: Seq<u8>, eocd: int) -> V1Summary {
    let record = EocdRecord::at(data, eocd + 4);
    let zip64 = zip64_record(data, eocd);
    V1Summary {
        eocd_offset: eocd as u64,
        comment_length: record.comment_length,
        is_zip64: record.says_zip64(),
        count: if record.says_zip64() {
            zip64.central_dir_count_total
        } else {
            record.central_dir_count_total as u64
        },
        cdr_offset: if record.says_zip64() {
            zip64.central_dir_offset
        } else {
            record.central_dir_offset as u64
        },
        cdr_size: if record.says_zip64() {
            zip64.central_dir_size
        } else {
            record.central_dir_size as u64
        },
    }
}

/// What is wrong with the trailing records themselves.
pub open spec fn trailing_fault(data: Seq<u8>, eocd: int) -> Option<Fault> {
    let record = EocdRecord::at(data, eocd + 4);
    if eocd + 4 + EocdRecord::SIZE > data.len() {
        Some(
            Fault::UnexpectedEof {
                needed: EocdRecord::SIZE as u64,
                available: (data.len() - eocd - 4) as u64,
            },
        )
    } else if !record.says_zip64() {
        None
    } else if v1_records::classic_eocd_fault(record) is Some {
        v1_records::classic_eocd_fault(record)
    } else {
        zip64_fault(data, eocd)
    }
}

/// What is wrong with the range of the central directory.
pub open spec fn cdr_range_fault(s: V1Summary) -> Option<Fault> {
    let end = s.cdr_offset + s.cdr_size;
    if s.cdr_offset > usize::MAX {
        Some(Fault::MalformedV1InstallBlock("central directory offset overflows usize"@))
    } else if s.cdr_size > usize::MAX {
        Some(Fault::MalformedV1InstallBlock("central directory size overflows usize"@))
    } else if end > usize::MAX {
        Some(Fault::MalformedV1InstallBlock("central directory range overflow"@))
    } else if end > s.eocd_offset {
        Some(
            Fault::MalformedV1InstallBlock(
                "central directory range ["@ + text::dec_text(s.cdr_offset as nat) + ", "@
                    + text::dec_text(end as nat) + ") extends past EOCD at "@ + text::dec_text(
                    s.eocd_offset as nat,
                ),
            ),
        )
    } else if s.count > usize::MAX {
        Some(Fault::MalformedV1InstallBlock("central directory entry count overflows usize"@))
    } else {
        None
    }
}

/// What the trailing records of a v1 archive say, or what is wrong with them.
pub open spec fn summary_outcome(data: Seq<u8>, end: int) -> std::result::Result<V1Summary, Fault> {
    match eocd_at(data, end) {
        None => Err(Fault::EocdNotFound),
        Some(eocd) => match trailing_fault(data, eocd) {
            Some(fault) => Err(fault),
            None => match cdr_range_fault(unchecked_summary(data, eocd)) {
                Some(fault) => Err(fault),
                None => Ok(unchecked_summary(data, eocd)),
            },
        },
    }
}

/// Read the trailing records of a v1 archive.
pub fn read_summary(data: &[u8], actual_end: usize) -> (r: Result<V1Summary>)
    requires
        actual_end <= data@.len(),
    ensures
        error::outcome(r) == summary_outcome(data@, actual_end as int),
        r matches Ok(s) ==> {
            &&& s.cdr_offset + s.cdr_size <= s.eocd_offset
            &&& s.eocd_offset + 4 + EocdRecord::SIZE <= data@.len()
            &&& s.count <= usize::MAX
        },
{
    assert(data.len() == data@.len());
    let eocd_offset: usize = find_eocd_optimized(data, actual_end)?;
    let available: usize = data.len() - eocd_offset - 4;
    if available < EocdRecord::SIZE {
        return Err(
            Error::UnexpectedEof { needed: EocdRecord::SIZE as u64, available: available as u64 },
        );
    }
    let eocd = EocdRecord::read(data, eocd_offset + 4);
    let is_zip64: bool = eocd.is_zip64();
    let mut summary = V1Summary {
        eocd_offset: eocd_offset as u64,
        comment_length: eocd.comment_length,
        is_zip64,
        count: eocd.central_dir_count_total as u64,
        cdr_offset: eocd.central_dir_offset as u64,
        cdr_size: eocd.central_dir_size as u64,
    };
    if is_zip64 {
        validate_v1_zip64_classic_eocd(&eocd)?;
        let record = read_zip64_eocd(data, eocd_offset)?;
        summary.count = record.central_dir_count_total;
        summary.cdr_offset = record.central_dir_offset;
        summary.cdr_size = record.central_dir_size;
    }
    if summary.cdr_offset > usize::MAX as u64 {
        return bad_v1_directory(String::from_str("central directory offset overflows usize"));
    }
    if summary.cdr_size > usize::MAX as u64 {
        return bad_v1_directory(String::from_str("central directory size overflows usize"));
    }
    let cdr_end: usize = match (summary.cdr_offset as usize).checked_add(
        summary.cdr_size as usize,
    ) {
        Some(v) => v,
        None => return bad_v1_directory(String::from_str("central directory range overflow")),
    };
    if cdr_end > eocd_offset {
        return bad_v1_directory(
            String::from_str("central directory range [").concat(
                dec(summary.cdr_offset).as_str(),
            ).concat(", ").concat(dec(cdr_end as u64).as_str()).concat(
                ") extends past EOCD at ",
            ).concat(dec(eocd_offset as u64).as_str()),
        );
    }
    if summary.count > usize::MAX as u64 {
        return bad_v1_directory(
            String::from_str("central directory entry count overflows usize"),
        );
    }
    Ok(summary)
}

/// The time of a packed DOS timestamp.
pub open spec fn dos_time(packed: u32) -> u16 {
    (packed % 0x1_0000) as u16
}

/// The date of a packed DOS timestamp.
pub open spec fn dos_date(packed: u32) -> u16 {
    (packed / 0x1_0000) as u16
}

/// What is wrong with the bounds and the fixed part of the ZIP64 record at `at`.
pub open spec fn record_bounds_fault(cd: Seq<u8>, at: int, index: int) -> Option<Fault> {
    let signature = bytes::le32(cd, at);
    let header = CentralDirectoryHeader::at(cd, at + 4);
    let end = at + 46 + header.file_name_length + header.extra_field_length;
    if at + 46 > cd.len() {
        Some(
            Fault::MalformedV1InstallBlock(
                "central directory record "@ + text::dec_text(index as nat)
                    + " header extends past CDR size "@ + text::dec_text(cd.len()),
            ),
        )
    } else if signature != CentralDirectoryHeader::SIGNATURE {
        Some(
            Fault::InvalidSignature {
                expected: CentralDirectoryHeader::SIGNATURE,
                actual: signature,
            },
        )
    } else if v1_records::cdr_header_fault(header) is Some {
        v1_records::cdr_header_fault(header)
    } else if at + 46 + header.file_name_length > usize::MAX {
        Some(
            Fault::MalformedV1InstallBlock(
                "central directory record "@ + text::dec_text(index as nat)
                    + " name range overflow"@,
            ),
        )
    } else if end > usize::MAX {
        Some(
            Fault::MalformedV1InstallBlock(
                "central directory record "@ + text::dec_text(index as nat)
                    + " extra range overflow"@,
            ),
        )
    } else if end > cd.len() {
        Some(
            Fault::MalformedV1InstallBlock(
                "central directory record "@ + text::dec_text(index as nat) + " ends at "@
                    + text::dec_text(end as nat) + ", past CDR size "@ + text::dec_text(cd.len()),
            ),
        )
    } else {
        None
    }
}

/// The fault of an extra field with the wrong id or size.
pub open spec fn field_fault(id: u16, size: u16, expected_id: u16, expected_size: u16) -> Option<
    Fault,
> {
    if id != expected_id {
        Some(Fault::InvalidExtraFieldId { expected: expected_id, actual: id })
    } else if size != expected_size {
        Some(Fault::InvalidExtraFieldId { expected: expected_size, actual: size })
    } else {
        None
    }
}

fn check_field(id: u16, size: u16, expected_id: u16, expected_size: u16) -> (r: Result<()>)
    ensures
        match r {
            Ok(_) => field_fault(id, size, expected_id, expected_size) is None,
            Err(e) => field_fault(id, size, expected_id, expected_size) == Some(e@),
        },
{
    if id != expected_id {
        return Err(Error::InvalidExtraFieldId { expected: expected_id, actual: id });
    }
    if size != expected_size {
        return Err(Error::InvalidExtraFieldId { expected: expected_size, actual: size });
    }
    Ok(())
}

/// What is wrong with the extra fields at `at`.
pub open spec fn extras_fault(cd: Seq<u8>, at: int) -> Option<Fault> {
    let zip64 = P4kZip64ExtraField::at(cd, at);
    let encryption = P4kEncryptionExtraField::at(cd, at + 0xA4);
    let zip64_fault = field_fault(
        zip64.id,
        zip64.size,
        extra_field::ZIP64,
        extra_field::ZIP64_TOTAL_SIZE,
    );
    let signature_fault = field_fault(
        bytes::le16(cd, at + 0x20),
        bytes::le16(cd, at + 0x22),
        extra_field::P4K_5000,
        extra_field::P4K_5000_TOTAL_SIZE,
    );
    let encryption_fault = field_fault(
        encryption.id,
        encryption.size,
        extra_field::P4K_5002,
        extra_field::P4K_5002_TOTAL_SIZE,
    );
    if zip64_fault is Some {
        zip64_fault
    } else if zip64.disk_number_start != 0 {
        Some(
            Fault::MalformedV1Entry(
                "ZIP64 extra disk_number_start "@ + text::dec_text(zip64.disk_number_start as nat)
                    + ", expected 0"@,
            ),
        )
    } else if signature_fault is Some {
        signature_fault
    } else if encryption_fault is Some {
        encryption_fault
    } else if encryption.encryption > 1 {
        Some(
            Fault::MalformedV1Entry(
                "P4K encryption field "@ + text::dec_text(encryption.encryption as nat)
                    + ", expected 0 or 1"@,
            ),
        )
    } else {
        field_fault(
            bytes::le16(cd, at + 0xAA),
            bytes::le16(cd, at + 0xAC),
            extra_field::P4K_5003,
            extra_field::P4K_5003_TOTAL_SIZE,
        )
    }
}

/// The entry that the good ZIP64 record at `at` describes.
pub open spec fn zip64_entry(cd: Seq<u8>, at: int) -> EntryModel {
    let header = CentralDirectoryHeader::at(cd, at + 4);
    let extra = at + 46 + header.file_name_length;
    let zip64 = P4kZip64ExtraField::at(cd, extra);
    EntryModel {
        name: text::lossy_text(
            path::normalized(cd.subrange(at + 46, at + 46 + header.file_name_length), false),
        ),
        compressed_size: zip64.compressed_size,
        uncompressed_size: zip64.uncompressed_size,
        compression_method: zip::method_of(header.compression_method)->Some_0,
        is_encrypted: P4kEncryptionExtraField::at(cd, extra + 0xA4).encryption == 1,
        local_header_offset: zip64.local_header_offset,
        crc32: header.crc32,
        last_mod_file_time: dos_time(header.last_modified),
        last_mod_file_date: dos_date(header.last_modified),
        signature: cd.subrange(extra + 0x24, extra + 0xA4),
        sha256: cd.subrange(extra + 0xAE, extra + 0xCE),
        bytes_already_written: zip64.compressed_size,
    }
}

/// One entry of a ZIP64 directory and where the next record starts, or what is
/// wrong with the record.
pub open spec fn zip64_entry_outcome(cd: Seq<u8>, at: int, index: int) -> std::result::Result<
    (EntryModel, int),
    Fault,
> {
    let header = CentralDirectoryHeader::at(cd, at + 4);
    let extra = at + 46 + header.file_name_length;
    if record_bounds_fault(cd, at, index) is Some {
        Err(record_bounds_fault(cd, at, index)->Some_0)
    } else if extras_fault(cd, extra) is Some {
        Err(extras_fault(cd, extra)->Some_0)
    } else if zip::method_of(header.compression_method) is None {
        Err(Fault::UnsupportedCompression(header.compression_method))
    } else {
        Ok((zip64_entry(cd, at), extra + header.extra_field_length))
    }
}

fn check_record_bounds(cd: &[u8], at: usize, index: usize) -> (r: Result<CentralDirectoryHeader>)
    requires
        at <= cd@.len(),
    ensures
        match r {
            Ok(header) => {
                &&& record_bounds_fault(cd@, at as int, index as int) is None
                &&& header == CentralDirectoryHeader::at(cd@, at + 4)
                &&& header.extra_field_length == 0xCE
                &&& at + 46 + header.file_name_length + 0xCE <= cd@.len()
            },
            Err(e) => record_bounds_fault(cd@, at as int, index as int) == Some(e@),
        },
{
    assert(cd.len() == cd@.len());
    if cd.len() - at < 46 {
        return bad_v1_directory(
            String::from_str("central directory record ").concat(
                dec(index as u64).as_str(),
            ).concat(" header extends past CDR size ").concat(dec(cd.len() as u64).as_str()),
        );
    }
    let signature: u32 = get_u32(cd, at);
    if signature != CentralDirectoryHeader::SIGNATURE {
        return Err(
            Error::InvalidSignature {
                expected: CentralDirectoryHeader::SIGNATURE,
                actual: signature,
            },
        );
    }
    let header = CentralDirectoryHeader::read(cd, at + 4);
    validate_v1_cdr_fixed_header(&header)?;
    let name_end: usize = match (at + 46).checked_add(header.file_name_length as usize) {
        Some(v) => v,
        None => return bad_v1_directory(
            String::from_str("central directory record ").concat(
                dec(index as u64).as_str(),
            ).concat(" name range overflow"),
        ),
    };
    let extra_end: usize = match name_end.checked_add(header.extra_field_length as usize) {
        Some(v) => v,
        None => return bad_v1_directory(
            String::from_str("central directory record ").concat(
                dec(index as u64).as_str(),
            ).concat(" extra range overflow"),
        ),
    };
    if extra_end > cd.len() {
        return bad_v1_directory(
            String::from_str("central directory record ").concat(
                dec(index as u64).as_str(),
            ).concat(" ends at ").concat(dec(extra_end as u64).as_str()).concat(
                ", past CDR size ",
            ).concat(dec(cd.len() as u64).as_str()),
        );
    }
    Ok(header)
}

struct Extras {
    zip64: P4kZip64ExtraField,
    signature: P4kSignatureExtraField,
    encryption: P4kEncryptionExtraField,
    digest: P4kSha256ExtraField,
}

impl Extras {
    spec fn stands_at(self, cd: Seq<u8>, at: int) -> bool {
        &&& self.zip64 == P4kZip64ExtraField::at(cd, at)
        &&& self.signature.stands_at(cd, at + 0x20)
        &&& self.encryption == P4kEncryptionExtraField::at(cd, at + 0xA4)
        &&& self.digest.stands_at(cd, at + 0xAA)
    }
}

fn read_extras(cd: &[u8], at: usize) -> (r: Result<Extras>)
    requires
        at + 0xCE <= cd@.len(),
    ensures
        match r {
            Ok(extras) => {
                &&& extras_fault(cd@, at as int) is None
                &&& extras.stands_at(cd@, at as int)
            },
            Err(e) => extras_fault(cd@, at as int) == Some(e@),
        },
{
    assert(cd.len() == cd@.len());
    let zip64 = P4kZip64ExtraField::read(cd, at);
    check_field(zip64.id, zip64.size, extra_field::ZIP64, extra_field::ZIP64_TOTAL_SIZE)?;
    if zip64.disk_number_start != 0 {
        return bad_v1_entry(
            String::from_str("ZIP64 extra disk_number_start ").concat(
                dec(zip64.disk_number_start as u64).as_str(),
            ).concat(", expected 0"),
        );
    }
    let signature = P4kSignatureExtraField::read(cd, at + 0x20);
    check_field(
        signature.id,
        signature.size,
        extra_field::P4K_5000,
        extra_field::P4K_5000_TOTAL_SIZE,
    )?;
    let encryption = P4kEncryptionExtraField::read(cd, at + 0xA4);
    check_field(
        encryption.id,
        encryption.size,
        extra_field::P4K_5002,
        extra_field::P4K_5002_TOTAL_SIZE,
    )?;
    if encryption.encryption > 1 {
        return bad_v1_entry(
            String::from_str("P4K encryption field ").concat(
                dec(encryption.encryption as u64).as_str(),
            ).concat(", expected 0 or 1"),
        );
    }
    let digest = P4kSha256ExtraField::read(cd, at + 0xAA);
    check_field(
        digest.id,
        digest.size,
        extra_field::P4K_5003,
        extra_field::P4K_5003_TOTAL_SIZE,
    )?;
    Ok(Extras { zip64, signature, encryption, digest })
}

/// Read one entry of a ZIP64 directory, and say where the next record starts.
pub fn read_v1_p4k_cd_entry_at(cd: &[u8], at: usize, index: usize) -> (r: Result<
    (P4kEntryCompact, usize),
>)
    requires
        at <= cd@.len(),
    ensures
        match r {
            Ok((entry, next)) => {
                &&& zip64_entry_outcome(cd@, at as int, index as int) == Ok::<
                    (EntryModel, int),
                    Fault,
                >((entry@, next as int))
                &&& at < next <= cd@.len()
            },
            Err(e) => zip64_entry_outcome(cd@, at as int, index as int) == Err::<
                (EntryModel, int),
                Fault,
            >(e@),
        },
{
    let header = check_record_bounds(cd, at, index)?;
    assert(cd.len() == cd@.len());
    let name_start: usize = at + 46;
    let name_end: usize = name_start + header.file_name_length as usize;
    let extras = read_extras(cd, name_end)?;
    let method: CompressionMethod = match CompressionMethod::try_from(header.compression_method) {
        Ok(method) => method,
        Err(id) => return Err(Error::UnsupportedCompression(id)),
    };
    let entry = P4kEntryCompact {
        name: normalize_p4k_path_bytes(slice_subrange(cd, name_start, name_end), false),
        compressed_size: extras.zip64.compressed_size,
        uncompressed_size: extras.zip64.uncompressed_size,
        compression_method: method,
        is_encrypted: extras.encryption.encryption == 1,
        local_header_offset: extras.zip64.local_header_offset,
        crc32: header.crc32,
        last_mod_file_time: (header.last_modified % 0x1_0000) as u16,
        last_mod_file_date: (header.last_modified / 0x1_0000) as u16,
        signature: extras.signature.signature,
        sha256: extras.digest.sha256,
        bytes_already_written: extras.zip64.compressed_size,
    };
    Ok((entry, name_end + 0xCE))
}

/// The fault of bytes that end too early for a record of `needed` bytes.
pub open spec fn short_fault(needed: int, available: int) -> Fault {
    Fault::UnexpectedEof { needed: needed as u64, available: available as u64 }
}

/// One entry of a plain ZIP directory and where the next record starts, or
/// what is wrong with the record.
pub open spec fn classic_entry_outcome(cd: Seq<u8>, at: int) -> std::result::Result<
    (EntryModel, int),
    Fault,
> {
    let signature = bytes::le32(cd, at);
    let header = CentralDirectoryHeader::at(cd, at + 4);
    let name_end = at + 46 + header.file_name_length;
    let extra_end = name_end + header.extra_field_length;
    let end = extra_end + header.file_comment_length;
    if at + 4 > cd.len() {
        Err(short_fault(4, cd.len() - at))
    } else if signature != CentralDirectoryHeader::SIGNATURE {
        Err(
            Fault::InvalidSignature {
                expected: CentralDirectoryHeader::SIGNATURE,
                actual: signature,
            },
        )
    } else if at + 46 > cd.len() {
        Err(short_fault(CentralDirectoryHeader::SIZE as int, cd.len() - at - 4))
    } else if name_end > cd.len() {
        Err(short_fault(header.file_name_length as int, cd.len() - at - 46))
    } else if extra_end > cd.len() {
        Err(short_fault(header.extra_field_length as int, cd.len() - name_end))
    } else if end > cd.len() {
        Err(short_fault(header.file_comment_length as int, cd.len() - extra_end))
    } else if zip::method_of(header.compression_method) is None {
        Err(Fault::UnsupportedCompression(header.compression_method))
    } else {
        Ok(
            (
                EntryModel {
                    name: text::lossy_text(
                        path::normalized(cd.subrange(at + 46, name_end), false),
                    ),
                    compressed_size: header.compressed_size as u64,
                    uncompressed_size: header.uncompressed_size as u64,
                    compression_method: zip::method_of(header.compression_method)->Some_0,
                    is_encrypted: false,
                    local_header_offset: header.local_header_offset as u64,
                    crc32: header.crc32,
                    last_mod_file_time: dos_time(header.last_modified),
                    last_mod_file_date: dos_date(header.last_modified),
                    signature: bytes::zeros(128),
                    sha256: bytes::zeros(32),
                    bytes_already_written: header.compressed_size as u64,
                },
                end,
            ),
        )
    }
}

fn short<T>(needed: usize, available: usize) -> (r: Result<T>)
    ensures
        r matches Err(e) && e@ == short_fault(needed as int, available as int),
{
    Err(Error::UnexpectedEof { needed: needed as u64, available: available as u64 })
}

/// Read one entry of a plain ZIP directory, and say where the next record starts.
pub fn read_cd_entry_compact(cd: &[u8], at: usize) -> (r: Result<(P4kEntryCompact, usize)>)
    requires
        at <= cd@.len(),
    ensures
        match r {
            Ok((entry, next)) => {
                &&& classic_entry_outcome(cd@, at as int) == Ok::<(EntryModel, int), Fault>(
                    (entry@, next as int),
                )
                &&& at < next <= cd@.len()
            },
            Err(e) => classic_entry_outcome(cd@, at as int) == Err::<(EntryModel, int), Fault>(e@),
        },
{
    assert(cd.len() == cd@.len());
    let available: usize = cd.len() - at;
    if available < 4 {
        return short(4, available);
    }
    let signature: u32 = get_u32(cd, at);
    if signature != CentralDirectoryHeader::SIGNATURE {
        return Err(
            Error::InvalidSignature {
                expected: CentralDirectoryHeader::SIGNATURE,
                actual: signature,
            },
        );
    }
    if available < 46 {
        return short(CentralDirectoryHeader::SIZE, available - 4);
    }
    let header = CentralDirectoryHeader::read(cd, at + 4);
    let name_len: usize = header.file_name_length as usize;
    let extra_len: usize = header.extra_field_length as usize;
    let comment_len: usize = header.file_comment_length as usize;
    let name_start: usize = at + 46;
    if cd.len() - name_start < name_len {
        return short(name_len, cd.len() - name_start);
    }
    let name_end: usize = name_start + name_len;
    if cd.len() - name_end < extra_len {
        return short(extra_len, cd.len() - name_end);
    }
    let extra_end: usize = name_end + extra_len;
    if cd.len() - extra_end < comment_len {
        return short(comment_len, cd.len() - extra_end);
    }
    let method: CompressionMethod = match CompressionMethod::try_from(header.compression_method) {
        Ok(method) => method,
        Err(id) => return Err(Error::UnsupportedCompression(id)),
    };
    let signature: [u8; 128] = [0u8; 128];
    let sha256: [u8; 32] = [0u8; 32];
    assert(signature@ =~= bytes::zeros(128));
    assert(sha256@ =~= bytes::zeros(32));
    let entry = P4kEntryCompact {
        name: normalize_p4k_path_bytes(slice_subrange(cd, name_start, name_end), false),
        compressed_size: header.compressed_size as u64,
        uncompressed_size: header.uncompressed_size as u64,
        compression_method: method,
        is_encrypted: false,
        local_header_offset: header.local_header_offset as u64,
        crc32: header.crc32,
        last_mod_file_time: (header.last_modified % 0x1_0000) as u16,
        last_mod_file_date: (header.last_modified / 0x1_0000) as u16,
        signature,
        sha256,
        bytes_already_written: header.compressed_size as u64,
    };
    Ok((entry, extra_end + comment_len))
}

/// One entry of the directory and where the next record starts.
pub open spec fn entry_outcome(cd: Seq<u8>, zip64: bool, at: int, index: int) -> std::result::Result<
    (EntryModel, int),
    Fault,
> {
    if zip64 {
        zip64_entry_outcome(cd, at, index)
    } else {
        classic_entry_outcome(cd, at)
    }
}

/// The first `count` entries and where the record behind them starts, or what
/// is wrong with the first bad one.
pub open spec fn entries_outcome(cd: Seq<u8>, zip64: bool, count: nat) -> std::result::Result<
    (Seq<EntryModel>, int),
    Fault,
>
    decreases count,
{
    if count == 0 {
        Ok((Seq::empty(), 0))
    } else {
        match entries_outcome(cd, zip64, (count - 1) as nat) {
            Err(fault) => Err(fault),
            Ok((entries, at)) => match entry_outcome(cd, zip64, at, count - 1) {
                Err(fault) => Err(fault),
                Ok((entry, next)) => Ok((entries.push(entry), next)),
            },
        }
    }
}

proof fn lemma_entries_fault_stays(cd: Seq<u8>, zip64: bool, k: nat, count: nat)
    requires
        k <= count,
        entries_outcome(cd, zip64, k) is Err,
    ensures
        entries_outcome(cd, zip64, count) == entries_outcome(cd, zip64, k),
    decreases count - k,
{
    if k < count {
        lemma_entries_fault_stays(cd, zip64, k, (count - 1) as nat);
    }
}

/// The entries of a directory have their sizes.
pub proof fn lemma_entries_sized(cd: Seq<u8>, zip64: bool, count: nat)
    requires
        entries_outcome(cd, zip64, count) is Ok,
    ensures
        ({
            let (entries, at) = entries_outcome(cd, zip64, count)->Ok_0;
            &&& entries.len() == count
            &&& 0 <= at <= cd.len()
            &&& forall|i: int| 0 <= i < count ==> (#[trigger] entries[i]).is_sized()
        }),
    decreases count,
{
    if count > 0 {
        lemma_entries_sized(cd, zip64, (count - 1) as nat);
    }
}

/// Read the entries of a central directory, and say how many bytes they take.
pub fn parse_entries_sequential(cd: &[u8], count: usize, is_zip64: bool) -> (r: Result<
    (Vec<P4kEntryCompact>, usize),
>)
    ensures
        match r {
            Ok((entries, used)) => entries_outcome(cd@, is_zip64, count as nat) == Ok::<
                (Seq<EntryModel>, int),
                Fault,
            >((model::entry_models(entries@), used as int)) && used <= cd@.len(),
            Err(e) => entries_outcome(cd@, is_zip64, count as nat) == Err::<
                (Seq<EntryModel>, int),
                Fault,
            >(e@),
        },
{
    let mut entries: Vec<P4kEntryCompact> = Vec::new();
    let mut at: usize = 0;
    let mut index: usize = 0;
    assert(model::entry_models(entries@) =~= Seq::empty());
    while index < count
        invariant
            index <= count,
            at <= cd@.len(),
            entries_outcome(cd@, is_zip64, index as nat) == Ok::<(Seq<EntryModel>, int), Fault>(
                (model::entry_models(entries@), at as int),
            ),
        decreases count - index,
    {
        proof {
            if entries_outcome(cd@, is_zip64, (index + 1) as nat) is Err {
                lemma_entries_fault_stays(cd@, is_zip64, (index + 1) as nat, count as nat);
            }
        }
        let (entry, next) = if is_zip64 {
            read_v1_p4k_cd_entry_at(cd, at, index)?
        } else {
            read_cd_entry_compact(cd, at)?
        };
        let ghost before = entries@;
        entries.push(entry);
        assert(model::entry_models(entries@) =~= model::entry_models(before).push(entry@));
        at = next;
        index += 1;
    }
    Ok((entries, at))
}

} // verus!
