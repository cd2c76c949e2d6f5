//! P4K subarchive trailer helpers.
//!
//! A subarchive ends in a section of fixed size that names its central
//! directory; payload bytes are not needed to list its entries.

use vstd::prelude::*;
use vstd::seq::*;
use vstd::seq_lib::*;
use vstd::slice::*;
use vstd::string::*;
use vstd::utf8::*;

use crate::bytes;
use crate::bytes::{get_array, get_u16, get_u32, get_u64};
use crate::error;
use crate::error::{Error, Fault, Result};
use crate::text;
use crate::text::{dec, hex, strict};
use crate::zip::CompressionMethod;

verus! {

/// Size of the section at the end of a subarchive.
pub const SUBARCHIVE_EOCDR_SIZE: usize = 0x1062;

/// Where the marker stands in the section.
pub const SUBARCHIVE_MARKER_OFFSET: usize = 0x38;

/// The marker of a subarchive.
pub const SUBARCHIVE_MARKER: u16 = 0x5005;

/// Where the version stands in the section.
pub const SUBARCHIVE_VERSION_OFFSET: usize = 0x3c;

/// Where the flags stand in the section.
pub const SUBARCHIVE_FLAGS_OFFSET: usize = 0x40;

/// Where the entry count stands in the section.
pub const SUBARCHIVE_ENTRY_COUNT_OFFSET: usize = 0x20;

/// Where the size of the central directory stands in the section.
pub const SUBARCHIVE_CDR_SIZE_OFFSET: usize = 0x28;

/// Where the offset of the central directory stands in the section.
pub const SUBARCHIVE_CDR_OFFSET_OFFSET: usize = 0x30;

/// Where the number of name bytes stands in the section.
pub const SUBARCHIVE_NAME_BYTES_OFFSET: usize = 0xc8;

/// Where the name length stands in a record.
pub const SUBARCHIVE_CDR_FIXED_NAME_LEN_OFFSET: usize = 0x1c;

/// Where the name stands in a record.
pub const SUBARCHIVE_CDR_NAME_OFFSET: usize = 0x2e;

/// How many bytes a record takes besides its name.
pub const SUBARCHIVE_CDR_RECORD_OVERHEAD: usize = 0xf6;

/// Where the uncompressed size stands in a record, its name not counted.
pub const SUBARCHIVE_CDR_UNCOMPRESSED_SIZE_BASE: usize = 0x32;

/// Where the compressed size stands in a record, its name not counted.
pub const SUBARCHIVE_CDR_COMPRESSED_SIZE_BASE: usize = 0x3a;

/// Where the payload offset stands in a record, its name not counted.
pub const SUBARCHIVE_CDR_PAYLOAD_RELATIVE_BASE: usize = 0x42;

/// Where the checksum stands in a version 1 record.
pub const SUBARCHIVE_V1_CRC_OFFSET: usize = 0x10;

/// Where the signature stands in a version 1 record, its name not counted.
pub const SUBARCHIVE_V1_SIGNATURE_BASE: usize = 0x52;

/// Where the digest stands in a version 1 record, its name not counted.
pub const SUBARCHIVE_V1_SHA256_BASE: usize = 0xd6;

/// Where the checksum stands in a version 2 record, its name not counted.
pub const SUBARCHIVE_V2_CRC_BASE: usize = 0x52;

/// Where the digest stands in a version 2 record, its name not counted.
pub const SUBARCHIVE_V2_SHA256_BASE: usize = 0x56;

/// Where the signature stands in a version 2 record, its name not counted.
pub const SUBARCHIVE_V2_SIGNATURE_BASE: usize = 0x76;

/// Status of a subarchive.
#[derive(Debug, Clone, Copy, PartialEq, Eq, Structural)]
pub enum SubArchiveStatus {
    /// The subarchive is complete.
    Successful,
    /// The subarchive was not written to its end.
    ErrorIncompleteSubArchive,
    /// This is no subarchive.
    ErrorNotASubArchive,
}

/// Subarchive CDR metadata read from the section at its end.
#[derive(Debug, Clone, Copy, PartialEq, Eq, Structural)]
pub struct SubArchiveCdrInfo {
    /// Number of entries.
    pub number_of_entries: u64,
    /// Offset of the central directory.
    pub cdr_offset: u64,
    /// Size of the central directory.
    pub cdr_size: u64,
    /// Size of the central directory and the section behind it.
    pub cdr_size_including_eocdr: u64,
    /// Number of name bytes, each name with a NUL.
    pub total_name_bytes_including_nul: u64,
    /// Version of the records.
    pub version: u32,
}

/// One CDR entry of a subarchive.
#[derive(Debug, Clone, PartialEq, Eq)]
pub struct SubArchiveCdrEntry {
    /// File name.
    pub name: String,
    /// Compression method.
    pub compression_method: CompressionMethod,
    /// CRC32C of the contents.
    pub crc32: u32,
    /// Compressed size.
    pub compressed_size: u64,
    /// Uncompressed size.
    pub uncompressed_size: u64,
    /// Offset of the payload.
    pub offset_to_file_data: u64,
    /// DOS last-modified time.
    pub last_mod_file_time: u16,
    /// DOS last-modified date.
    pub last_mod_file_date: u16,
    /// Signature.
    pub signature: [u8; 128],
    /// SHA-256 of the stored bytes.
    pub sha256: [u8; 32],
}

/// One CDR entry of a subarchive, as a value.
pub struct SubEntryModel {
    pub name: Seq<char>,
    pub compression_method: CompressionMethod,
    pub crc32: u32,
    pub compressed_size: u64,
    pub uncompressed_size: u64,
    pub offset_to_file_data: u64,
    pub last_mod_file_time: u16,
    pub last_mod_file_date: u16,
    pub signature: Seq<u8>,
    pub sha256: Seq<u8>,
}

impl View for SubArchiveCdrEntry {
    type V = SubEntryModel;

    open spec fn view(&self) -> SubEntryModel {
        SubEntryModel {
            name: self.name@,
            compression_method: self.compression_method,
            crc32: self.crc32,
            compressed_size: self.compressed_size,
            uncompressed_size: self.uncompressed_size,
            offset_to_file_data: self.offset_to_file_data,
            last_mod_file_time: self.last_mod_file_time,
            last_mod_file_date: self.last_mod_file_date,
            signature: self.signature@,
            sha256: self.sha256@,
        }
    }
}

/// The models of a run of entries.
pub open spec fn sub_models(entries: Seq<SubArchiveCdrEntry>) -> Seq<SubEntryModel> {
    Seq::new(entries.len(), |i: int| entries[i]@)
}

/// Parsed P4K subarchive metadata and CDR entries.
#[derive(Debug, Clone, PartialEq, Eq)]
pub struct SubArchive {
    /// What the section at the end says.
    pub cdr_info: SubArchiveCdrInfo,
    /// The entries.
    pub entries: Vec<SubArchiveCdrEntry>,
}

/// Where the section at the end of a subarchive begins.
pub fn subarchive_eocdr_begin_offset(subarchive_size: u64) -> (r: Option<u64>)
    ensures
        r == (if subarchive_size >= SUBARCHIVE_EOCDR_SIZE {
            Some((subarchive_size - SUBARCHIVE_EOCDR_SIZE) as u64)
        } else {
            None
        }),
{
    subarchive_size.checked_sub(SUBARCHIVE_EOCDR_SIZE as u64)
}

/// Size of the section at the end of a subarchive.
pub fn subarchive_eocdr_size() -> (r: usize)
    ensures
        r == SUBARCHIVE_EOCDR_SIZE,
{
    SUBARCHIVE_EOCDR_SIZE
}

/// The status that a section tells.
pub open spec fn status_of(section: Seq<u8>) -> SubArchiveStatus {
    if section.len() < SUBARCHIVE_EOCDR_SIZE || bytes::le16(
        section,
        SUBARCHIVE_MARKER_OFFSET as int,
    ) != SUBARCHIVE_MARKER {
        SubArchiveStatus::ErrorNotASubArchive
    } else if section[SUBARCHIVE_FLAGS_OFFSET as int] % 2 == 1 {
        SubArchiveStatus::ErrorIncompleteSubArchive
    } else {
        SubArchiveStatus::Successful
    }
}

/// Check the section at the end of a subarchive.
pub fn validate_subarchive_eocdr(section: &[u8]) -> (r: SubArchiveStatus)
    ensures
        r == status_of(section@),
{
    if section.len() < SUBARCHIVE_EOCDR_SIZE {
        return SubArchiveStatus::ErrorNotASubArchive;
    }
    if get_u16(section, SUBARCHIVE_MARKER_OFFSET) != SUBARCHIVE_MARKER {
        return SubArchiveStatus::ErrorNotASubArchive;
    }
    if section[SUBARCHIVE_FLAGS_OFFSET] % 2 == 1 {
        SubArchiveStatus::ErrorIncompleteSubArchive
    } else {
        SubArchiveStatus::Successful
    }
}

/// What the section at the end of a subarchive says, or what is wrong with it.
pub open spec fn info_outcome(section: Seq<u8>) -> std::result::Result<SubArchiveCdrInfo, Fault> {
    let cdr_size = bytes::le64(section, SUBARCHIVE_CDR_SIZE_OFFSET as int);
    if status_of(section) == SubArchiveStatus::ErrorIncompleteSubArchive {
        Err(Fault::MalformedSubArchive("incomplete P4K subarchive"@))
    } else if status_of(section) == SubArchiveStatus::ErrorNotASubArchive {
        Err(Fault::MalformedSubArchive("not a P4K subarchive EOCDR section"@))
    } else if cdr_size + SUBARCHIVE_EOCDR_SIZE > u64::MAX {
        Err(Fault::MalformedSubArchive("subarchive CDR size overflow"@))
    } else {
        Ok(
            SubArchiveCdrInfo {
                number_of_entries: bytes::le64(section, SUBARCHIVE_ENTRY_COUNT_OFFSET as int),
                cdr_offset: bytes::le64(section, SUBARCHIVE_CDR_OFFSET_OFFSET as int),
                cdr_size,
                cdr_size_including_eocdr: (cdr_size + SUBARCHIVE_EOCDR_SIZE) as u64,
                total_name_bytes_including_nul: bytes::le64(
                    section,
                    SUBARCHIVE_NAME_BYTES_OFFSET as int,
                ),
                version: bytes::le32(section, SUBARCHIVE_VERSION_OFFSET as int),
            },
        )
    }
}

fn bad<T>(message: String) -> (r: Result<T>)
    ensures
        r matches Err(e) && e@ == Fault::MalformedSubArchive(message@),
{
    Err(Error::MalformedSubArchive(message))
}

/// Read the section at the end of a subarchive.
pub fn parse_subarchive_cdr_info(section: &[u8]) -> (r: Result<SubArchiveCdrInfo>)
    ensures
        error::outcome(r) == info_outcome(section@),
{
    match validate_subarchive_eocdr(section) {
        SubArchiveStatus::Successful => {},
        SubArchiveStatus::ErrorIncompleteSubArchive => return bad(
            String::from_str("incomplete P4K subarchive"),
        ),
        SubArchiveStatus::ErrorNotASubArchive => return bad(
            String::from_str("not a P4K subarchive EOCDR section"),
        ),
    }
    let cdr_size: u64 = get_u64(section, SUBARCHIVE_CDR_SIZE_OFFSET);
    let cdr_size_including_eocdr: u64 = match cdr_size.checked_add(SUBARCHIVE_EOCDR_SIZE as u64) {
        Some(v) => v,
        None => return bad(String::from_str("subarchive CDR size overflow")),
    };
    Ok(
        SubArchiveCdrInfo {
            number_of_entries: get_u64(section, SUBARCHIVE_ENTRY_COUNT_OFFSET),
            cdr_offset: get_u64(section, SUBARCHIVE_CDR_OFFSET_OFFSET),
            cdr_size,
            cdr_size_including_eocdr,
            total_name_bytes_including_nul: get_u64(section, SUBARCHIVE_NAME_BYTES_OFFSET),
            version: get_u32(section, SUBARCHIVE_VERSION_OFFSET),
        },
    )
}

/// The name length that the record at `at` gives.
pub open spec fn name_length(cdr: Seq<u8>, at: int) -> int {
    bytes::le16(cdr, at + SUBARCHIVE_CDR_FIXED_NAME_LEN_OFFSET) as int
}

/// Where the record behind the one at `at` starts.
pub open spec fn next_record(cdr: Seq<u8>, at: int) -> int {
    at + name_length(cdr, at) + SUBARCHIVE_CDR_RECORD_OVERHEAD
}

/// The name of the record at `at`.
pub open spec fn raw_name(cdr: Seq<u8>, at: int) -> Seq<u8> {
    let from = at + SUBARCHIVE_CDR_NAME_OFFSET;
    cdr.subrange(from, from + name_length(cdr, at))
}

/// What is wrong with the record at `at`.
pub open spec fn record_fault(cdr: Seq<u8>, at: int, version: u64) -> Option<Fault> {
    let base = at + name_length(cdr, at);
    let relative = bytes::le64(cdr, base + SUBARCHIVE_CDR_PAYLOAD_RELATIVE_BASE);
    if at + SUBARCHIVE_CDR_FIXED_NAME_LEN_OFFSET + 2 > cdr.len() {
        Some(
            Fault::MalformedSubArchive(
                "subarchive EOCDR missing u16 at 0x"@ + text::hex_text(
                    (at + SUBARCHIVE_CDR_FIXED_NAME_LEN_OFFSET) as nat,
                ),
            ),
        )
    } else if next_record(cdr, at) > usize::MAX {
        Some(Fault::MalformedSubArchive("subarchive CDR record range overflow"@))
    } else if next_record(cdr, at) > cdr.len() {
        Some(
            Fault::MalformedSubArchive(
                "subarchive CDR record at 0x"@ + text::hex_text(at as nat)
                    + " extends past CDR size "@ + text::dec_text(cdr.len()),
            ),
        )
    } else if !valid_utf8(raw_name(cdr, at)) {
        Some(
            Fault::MalformedSubArchive(
                "subarchive CDR name is not UTF-8: "@ + text::utf8_error_text(raw_name(cdr, at)),
            ),
        )
    } else if version != 1 && version != 2 {
        Some(
            Fault::MalformedSubArchive(
                "unsupported P4K subarchive version "@ + text::dec_text(version as nat),
            ),
        )
    } else if name_length(cdr, at) + relative + 0x3e > u64::MAX {
        Some(Fault::MalformedSubArchive("subarchive payload offset overflow"@))
    } else {
        None
    }
}

/// The entry that the good record at `at` describes.
pub open spec fn record_at(cdr: Seq<u8>, at: int, version: u64) -> SubEntryModel {
    let length = name_length(cdr, at);
    let base = at + length;
    let crc_at = if version == 1 {
        at + SUBARCHIVE_V1_CRC_OFFSET
    } else {
        base + SUBARCHIVE_V2_CRC_BASE
    };
    let signature_at = if version == 1 {
        base + SUBARCHIVE_V1_SIGNATURE_BASE
    } else {
        base + SUBARCHIVE_V2_SIGNATURE_BASE
    };
    let digest_at = if version == 1 {
        base + SUBARCHIVE_V1_SHA256_BASE
    } else {
        base + SUBARCHIVE_V2_SHA256_BASE
    };
    SubEntryModel {
        name: decode_utf8(raw_name(cdr, at)),
        compression_method: CompressionMethod::ZstdDeprecated,
        crc32: bytes::le32(cdr, crc_at),
        compressed_size: bytes::le64(cdr, base + SUBARCHIVE_CDR_COMPRESSED_SIZE_BASE),
        uncompressed_size: bytes::le64(cdr, base + SUBARCHIVE_CDR_UNCOMPRESSED_SIZE_BASE),
        offset_to_file_data: (length + bytes::le64(
            cdr,
            base + SUBARCHIVE_CDR_PAYLOAD_RELATIVE_BASE,
        ) + 0x3e) as u64,
        last_mod_file_time: bytes::le16(cdr, at + 0x0c),
        last_mod_file_date: bytes::le16(cdr, at + 0x0e),
        signature: cdr.subrange(signature_at, signature_at + 128),
        sha256: cdr.subrange(digest_at, digest_at + 32),
    }
}

/// The entries from `at` to the end, or what is wrong with the first bad one.
pub open spec fn entries_from(cdr: Seq<u8>, version: u64, at: int) -> std::result::Result<
    Seq<SubEntryModel>,
    Fault,
>
    decreases cdr.len() - at,
{
    if at >= cdr.len() {
        Ok(Seq::empty())
    } else {
        match record_fault(cdr, at, version) {
            Some(fault) => Err(fault),
            None => match entries_from(cdr, version, next_record(cdr, at)) {
                Err(fault) => Err(fault),
                Ok(rest) => Ok(seq![record_at(cdr, at, version)] + rest),
            },
        }
    }
}

fn read_record(cdr: &[u8], at: usize, version: u64) -> (r: Result<(SubArchiveCdrEntry, usize)>)
    requires
        at < cdr@.len(),
        cdr@.len() + SUBARCHIVE_CDR_FIXED_NAME_LEN_OFFSET <= usize::MAX,
    ensures
        match r {
            Ok((entry, next)) => {
                &&& record_fault(cdr@, at as int, version) is None
                &&& entry@ == record_at(cdr@, at as int, version)
                &&& next == next_record(cdr@, at as int)
                &&& next <= cdr@.len()
            },
            Err(e) => record_fault(cdr@, at as int, version) == Some(e@),
        },
{
    assert(cdr.len() == cdr@.len());
    let length_at: usize = at + SUBARCHIVE_CDR_FIXED_NAME_LEN_OFFSET;
    if cdr.len() < length_at || cdr.len() - length_at < 2 {
        return bad(
            String::from_str("subarchive EOCDR missing u16 at 0x").concat(
                hex(length_at as u64).as_str(),
            ),
        );
    }
    let name_len: usize = get_u16(cdr, length_at) as usize;
    let next: usize = match at.checked_add(name_len + SUBARCHIVE_CDR_RECORD_OVERHEAD) {
        Some(v) => v,
        None => return bad(String::from_str("subarchive CDR record range overflow")),
    };
    if next > cdr.len() {
        return bad(
            String::from_str("subarchive CDR record at 0x").concat(
                hex(at as u64).as_str(),
            ).concat(" extends past CDR size ").concat(dec(cdr.len() as u64).as_str()),
        );
    }
    let name_at: usize = at + SUBARCHIVE_CDR_NAME_OFFSET;
    let name: String = match strict(slice_subrange(cdr, name_at, name_at + name_len)) {
        Ok(name) => name,
        Err(report) => return bad(
            String::from_str("subarchive CDR name is not UTF-8: ").concat(report.as_str()),
        ),
    };
    if version != 1 && version != 2 {
        return bad(
            String::from_str("unsupported P4K subarchive version ").concat(
                dec(version).as_str(),
            ),
        );
    }
    let base: usize = at + name_len;
    let relative: u64 = get_u64(cdr, base + SUBARCHIVE_CDR_PAYLOAD_RELATIVE_BASE);
    let offset_to_file_data: u64 = match relative.checked_add(name_len as u64 + 0x3e) {
        Some(v) => v,
        None => return bad(String::from_str("subarchive payload offset overflow")),
    };
    let (crc_at, signature_at, digest_at): (usize, usize, usize) = if version == 1 {
        (
            at + SUBARCHIVE_V1_CRC_OFFSET,
            base + SUBARCHIVE_V1_SIGNATURE_BASE,
            base + SUBARCHIVE_V1_SHA256_BASE,
        )
    } else {
        (
            base + SUBARCHIVE_V2_CRC_BASE,
            base + SUBARCHIVE_V2_SIGNATURE_BASE,
            base + SUBARCHIVE_V2_SHA256_BASE,
        )
    };
    let entry = SubArchiveCdrEntry {
        name,
        compression_method: CompressionMethod::ZstdDeprecated,
        crc32: get_u32(cdr, crc_at),
        compressed_size: get_u64(cdr, base + SUBARCHIVE_CDR_COMPRESSED_SIZE_BASE),
        uncompressed_size: get_u64(cdr, base + SUBARCHIVE_CDR_UNCOMPRESSED_SIZE_BASE),
        offset_to_file_data,
        last_mod_file_time: get_u16(cdr, at + 0x0c),
        last_mod_file_date: get_u16(cdr, at + 0x0e),
        signature: get_array::<128>(cdr, signature_at),
        sha256: get_array::<32>(cdr, digest_at),
    };
    Ok((entry, next))
}

/// List the entries of a central directory.
pub fn parse_subarchive_cdr_entries(cdr: &[u8], version: u64) -> (r: Result<
    Vec<SubArchiveCdrEntry>,
>)
    requires
        cdr@.len() + SUBARCHIVE_CDR_FIXED_NAME_LEN_OFFSET <= usize::MAX,
    ensures
        match r {
            Ok(entries) => entries_from(cdr@, version, 0) == Ok::<Seq<SubEntryModel>, Fault>(
                sub_models(entries@),
            ),
            Err(e) => entries_from(cdr@, version, 0) == Err::<Seq<SubEntryModel>, Fault>(e@),
        },
{
    let mut entries: Vec<SubArchiveCdrEntry> = Vec::new();
    let mut at: usize = 0;
    proof {
        if let Ok(rest) = entries_from(cdr@, version, 0) {
            assert(sub_models(entries@) + rest =~= rest);
        }
    }
    while at < cdr.len()
        invariant
            at <= cdr@.len(),
            cdr@.len() + SUBARCHIVE_CDR_FIXED_NAME_LEN_OFFSET <= usize::MAX,
            entries_from(cdr@, version, 0) == (match entries_from(cdr@, version, at as int) {
                Err(fault) => Err::<Seq<SubEntryModel>, Fault>(fault),
                Ok(rest) => Ok::<Seq<SubEntryModel>, Fault>(sub_models(entries@) + rest),
            }),
        decreases cdr@.len() - at,
    {
        let (entry, next) = read_record(cdr, at, version)?;
        let ghost before = sub_models(entries@);
        entries.push(entry);
        proof {
            assert(sub_models(entries@) =~= before.push(entry@));
            if let Ok(rest) = entries_from(cdr@, version, next as int) {
                assert(before + (seq![entry@] + rest) =~= sub_models(entries@) + rest);
            }
        }
        at = next;
    }
    assert(sub_models(entries@) + Seq::empty() =~= sub_models(entries@));
    Ok(entries)
}

/// What is wrong with the place of the central directory, with the section at
/// its end starting at `section_at`.
pub open spec fn place_fault(info: SubArchiveCdrInfo, section_at: int) -> Option<Fault> {
    let end = info.cdr_offset + info.cdr_size;
    if info.cdr_offset > usize::MAX {
        Some(Fault::MalformedSubArchive("subarchive CDR offset overflows usize"@))
    } else if info.cdr_size > usize::MAX {
        Some(Fault::MalformedSubArchive("subarchive CDR size overflows usize"@))
    } else if end > usize::MAX {
        Some(Fault::MalformedSubArchive("subarchive CDR range overflow"@))
    } else if end != section_at {
        Some(
            Fault::MalformedSubArchive(
                "subarchive CDR ends at "@ + text::dec_text(end as nat)
                    + ", expected EOCDR start "@ + text::dec_text(section_at as nat),
            ),
        )
    } else {
        None
    }
}

/// The entries of a subarchive, if there are as many as there should be.
pub open spec fn counted_outcome(cdr: Seq<u8>, info: SubArchiveCdrInfo) -> std::result::Result<
    Seq<SubEntryModel>,
    Fault,
> {
    match entries_from(cdr, info.version as u64, 0) {
        Err(fault) => Err(fault),
        Ok(entries) => if entries.len() != info.number_of_entries {
            Err(
                Fault::MalformedSubArchive(
                    "subarchive CDR entry count "@ + text::dec_text(entries.len())
                        + ", expected "@ + text::dec_text(info.number_of_entries as nat),
                ),
            )
        } else {
            Ok(entries)
        },
    }
}

/// What a subarchive holds, or what is wrong with it.
pub open spec fn subarchive_outcome(data: Seq<u8>) -> std::result::Result<
    (SubArchiveCdrInfo, Seq<SubEntryModel>),
    Fault,
> {
    let section_at = data.len() - SUBARCHIVE_EOCDR_SIZE;
    if section_at < 0 {
        Err(
            Fault::MalformedSubArchive(
                "subarchive has "@ + text::dec_text(data.len()) + " bytes, need at least "@
                    + text::dec_text(SUBARCHIVE_EOCDR_SIZE as nat),
            ),
        )
    } else {
        match info_outcome(data.skip(section_at)) {
            Err(fault) => Err(fault),
            Ok(info) => match place_fault(info, section_at) {
                Some(fault) => Err(fault),
                None => match counted_outcome(
                    data.subrange(info.cdr_offset as int, section_at),
                    info,
                ) {
                    Err(fault) => Err(fault),
                    Ok(entries) => Ok((info, entries)),
                },
            },
        }
    }
}

/// Check the place of the central directory of a subarchive.
pub fn check_subarchive_place(info: &SubArchiveCdrInfo, section_at: u64) -> (r: Result<()>)
    ensures
        match r {
            Ok(_) => place_fault(*info, section_at as int) is None,
            Err(e) => place_fault(*info, section_at as int) == Some(e@),
        },
{
    if info.cdr_offset > usize::MAX as u64 {
        return bad(String::from_str("subarchive CDR offset overflows usize"));
    }
    if info.cdr_size > usize::MAX as u64 {
        return bad(String::from_str("subarchive CDR size overflows usize"));
    }
    let end: usize = match (info.cdr_offset as usize).checked_add(info.cdr_size as usize) {
        Some(v) => v,
        None => return bad(String::from_str("subarchive CDR range overflow")),
    };
    if end as u64 != section_at {
        return bad(
            String::from_str("subarchive CDR ends at ").concat(dec(end as u64).as_str()).concat(
                ", expected EOCDR start ",
            ).concat(dec(section_at).as_str()),
        );
    }
    Ok(())
}

/// List the entries of a subarchive from its central directory.
pub fn read_subarchive_entries(cdr: &[u8], info: &SubArchiveCdrInfo) -> (r: Result<
    Vec<SubArchiveCdrEntry>,
>)
    requires
        cdr@.len() + SUBARCHIVE_CDR_FIXED_NAME_LEN_OFFSET <= usize::MAX,
    ensures
        match r {
            Ok(entries) => counted_outcome(cdr@, *info) == Ok::<Seq<SubEntryModel>, Fault>(
                sub_models(entries@),
            ),
            Err(e) => counted_outcome(cdr@, *info) == Err::<Seq<SubEntryModel>, Fault>(e@),
        },
{
    let entries: Vec<SubArchiveCdrEntry> = parse_subarchive_cdr_entries(cdr, info.version as u64)?;
    if entries.len() as u64 != info.number_of_entries {
        return bad(
            String::from_str("subarchive CDR entry count ").concat(
                dec(entries.len() as u64).as_str(),
            ).concat(", expected ").concat(dec(info.number_of_entries).as_str()),
        );
    }
    Ok(entries)
}

/// Parse a complete P4K subarchive.
pub fn parse_subarchive(data: &[u8]) -> (r: Result<SubArchive>)
    ensures
        match r {
            Ok(archive) => subarchive_outcome(data@) == Ok::<
                (SubArchiveCdrInfo, Seq<SubEntryModel>),
                Fault,
            >((archive.cdr_info, sub_models(archive.entries@))),
            Err(e) => subarchive_outcome(data@) == Err::<
                (SubArchiveCdrInfo, Seq<SubEntryModel>),
                Fault,
            >(e@),
        },
{
    assert(data.len() == data@.len());
    if data.len() < SUBARCHIVE_EOCDR_SIZE {
        return bad(
            String::from_str("subarchive has ").concat(dec(data.len() as u64).as_str()).concat(
                " bytes, need at least ",
            ).concat(dec(SUBARCHIVE_EOCDR_SIZE as u64).as_str()),
        );
    }
    let section_at: usize = data.len() - SUBARCHIVE_EOCDR_SIZE;
    let section = slice_subrange(data, section_at, data.len());
    assert(section@ =~= data@.skip(section_at as int));
    let cdr_info = parse_subarchive_cdr_info(section)?;
    check_subarchive_place(&cdr_info, section_at as u64)?;
    let cdr = slice_subrange(data, cdr_info.cdr_offset as usize, section_at);
    let entries: Vec<SubArchiveCdrEntry> = read_subarchive_entries(cdr, &cdr_info)?;
    Ok(SubArchive { cdr_info, entries })
}

proof fn lemma_record_of_part(s: Seq<u8>, from: int, to: int, at: int, version: u64)
    requires
        0 <= from <= to <= s.len() <= usize::MAX,
        0 <= at,
        record_fault(s.subrange(from, to), at, version) is None,
    ensures
        record_fault(s, from + at, version) is None,
        record_at(s, from + at, version) == record_at(s.subrange(from, to), at, version),
        next_record(s, from + at) == from + next_record(s.subrange(from, to), at),
        next_record(s.subrange(from, to), at) <= to - from,
{
    let part = s.subrange(from, to);
    bytes::lemma_reads_of_part(s, from, to, at + SUBARCHIVE_CDR_FIXED_NAME_LEN_OFFSET);
    let length = name_length(part, at);
    let base = at + length;
    bytes::lemma_reads_of_part(s, from, to, base + SUBARCHIVE_CDR_PAYLOAD_RELATIVE_BASE);
    bytes::lemma_reads_of_part(s, from, to, base + SUBARCHIVE_CDR_COMPRESSED_SIZE_BASE);
    bytes::lemma_reads_of_part(s, from, to, base + SUBARCHIVE_CDR_UNCOMPRESSED_SIZE_BASE);
    bytes::lemma_reads_of_part(s, from, to, at + SUBARCHIVE_V1_CRC_OFFSET);
    bytes::lemma_reads_of_part(s, from, to, base + SUBARCHIVE_V2_CRC_BASE);
    bytes::lemma_reads_of_part(s, from, to, at + 0x0c);
    bytes::lemma_reads_of_part(s, from, to, at + 0x0e);
    assert(raw_name(s, from + at) =~= raw_name(part, at));
    let whole = record_at(s, from + at, version);
    let other = record_at(part, at, version);
    assert(whole.signature =~= other.signature);
    assert(whole.sha256 =~= other.sha256);
}

proof fn lemma_entries_of_part(s: Seq<u8>, from: int, to: int, at: int, version: u64)
    requires
        0 <= from <= to <= s.len() <= usize::MAX,
        0 <= at <= to - from,
        entries_from(s.subrange(from, to), version, at) is Ok,
    ensures
        entries_from(s, version, from + at) == (match entries_from(s, version, to) {
            Err(fault) => Err::<Seq<SubEntryModel>, Fault>(fault),
            Ok(rest) => Ok::<Seq<SubEntryModel>, Fault>(
                entries_from(s.subrange(from, to), version, at)->Ok_0 + rest,
            ),
        }),
    decreases to - from - at,
{
    let part = s.subrange(from, to);
    if at < to - from {
        let next = next_record(part, at);
        lemma_record_of_part(s, from, to, at, version);
        lemma_entries_of_part(s, from, to, next, version);
        let one = seq![record_at(part, at, version)];
        if let Ok(rest) = entries_from(s, version, to) {
            let listed = entries_from(part, version, next)->Ok_0;
            assert(one + (listed + rest) =~= (one + listed) + rest);
        }
    } else if let Ok(rest) = entries_from(s, version, to) {
        assert(Seq::<SubEntryModel>::empty() + rest =~= rest);
    }
}

/// Two central directories one behind the other list the entries of both: no
/// field of an entry depends on where its record stands.
pub proof fn law_directories_join(a: Seq<u8>, b: Seq<u8>, version: u64)
    requires
        (a + b).len() <= usize::MAX,
    ensures
        entries_from(a, version, 0) is Ok && entries_from(b, version, 0) is Ok ==> entries_from(
            a + b,
            version,
            0,
        ) == Ok::<Seq<SubEntryModel>, Fault>(
            entries_from(a, version, 0)->Ok_0 + entries_from(b, version, 0)->Ok_0,
        ),
{
    if entries_from(a, version, 0) is Ok && entries_from(b, version, 0) is Ok {
        let s = a + b;
        let n = a.len() as int;
        let end = s.len() as int;
        assert(s.subrange(0, n) =~= a);
        assert(s.subrange(n, end) =~= b);
        lemma_entries_of_part(s, n, end, 0, version);
        lemma_entries_of_part(s, 0, n, 0, version);
        let ys = entries_from(b, version, 0)->Ok_0;
        assert(entries_from(s, version, end) == Ok::<Seq<SubEntryModel>, Fault>(Seq::empty()));
        assert(ys + Seq::empty() =~= ys);
    }
}

} // verus!
