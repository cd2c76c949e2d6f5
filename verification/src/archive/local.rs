//! Local records of a v1 archive: where a payload stands behind its header.

use vstd::prelude::*;
use vstd::slice::*;
use vstd::string::*;
use vstd::utf8::*;

use crate::align;
use crate::align::{is_power_of_two, v1_local_record_size_from_name_len};
use crate::archive::model::{EntryModel, P4kEntryRef};
use crate::bytes;
use crate::bytes::{get_u16, get_u32, same_bytes};
use crate::error;
use crate::error::{bad_v1_entry, invalid_input, unexpected_eof, Error, Fault, Result};
use crate::path;
use crate::path::{filename_handle_bytes, normalize_bytes};
use crate::text;
use crate::text::{dec, dword, word};
use crate::zip::central_dir::extra_field;
use crate::zip::{LocalFileHeader, P4kZip64ExtraField};

verus! {

/// Whether a local record can start with `signature`.
pub open spec fn is_local_signature(signature: u32) -> bool {
    signature == LocalFileHeader::SIGNATURE || signature == LocalFileHeader::SIGNATURE_EXTENDED
}

/// The header of the local record at `at`.
pub open spec fn header_at(data: Seq<u8>, at: int) -> LocalFileHeader {
    LocalFileHeader::at(data, at + 4)
}

/// How many bytes the header, the name and the extra fields take.
pub open spec fn header_span(header: LocalFileHeader) -> int {
    4 + LocalFileHeader::SIZE + header.file_name_length + header.extra_field_length
}

/// Where a payload starts that stands directly behind its header.
pub open spec fn zip_payload_outcome(at: int, header: LocalFileHeader) -> std::result::Result<
    usize,
    Fault,
> {
    if at + header_span(header) > usize::MAX {
        Err(error::invalid_input_fault("local payload offset overflow"@))
    } else {
        Ok((at + header_span(header)) as usize)
    }
}

/// Whether the header fills a sector, so that the payload stands behind the
/// whole aligned record.
pub open spec fn fills_sector(header: LocalFileHeader) -> bool {
    &&& header.compressed_size == u32::MAX
    &&& header.uncompressed_size == u32::MAX
    &&& header.extra_field_length >= 0x24
    &&& align::is_pow2(header_span(header) as nat)
}

/// Where a payload starts, as its header tells.
pub open spec fn payload_outcome(at: int, header: LocalFileHeader) -> std::result::Result<
    usize,
    Fault,
> {
    let record = align::v1_record_size(header.file_name_length as int, header_span(header));
    if !fills_sector(header) {
        zip_payload_outcome(at, header)
    } else if at + record > usize::MAX {
        Err(error::invalid_input_fault("P4K v1 local record offset overflow"@))
    } else {
        Ok((at + record) as usize)
    }
}

/// Find a payload that stands directly behind its header.
pub fn zip_local_payload_offset(at: usize, header: &LocalFileHeader) -> (r: Result<usize>)
    ensures
        error::outcome(r) == zip_payload_outcome(at as int, *header),
{
    match at.checked_add(4 + LocalFileHeader::SIZE + header.variable_data_size()) {
        Some(offset) => Ok(offset),
        None => Err(invalid_input("local payload offset overflow")),
    }
}

/// Find a payload by what its header tells.
pub fn local_payload_offset(at: usize, header: &LocalFileHeader) -> (r: Result<usize>)
    ensures
        error::outcome(r) == payload_outcome(at as int, *header),
{
    if header.compressed_size == u32::MAX && header.uncompressed_size == u32::MAX
        && header.extra_field_length >= 0x24 {
        let span: u64 = 4 + LocalFileHeader::SIZE as u64 + header.file_name_length as u64
            + header.extra_field_length as u64;
        if is_power_of_two(span) {
            let record: Option<u64> = v1_local_record_size_from_name_len(
                header.file_name_length as u64,
                span,
            );
            if let Some(size) = record {
                proof {
                    align::lemma_aligned_up(header.file_name_length + span + 0x3D, span as int);
                }
                return match at.checked_add(size as usize) {
                    Some(offset) => Ok(offset),
                    None => Err(invalid_input("P4K v1 local record offset overflow")),
                };
            }
        }
    }
    zip_local_payload_offset(at, header)
}

/// How far a payload stands behind its header, or why it cannot.
pub open spec fn record_size_between(at: int, payload: int) -> std::result::Result<u64, Fault> {
    if payload < at {
        Err(
            Fault::MalformedV1Entry(
                "local payload offset "@ + text::dec_text(payload as nat)
                    + " is before local header offset "@ + text::dec_text(at as nat),
            ),
        )
    } else {
        Ok((payload - at) as u64)
    }
}

/// Compute the size of a local record from where it and its payload start.
pub fn checked_local_record_size(local_header_offset: usize, payload_offset: usize) -> (r: Result<
    u64,
>)
    ensures
        error::outcome(r) == record_size_between(
            local_header_offset as int,
            payload_offset as int,
        ),
{
    if payload_offset < local_header_offset {
        return bad_v1_entry(
            String::from_str("local payload offset ").concat(
                dec(payload_offset as u64).as_str(),
            ).concat(" is before local header offset ").concat(
                dec(local_header_offset as u64).as_str(),
            ),
        );
    }
    Ok((payload_offset - local_header_offset) as u64)
}

/// What is wrong with a local record whose size is wanted.
pub open spec fn record_bounds_fault(data: Seq<u8>, offset: u64) -> Option<Fault> {
    let signature = bytes::le32(data, offset as int);
    if offset > usize::MAX {
        Some(Fault::MalformedV1Entry("local header offset overflows usize"@))
    } else if offset + 4 > data.len() {
        Some(Fault::MalformedV1Entry("local header offset out of bounds"@))
    } else if !is_local_signature(signature) {
        Some(
            Fault::InvalidSignature { expected: LocalFileHeader::SIGNATURE, actual: signature },
        )
    } else if offset + 4 + LocalFileHeader::SIZE > data.len() {
        Some(Fault::MalformedV1Entry("local header out of bounds"@))
    } else {
        None
    }
}

/// The size of the local record at `offset`.
pub open spec fn record_size_outcome(data: Seq<u8>, offset: u64) -> std::result::Result<
    u64,
    Fault,
> {
    match record_bounds_fault(data, offset) {
        Some(fault) => Err(fault),
        None => match payload_outcome(offset as int, header_at(data, offset as int)) {
            Err(fault) => Err(fault),
            Ok(payload) => record_size_between(offset as int, payload as int),
        },
    }
}

/// Compute the size of the local record at `local_header_offset`.
pub fn v1_local_record_size(data: &[u8], local_header_offset: u64) -> (r: Result<u64>)
    ensures
        error::outcome(r) == record_size_outcome(data@, local_header_offset),
{
    assert(data.len() == data@.len());
    if local_header_offset > usize::MAX as u64 {
        return bad_v1_entry(String::from_str("local header offset overflows usize"));
    }
    let offset: usize = local_header_offset as usize;
    if data.len() < 4 || offset > data.len() - 4 {
        return bad_v1_entry(String::from_str("local header offset out of bounds"));
    }
    let signature: u32 = get_u32(data, offset);
    if signature != LocalFileHeader::SIGNATURE && signature != LocalFileHeader::SIGNATURE_EXTENDED {
        return Err(
            Error::InvalidSignature { expected: LocalFileHeader::SIGNATURE, actual: signature },
        );
    }
    if data.len() < 4 + LocalFileHeader::SIZE || offset > data.len() - (4 + LocalFileHeader::SIZE) {
        return bad_v1_entry(String::from_str("local header out of bounds"));
    }
    let header = LocalFileHeader::read(data, offset + 4);
    let payload: usize = local_payload_offset(offset, &header)?;
    checked_local_record_size(offset, payload)
}

/// What is wrong with a local record that is to be read.
pub open spec fn bounds_fault(data: Seq<u8>, offset: u64) -> Option<Fault> {
    let signature = bytes::le32(data, offset as int);
    if offset > usize::MAX {
        Some(error::invalid_input_fault("local header offset overflows usize"@))
    } else if offset + 4 > usize::MAX {
        Some(error::invalid_input_fault("local header signature range overflow"@))
    } else if offset + 4 > data.len() {
        Some(error::eof_fault("local header offset out of bounds"@))
    } else if !is_local_signature(signature) {
        Some(
            Fault::InvalidSignature { expected: LocalFileHeader::SIGNATURE, actual: signature },
        )
    } else if offset + 4 + LocalFileHeader::SIZE > usize::MAX {
        Some(error::invalid_input_fault("local header range overflow"@))
    } else if offset + 4 + LocalFileHeader::SIZE > data.len() {
        Some(error::eof_fault("local header out of bounds"@))
    } else {
        None
    }
}

fn read_header(data: &[u8], local_header_offset: u64) -> (r: Result<LocalFileHeader>)
    ensures
        match r {
            Ok(header) => {
                &&& bounds_fault(data@, local_header_offset) is None
                &&& header == header_at(data@, local_header_offset as int)
            },
            Err(e) => bounds_fault(data@, local_header_offset) == Some(e@),
        },
{
    assert(data.len() == data@.len());
    if local_header_offset > usize::MAX as u64 {
        return Err(invalid_input("local header offset overflows usize"));
    }
    let offset: usize = local_header_offset as usize;
    let signature_end: usize = match offset.checked_add(4) {
        Some(v) => v,
        None => return Err(invalid_input("local header signature range overflow")),
    };
    if signature_end > data.len() {
        return Err(unexpected_eof("local header offset out of bounds"));
    }
    let signature: u32 = get_u32(data, offset);
    if signature != LocalFileHeader::SIGNATURE && signature != LocalFileHeader::SIGNATURE_EXTENDED {
        return Err(
            Error::InvalidSignature { expected: LocalFileHeader::SIGNATURE, actual: signature },
        );
    }
    let header_end: usize = match signature_end.checked_add(LocalFileHeader::SIZE) {
        Some(v) => v,
        None => return Err(invalid_input("local header range overflow")),
    };
    if header_end > data.len() {
        return Err(unexpected_eof("local header out of bounds"));
    }
    Ok(LocalFileHeader::read(data, signature_end))
}

/// What is wrong with the fixed fields of a local header.
///
/// The method and the times in a local header only repeat what the central
/// directory says, and are not held against it.
pub open spec fn metadata_fault(header: LocalFileHeader, crc32: u32) -> Option<Fault> {
    if header.version_needed != 45 {
        Some(
            Fault::MalformedV1Entry(
                "local header version_needed "@ + text::dec_text(header.version_needed as nat)
                    + ", expected 45"@,
            ),
        )
    } else if header.flags != 0 {
        Some(
            Fault::MalformedV1Entry(
                "local header flags "@ + text::dec_text(header.flags as nat) + ", expected 0"@,
            ),
        )
    } else if header.crc32 != crc32 {
        Some(
            Fault::MalformedV1Entry(
                "local header CRC32 "@ + text::dword_text(header.crc32) + ", expected "@
                    + text::dword_text(crc32),
            ),
        )
    } else if header.compressed_size != u32::MAX || header.uncompressed_size != u32::MAX {
        Some(
            Fault::MalformedV1Entry(
                "local header size sentinels "@ + text::dword_text(header.compressed_size) + "/"@
                    + text::dword_text(header.uncompressed_size)
                    + ", expected 0xffffffff/0xffffffff"@,
            ),
        )
    } else {
        None
    }
}

/// Check the fixed fields of a local header.
fn validate_v1_local_header_metadata(header: &LocalFileHeader, crc32: u32) -> (r: Result<()>)
    ensures
        match r {
            Ok(_) => metadata_fault(*header, crc32) is None,
            Err(e) => metadata_fault(*header, crc32) == Some(e@),
        },
{
    if header.version_needed != 45 {
        return bad_v1_entry(
            String::from_str("local header version_needed ").concat(
                dec(header.version_needed as u64).as_str(),
            ).concat(", expected 45"),
        );
    }
    if header.flags != 0 {
        return bad_v1_entry(
            String::from_str("local header flags ").concat(
                dec(header.flags as u64).as_str(),
            ).concat(", expected 0"),
        );
    }
    if header.crc32 != crc32 {
        return bad_v1_entry(
            String::from_str("local header CRC32 ").concat(dword(header.crc32).as_str()).concat(
                ", expected ",
            ).concat(dword(crc32).as_str()),
        );
    }
    if header.compressed_size != u32::MAX || header.uncompressed_size != u32::MAX {
        return bad_v1_entry(
            String::from_str("local header size sentinels ").concat(
                dword(header.compressed_size).as_str(),
            ).concat("/").concat(dword(header.uncompressed_size).as_str()).concat(
                ", expected 0xffffffff/0xffffffff",
            ),
        );
    }
    Ok(())
}

/// Whether the local header's name is as long as the name of the entry and
/// the same but for case and separators.
pub open spec fn names_entry(data: Seq<u8>, at: int, length: int, name: Seq<char>) -> bool {
    &&& length == encode_utf8(name).len()
    &&& path::normalized(data.subrange(at, at + length), true) == path::name_key(name)
}

/// What is wrong with the span and the name of a local header.
pub open spec fn name_fault(
    data: Seq<u8>,
    at: int,
    header: LocalFileHeader,
    sector_size: Option<u64>,
    name: Seq<char>,
) -> Option<Fault> {
    let span = header_span(header);
    let name_at = at + 4 + LocalFileHeader::SIZE;
    let name_end = name_at + header.file_name_length;
    let extra_end = name_end + header.extra_field_length;
    if sector_size is Some && span != sector_size->Some_0 {
        Some(
            Fault::MalformedV1Entry(
                "local header span "@ + text::dec_text(span as nat)
                    + ", expected physical sector size "@ + text::dec_text(
                    sector_size->Some_0 as nat,
                ),
            ),
        )
    } else if name_end > usize::MAX {
        Some(Fault::MalformedV1Entry("local file name range overflow"@))
    } else if name_end > data.len() {
        Some(Fault::MalformedV1Entry("local file name extends past file end"@))
    } else if !names_entry(data, name_at, header.file_name_length as int, name) {
        Some(Fault::MalformedV1Entry("local header file name does not match CDR"@))
    } else if extra_end > usize::MAX {
        Some(Fault::MalformedV1Entry("local extra range overflow"@))
    } else if extra_end > data.len() {
        Some(Fault::MalformedV1Entry("local extra fields extend past file end"@))
    } else if header.extra_field_length < P4kZip64ExtraField::SIZE + 4 {
        Some(
            Fault::MalformedV1Entry(
                "local extra_field_length "@ + text::dec_text(header.extra_field_length as nat)
                    + ", expected at least ZIP64 plus dummy header"@,
            ),
        )
    } else {
        None
    }
}

fn check_local_name(
    data: &[u8],
    at: usize,
    header: &LocalFileHeader,
    sector_size: Option<u64>,
    name: &str,
) -> (r: Result<()>)
    requires
        at + 4 + LocalFileHeader::SIZE <= data@.len(),
    ensures
        match r {
            Ok(_) => name_fault(data@, at as int, *header, sector_size, name@) is None,
            Err(e) => name_fault(data@, at as int, *header, sector_size, name@) == Some(e@),
        },
{
    assert(data.len() == data@.len());
    let name_len: usize = header.file_name_length as usize;
    let extra_len: usize = header.extra_field_length as usize;
    let span: u64 = 4 + LocalFileHeader::SIZE as u64 + name_len as u64 + extra_len as u64;
    if let Some(expected) = sector_size {
        if span != expected {
            return bad_v1_entry(
                String::from_str("local header span ").concat(dec(span).as_str()).concat(
                    ", expected physical sector size ",
                ).concat(dec(expected).as_str()),
            );
        }
    }
    let name_start: usize = at + (4 + LocalFileHeader::SIZE);
    let name_end: usize = match name_start.checked_add(name_len) {
        Some(v) => v,
        None => return bad_v1_entry(String::from_str("local file name range overflow")),
    };
    if name_end > data.len() {
        return bad_v1_entry(String::from_str("local file name extends past file end"));
    }
    let local_key: Vec<u8> = normalize_bytes(slice_subrange(data, name_start, name_end), true);
    let key: Vec<u8> = filename_handle_bytes(name);
    if name_len != name.as_bytes().len() || !same_bytes(local_key.as_slice(), key.as_slice()) {
        return bad_v1_entry(String::from_str("local header file name does not match CDR"));
    }
    let extra_end: usize = match name_end.checked_add(extra_len) {
        Some(v) => v,
        None => return bad_v1_entry(String::from_str("local extra range overflow")),
    };
    if extra_end > data.len() {
        return bad_v1_entry(String::from_str("local extra fields extend past file end"));
    }
    if extra_len < P4kZip64ExtraField::SIZE + 4 {
        return bad_v1_entry(
            String::from_str("local extra_field_length ").concat(
                dec(extra_len as u64).as_str(),
            ).concat(", expected at least ZIP64 plus dummy header"),
        );
    }
    Ok(())
}

/// What is wrong with the extra fields of a local header, which start at `at`.
pub open spec fn extra_fault(data: Seq<u8>, at: int, length: int, e: EntryModel) -> Option<Fault> {
    let zip64 = P4kZip64ExtraField::at(data, at);
    let dummy_at = at + P4kZip64ExtraField::SIZE;
    let dummy_id = bytes::le16(data, dummy_at);
    let dummy_size = bytes::le16(data, dummy_at + 2);
    let dummy_length = length - P4kZip64ExtraField::SIZE;
    if zip64.id != extra_field::ZIP64 {
        Some(Fault::InvalidExtraFieldId { expected: extra_field::ZIP64, actual: zip64.id })
    } else if zip64.size != extra_field::ZIP64_TOTAL_SIZE {
        Some(
            Fault::InvalidExtraFieldId {
                expected: extra_field::ZIP64_TOTAL_SIZE,
                actual: zip64.size,
            },
        )
    } else if zip64.uncompressed_size != e.uncompressed_size || zip64.compressed_size
        != e.compressed_size || (zip64.local_header_offset != 0 && zip64.local_header_offset
        != e.local_header_offset) {
        Some(
            Fault::MalformedV1Entry(
                "local ZIP64 metadata "@ + text::dec_text(zip64.uncompressed_size as nat) + "/"@
                    + text::dec_text(zip64.compressed_size as nat) + "/"@ + text::dec_text(
                    zip64.local_header_offset as nat,
                ) + " does not match CDR "@ + text::dec_text(e.uncompressed_size as nat) + "/"@
                    + text::dec_text(e.compressed_size as nat) + "/"@ + text::dec_text(
                    e.local_header_offset as nat,
                ),
            ),
        )
    } else if zip64.disk_number_start != 0 {
        Some(
            Fault::MalformedV1Entry(
                "local ZIP64 disk_number_start "@ + text::dec_text(zip64.disk_number_start as nat)
                    + ", expected 0"@,
            ),
        )
    } else if dummy_id != extra_field::FILLER {
        Some(
            Fault::MalformedV1Entry(
                "local dummy extra id "@ + text::word_text(dummy_id) + ", expected 0x0666"@,
            ),
        )
    } else if dummy_size != dummy_length {
        Some(
            Fault::MalformedV1Entry(
                "local dummy extra size "@ + text::dec_text(dummy_size as nat) + ", expected "@
                    + text::dec_text(dummy_length as nat),
            ),
        )
    } else {
        None
    }
}

fn validate_v1_local_extra_fields(data: &[u8], at: usize, length: usize, entry: &P4kEntryRef<'_>) -> (r: Result<
    (),
>)
    requires
        at + length <= data@.len(),
        length >= P4kZip64ExtraField::SIZE + 4,
    ensures
        match r {
            Ok(_) => extra_fault(data@, at as int, length as int, entry@) is None,
            Err(e) => extra_fault(data@, at as int, length as int, entry@) == Some(e@),
        },
{
    assert(data.len() == data@.len());
    let zip64 = P4kZip64ExtraField::read(data, at);
    if zip64.id != extra_field::ZIP64 {
        return Err(
            Error::InvalidExtraFieldId { expected: extra_field::ZIP64, actual: zip64.id },
        );
    }
    if zip64.size != extra_field::ZIP64_TOTAL_SIZE {
        return Err(
            Error::InvalidExtraFieldId {
                expected: extra_field::ZIP64_TOTAL_SIZE,
                actual: zip64.size,
            },
        );
    }
    if zip64.uncompressed_size != entry.uncompressed_size || zip64.compressed_size
        != entry.compressed_size || (zip64.local_header_offset != 0 && zip64.local_header_offset
        != entry.local_header_offset) {
        return bad_v1_entry(
            String::from_str("local ZIP64 metadata ").concat(
                dec(zip64.uncompressed_size).as_str(),
            ).concat("/").concat(dec(zip64.compressed_size).as_str()).concat("/").concat(
                dec(zip64.local_header_offset).as_str(),
            ).concat(" does not match CDR ").concat(
                dec(entry.uncompressed_size).as_str(),
            ).concat("/").concat(dec(entry.compressed_size).as_str()).concat("/").concat(
                dec(entry.local_header_offset).as_str(),
            ),
        );
    }
    if zip64.disk_number_start != 0 {
        return bad_v1_entry(
            String::from_str("local ZIP64 disk_number_start ").concat(
                dec(zip64.disk_number_start as u64).as_str(),
            ).concat(", expected 0"),
        );
    }
    let dummy_at: usize = at + P4kZip64ExtraField::SIZE;
    let dummy_id: u16 = get_u16(data, dummy_at);
    let dummy_size: u16 = get_u16(data, dummy_at + 2);
    let dummy_length: usize = length - P4kZip64ExtraField::SIZE;
    if dummy_id != extra_field::FILLER {
        return bad_v1_entry(
            String::from_str("local dummy extra id ").concat(word(dummy_id).as_str()).concat(
                ", expected 0x0666",
            ),
        );
    }
    if dummy_size as usize != dummy_length {
        return bad_v1_entry(
            String::from_str("local dummy extra size ").concat(
                dec(dummy_size as u64).as_str(),
            ).concat(", expected ").concat(dec(dummy_length as u64).as_str()),
        );
    }
    Ok(())
}

/// What is wrong with the local header of an entry.
pub open spec fn header_fault(data: Seq<u8>, sector_size: Option<u64>, e: EntryModel) -> Option<
    Fault,
> {
    let at = e.local_header_offset as int;
    let header = header_at(data, at);
    let extra_at = at + 4 + LocalFileHeader::SIZE + header.file_name_length;
    if bounds_fault(data, e.local_header_offset) is Some {
        bounds_fault(data, e.local_header_offset)
    } else if metadata_fault(header, e.crc32) is Some {
        metadata_fault(header, e.crc32)
    } else if name_fault(data, at, header, sector_size, e.name) is Some {
        name_fault(data, at, header, sector_size, e.name)
    } else {
        extra_fault(data, extra_at, header.extra_field_length as int, e)
    }
}

/// Read the local header of an entry, and hold it against the entry.
pub fn read_local_header(
    data: &[u8],
    sector_size: Option<u64>,
    entry: &P4kEntryRef<'_>,
) -> (r: Result<LocalFileHeader>)
    ensures
        match r {
            Ok(header) => {
                &&& header_fault(data@, sector_size, entry@) is None
                &&& header == header_at(data@, entry.local_header_offset as int)
                &&& entry.local_header_offset + header_span(header) <= data@.len()
            },
            Err(e) => header_fault(data@, sector_size, entry@) == Some(e@),
        },
{
    let header = read_header(data, entry.local_header_offset)?;
    validate_v1_local_header_metadata(&header, entry.crc32)?;
    let at: usize = entry.local_header_offset as usize;
    check_local_name(data, at, &header, sector_size, entry.name)?;
    let extra_at: usize = at + 4 + LocalFileHeader::SIZE + header.file_name_length as usize;
    validate_v1_local_extra_fields(data, extra_at, header.extra_field_length as usize, entry)?;
    Ok(header)
}

} // verus!
