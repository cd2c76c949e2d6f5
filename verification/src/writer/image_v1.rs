//! New v1 archives.
//!
//! Each payload is preceded by a local record that is padded to whole sectors.
//! Behind the payloads stand an install block, the ZIP64 central directory, the
//! ZIP64 EOCD record with its locator, and the EOCD record with the 16-byte P4K
//! comment.

use vstd::prelude::*;
use vstd::seq::*;
use vstd::seq_lib::*;
use vstd::slice::*;
use vstd::string::*;
use vstd::utf8::*;

use crate::align;
use crate::align::{align_up, v1_local_file_record_size};
use crate::archive::v1_install;
use crate::bytes;
use crate::bytes::{put_bytes, put_u16, put_u32, put_u64, put_zeros};
use crate::error;
use crate::error::{invalid_input, Fault, Result};
use crate::writer::builder::{BuilderModel, P4kBuilder};
use crate::writer::fresh;
use crate::writer::options;
use crate::writer::options::{validate_options, P4kWriteStats};
use crate::writer::staged::{BuilderEntry, StagedModel};
use crate::zip::central_dir::extra_field;
use crate::zip::{
    CentralDirectoryHeader, Eocd64Locator, Eocd64Record, EocdRecord, LocalFileHeader,
    P4kEncryptionExtraField, P4kSha256ExtraField, P4kSignatureExtraField, P4kZip64ExtraField,
};

verus! {

/// How many bytes a name takes.
pub open spec fn name_len(e: StagedModel) -> int {
    encode_utf8(e.name).len() as int
}

/// DOS time and date in one number.
pub open spec fn packed_time(e: StagedModel) -> u32 {
    (e.last_mod_file_date * 0x1_0000 + e.last_mod_file_time) as u32
}

/// How many bytes the local record of an entry takes.
pub open spec fn record_len(e: StagedModel, sector: int) -> int {
    align::v1_record_size(name_len(e), sector)
}

/// How many bytes the extra fields of a local record take.
pub open spec fn extra_len(e: StagedModel, sector: int) -> int {
    sector - 4 - LocalFileHeader::SIZE - name_len(e)
}

/// What is wrong with an entry whose local record must fit its sectors.
pub open spec fn record_fault(e: StagedModel, sector: u64) -> Option<Fault> {
    if name_len(e) > u16::MAX {
        Some(error::invalid_input_fault("v1 entry name is too long"@))
    } else if sector > usize::MAX {
        Some(error::invalid_input_fault("v1 sector size overflows usize"@))
    } else if extra_len(e, sector as int) <= 0 {
        Some(error::invalid_input_fault("v1 entry name does not fit in the local header sector"@))
    } else if extra_len(e, sector as int) < P4kZip64ExtraField::SIZE + 4 {
        Some(error::invalid_input_fault("v1 local header sector is too small"@))
    } else {
        match align::v1_record_size_outcome(name_len(e) as u64, sector) {
            Err(fault) => Some(fault),
            Ok(_) => None,
        }
    }
}

/// Compute the size of the local record of an entry.
pub fn checked_v1_local_record_size_for_entry(entry: &BuilderEntry, sector_size: u64) -> (r: Result<
    u64,
>)
    requires
        sector_size > 0,
    ensures
        match r {
            Ok(size) => {
                &&& record_fault(entry@, sector_size) is None
                &&& size == record_len(entry@, sector_size as int)
            },
            Err(e) => record_fault(entry@, sector_size) == Some(e@),
        },
{
    let length: usize = entry.name.as_str().as_bytes().len();
    if length > u16::MAX as usize {
        return Err(invalid_input("v1 entry name is too long"));
    }
    if sector_size > usize::MAX as u64 {
        return Err(invalid_input("v1 sector size overflows usize"));
    }
    let sector: usize = sector_size as usize;
    let header_size: usize = 4 + LocalFileHeader::SIZE;
    if header_size + length >= sector {
        return Err(invalid_input("v1 entry name does not fit in the local header sector"));
    }
    if sector - header_size - length < P4kZip64ExtraField::SIZE + 4 {
        return Err(invalid_input("v1 local header sector is too small"));
    }
    v1_local_file_record_size(length as u64, sector_size)
}

/// The fixed part of a local record.
pub open spec fn local_header(e: StagedModel, sector: int) -> LocalFileHeader {
    LocalFileHeader {
        version_needed: 45,
        flags: 0,
        compression_method: e.compression_method.id(),
        last_modified: packed_time(e),
        crc32: e.crc32,
        compressed_size: u32::MAX,
        uncompressed_size: u32::MAX,
        file_name_length: name_len(e) as u16,
        extra_field_length: extra_len(e, sector) as u16,
    }
}

/// The ZIP64 field of an entry whose local record starts at `at`.
pub open spec fn zip64_field(e: StagedModel, at: int) -> P4kZip64ExtraField {
    P4kZip64ExtraField {
        id: extra_field::ZIP64,
        size: extra_field::ZIP64_TOTAL_SIZE,
        uncompressed_size: e.uncompressed_size,
        compressed_size: e.payload.len() as u64,
        local_header_offset: at as u64,
        disk_number_start: 0,
    }
}

/// The local record of an entry that starts at `at`.
pub open spec fn local_record_bytes(e: StagedModel, at: int, sector: int) -> Seq<u8> {
    let filler = extra_len(e, sector) - P4kZip64ExtraField::SIZE;
    bytes::u32_bytes(LocalFileHeader::SIGNATURE) + local_header(e, sector).bytes() + encode_utf8(
        e.name,
    ) + zip64_field(e, at).bytes() + bytes::u16_bytes(extra_field::FILLER) + bytes::u16_bytes(
        filler as u16,
    ) + bytes::zeros((filler - 4 + record_len(e, sector) - sector) as nat)
}

/// The time and date of an entry in one number.
fn pack_time(entry: &BuilderEntry) -> (r: u32)
    ensures
        r == packed_time(entry@),
{
    entry.last_mod_file_date as u32 * 0x1_0000 + entry.last_mod_file_time as u32
}

fn write_zip64_field(out: &mut Vec<u8>, entry: &BuilderEntry, at: u64)
    ensures
        final(out)@ == old(out)@ + zip64_field(entry@, at as int).bytes(),
{
    let field = P4kZip64ExtraField {
        id: extra_field::ZIP64,
        size: extra_field::ZIP64_TOTAL_SIZE,
        uncompressed_size: entry.uncompressed_size,
        compressed_size: entry.payload.len() as u64,
        local_header_offset: at,
        disk_number_start: 0,
    };
    field.write(out);
}

/// Append the local record of an entry that starts at `at`.
fn write_v1_local_record(
    out: &mut Vec<u8>,
    entry: &BuilderEntry,
    at: u64,
    sector_size: u64,
    record_size: u64,
)
    requires
        0 < sector_size <= u16::MAX,
        record_fault(entry@, sector_size) is None,
        record_size == record_len(entry@, sector_size as int),
    ensures
        final(out)@ == old(out)@ + local_record_bytes(entry@, at as int, sector_size as int),
{
    let ghost e = entry@;
    let ghost sector = sector_size as int;
    let ghost start = out@;
    let name = entry.name.as_str().as_bytes();
    let length: u64 = name.len() as u64;
    let extra: u64 = sector_size - (4 + LocalFileHeader::SIZE as u64) - length;
    let filler: u64 = extra - P4kZip64ExtraField::SIZE as u64;
    proof {
        align::lemma_aligned_up(length + sector + 0x3D, sector);
    }
    put_u32(out, LocalFileHeader::SIGNATURE);
    let header = LocalFileHeader {
        version_needed: 45,
        flags: 0,
        compression_method: entry.compression_method.id(),
        last_modified: pack_time(entry),
        crc32: entry.crc32,
        compressed_size: u32::MAX,
        uncompressed_size: u32::MAX,
        file_name_length: length as u16,
        extra_field_length: extra as u16,
    };
    header.write(out);
    put_bytes(out, name);
    write_zip64_field(out, entry, at);
    put_u16(out, extra_field::FILLER);
    put_u16(out, filler as u16);
    put_zeros(out, filler - 4 + (record_size - sector_size));
    proof {
        let p0 = bytes::u32_bytes(LocalFileHeader::SIGNATURE);
        let p1 = p0 + local_header(e, sector).bytes();
        let p2 = p1 + encode_utf8(e.name);
        let p3 = p2 + zip64_field(e, at as int).bytes();
        let p4 = p3 + bytes::u16_bytes(extra_field::FILLER);
        let p5 = p4 + bytes::u16_bytes(filler as u16);
        assert(header == local_header(e, sector));
        bytes::lemma_joined(start, p0, local_header(e, sector).bytes());
        bytes::lemma_joined(start, p1, encode_utf8(e.name));
        bytes::lemma_joined(start, p2, zip64_field(e, at as int).bytes());
        bytes::lemma_joined(start, p3, bytes::u16_bytes(extra_field::FILLER));
        bytes::lemma_joined(start, p4, bytes::u16_bytes(filler as u16));
        bytes::lemma_joined(
            start,
            p5,
            bytes::zeros((filler - 4 + record_len(e, sector) - sector) as nat),
        );
    }
}

/// The fixed part of a central directory record.
pub open spec fn central_header(e: StagedModel) -> CentralDirectoryHeader {
    CentralDirectoryHeader {
        version_made_by: 46,
        version_needed: 45,
        flags: 0,
        compression_method: e.compression_method.id(),
        last_modified: packed_time(e),
        crc32: e.crc32,
        compressed_size: u32::MAX,
        uncompressed_size: u32::MAX,
        file_name_length: name_len(e) as u16,
        extra_field_length: 0xCE,
        file_comment_length: 0,
        disk_number_start: u16::MAX,
        internal_attrs: 0,
        external_attrs: 0,
        local_header_offset: u32::MAX,
    }
}

/// The extra fields of a central directory record, for an entry whose local
/// record starts at `at`.
pub open spec fn central_extra_bytes(e: StagedModel, at: int) -> Seq<u8> {
    zip64_field(e, at).bytes() + (bytes::u16_bytes(extra_field::P4K_5000) + bytes::u16_bytes(
        extra_field::P4K_5000_TOTAL_SIZE,
    ) + e.signature) + (bytes::u16_bytes(extra_field::P4K_5002) + bytes::u16_bytes(
        extra_field::P4K_5002_TOTAL_SIZE,
    ) + bytes::u16_bytes(
        if e.encrypted {
            1
        } else {
            0
        },
    )) + (bytes::u16_bytes(extra_field::P4K_5003) + bytes::u16_bytes(
        extra_field::P4K_5003_TOTAL_SIZE,
    ) + e.sha256)
}

/// The central directory record of an entry whose local record starts at `at`.
pub open spec fn central_record_bytes(e: StagedModel, at: int) -> Seq<u8> {
    bytes::u32_bytes(CentralDirectoryHeader::SIGNATURE) + central_header(e).bytes() + encode_utf8(
        e.name,
    ) + central_extra_bytes(e, at)
}

fn write_central_extra(out: &mut Vec<u8>, entry: &BuilderEntry, at: u64)
    ensures
        final(out)@ == old(out)@ + central_extra_bytes(entry@, at as int),
{
    let ghost e = entry@;
    let ghost start = out@;
    write_zip64_field(out, entry, at);
    let signature = P4kSignatureExtraField {
        id: extra_field::P4K_5000,
        size: extra_field::P4K_5000_TOTAL_SIZE,
        signature: entry.signature,
    };
    signature.write(out);
    let encryption = P4kEncryptionExtraField {
        id: extra_field::P4K_5002,
        size: extra_field::P4K_5002_TOTAL_SIZE,
        encryption: if entry.encrypted {
            1
        } else {
            0
        },
    };
    encryption.write(out);
    let digest = P4kSha256ExtraField {
        id: extra_field::P4K_5003,
        size: extra_field::P4K_5003_TOTAL_SIZE,
        sha256: entry.sha256,
    };
    digest.write(out);
    proof {
        let p0 = zip64_field(e, at as int).bytes();
        let p1 = p0 + signature.bytes();
        let p2 = p1 + encryption.bytes();
        bytes::lemma_joined(start, p0, signature.bytes());
        bytes::lemma_joined(start, p1, encryption.bytes());
        bytes::lemma_joined(start, p2, digest.bytes());
        reveal(P4kSignatureExtraField::bytes);
        reveal(P4kEncryptionExtraField::bytes);
        reveal(P4kSha256ExtraField::bytes);
        assert(p2 + digest.bytes() == central_extra_bytes(e, at as int));
    }
}

/// Append the central directory record of an entry whose local record starts at `at`.
fn write_v1_central_directory_entry(out: &mut Vec<u8>, entry: &BuilderEntry, at: u64)
    requires
        name_len(entry@) <= u16::MAX,
    ensures
        final(out)@ == old(out)@ + central_record_bytes(entry@, at as int),
{
    let ghost e = entry@;
    let ghost start = out@;
    let name = entry.name.as_str().as_bytes();
    put_u32(out, CentralDirectoryHeader::SIGNATURE);
    let header = CentralDirectoryHeader {
        version_made_by: 46,
        version_needed: 45,
        flags: 0,
        compression_method: entry.compression_method.id(),
        last_modified: pack_time(entry),
        crc32: entry.crc32,
        compressed_size: u32::MAX,
        uncompressed_size: u32::MAX,
        file_name_length: name.len() as u16,
        extra_field_length: 0xCE,
        file_comment_length: 0,
        disk_number_start: u16::MAX,
        internal_attrs: 0,
        external_attrs: 0,
        local_header_offset: u32::MAX,
    };
    header.write(out);
    put_bytes(out, name);
    write_central_extra(out, entry, at);
    proof {
        let p0 = bytes::u32_bytes(CentralDirectoryHeader::SIGNATURE);
        let p1 = p0 + central_header(e).bytes();
        let p2 = p1 + encode_utf8(e.name);
        assert(header == central_header(e));
        bytes::lemma_joined(start, p0, central_header(e).bytes());
        bytes::lemma_joined(start, p1, encode_utf8(e.name));
        bytes::lemma_joined(start, p2, central_extra_bytes(e, at as int));
    }
}

/// The ZIP64 EOCD record.
pub open spec fn zip64_eocd(count: int, cdr_size: int, cdr_offset: int) -> Eocd64Record {
    Eocd64Record {
        record_size: 44,
        version_made_by: 46,
        version_needed: 45,
        disk_number: 0,
        central_dir_disk: 0,
        central_dir_count_disk: count as u64,
        central_dir_count_total: count as u64,
        central_dir_size: cdr_size as u64,
        central_dir_offset: cdr_offset as u64,
    }
}

/// The locator of a ZIP64 EOCD record that stands at `at`.
pub open spec fn zip64_locator(at: int) -> Eocd64Locator {
    Eocd64Locator { zip64_eocd_disk: 0, zip64_eocd_offset: at as u64, total_disks: 1 }
}

/// The EOCD record, which leaves everything to the ZIP64 record.
pub open spec fn classic_eocd() -> EocdRecord {
    EocdRecord {
        disk_number: u16::MAX,
        central_dir_disk: u16::MAX,
        central_dir_count_disk: u16::MAX,
        central_dir_count_total: u16::MAX,
        central_dir_size: u32::MAX,
        central_dir_offset: u32::MAX,
        comment_length: 16,
    }
}

/// The comment of a P4K archive.
pub open spec fn comment_bytes(sector_size: u16, freelist_count: u64) -> Seq<u8> {
    seq![0x43u8, 0x49u8] + bytes::u32_bytes(v1_install::CI_MARKER) + bytes::u16_bytes(sector_size)
        + bytes::u64_bytes(freelist_count)
}

/// The records behind a central directory.
pub open spec fn trailer_bytes(
    count: int,
    cdr_size: int,
    cdr_offset: int,
    sector_size: u16,
) -> Seq<u8> {
    bytes::u32_bytes(Eocd64Record::SIGNATURE) + zip64_eocd(count, cdr_size, cdr_offset).bytes()
        + bytes::u32_bytes(Eocd64Locator::SIGNATURE) + zip64_locator(cdr_offset + cdr_size).bytes()
        + bytes::u32_bytes(EocdRecord::SIGNATURE) + classic_eocd().bytes() + comment_bytes(
        sector_size,
        0,
    )
}

fn write_v1_zip64_eocd(out: &mut Vec<u8>, count: u64, cdr_size: u64, cdr_offset: u64)
    ensures
        final(out)@ == old(out)@ + bytes::u32_bytes(Eocd64Record::SIGNATURE) + zip64_eocd(
            count as int,
            cdr_size as int,
            cdr_offset as int,
        ).bytes(),
{
    put_u32(out, Eocd64Record::SIGNATURE);
    let record = Eocd64Record {
        record_size: 44,
        version_made_by: 46,
        version_needed: 45,
        disk_number: 0,
        central_dir_disk: 0,
        central_dir_count_disk: count,
        central_dir_count_total: count,
        central_dir_size: cdr_size,
        central_dir_offset: cdr_offset,
    };
    record.write(out);
}

fn write_v1_zip64_locator(out: &mut Vec<u8>, zip64_eocd_offset: u64)
    ensures
        final(out)@ == old(out)@ + bytes::u32_bytes(Eocd64Locator::SIGNATURE) + zip64_locator(
            zip64_eocd_offset as int,
        ).bytes(),
{
    put_u32(out, Eocd64Locator::SIGNATURE);
    let locator = Eocd64Locator { zip64_eocd_disk: 0, zip64_eocd_offset, total_disks: 1 };
    locator.write(out);
}

fn write_v1_eocd(out: &mut Vec<u8>, sector_size: u16, freelist_count: u64)
    ensures
        final(out)@ == old(out)@ + bytes::u32_bytes(EocdRecord::SIGNATURE) + classic_eocd().bytes()
            + comment_bytes(sector_size, freelist_count),
{
    put_u32(out, EocdRecord::SIGNATURE);
    let record = EocdRecord {
        disk_number: u16::MAX,
        central_dir_disk: u16::MAX,
        central_dir_count_disk: u16::MAX,
        central_dir_count_total: u16::MAX,
        central_dir_size: u32::MAX,
        central_dir_offset: u32::MAX,
        comment_length: 16,
    };
    record.write(out);
    let ghost before = out@;
    out.push(0x43);
    out.push(0x49);
    assert(out@ =~= before + seq![0x43u8, 0x49u8]);
    put_u32(out, v1_install::CI_MARKER);
    put_u16(out, sector_size);
    put_u64(out, freelist_count);
    proof {
        let p0 = seq![0x43u8, 0x49u8];
        let p1 = p0 + bytes::u32_bytes(v1_install::CI_MARKER);
        let p2 = p1 + bytes::u16_bytes(sector_size);
        bytes::lemma_joined(before, p0, bytes::u32_bytes(v1_install::CI_MARKER));
        bytes::lemma_joined(before, p1, bytes::u16_bytes(sector_size));
        bytes::lemma_joined(before, p2, bytes::u64_bytes(freelist_count));
    }
}

/// Append the records behind a central directory.
fn write_v1_trailer(out: &mut Vec<u8>, count: u64, cdr_size: u64, cdr_offset: u64, sector_size: u16)
    requires
        cdr_offset + cdr_size <= u64::MAX,
    ensures
        final(out)@ == old(out)@ + trailer_bytes(
            count as int,
            cdr_size as int,
            cdr_offset as int,
            sector_size,
        ),
{
    let ghost start = out@;
    write_v1_zip64_eocd(out, count, cdr_size, cdr_offset);
    write_v1_zip64_locator(out, cdr_offset + cdr_size);
    write_v1_eocd(out, sector_size, 0);
    proof {
        let p0 = bytes::u32_bytes(Eocd64Record::SIGNATURE);
        let a1 = zip64_eocd(count as int, cdr_size as int, cdr_offset as int).bytes();
        let a2 = bytes::u32_bytes(Eocd64Locator::SIGNATURE);
        let a3 = zip64_locator(cdr_offset + cdr_size).bytes();
        let a4 = bytes::u32_bytes(EocdRecord::SIGNATURE);
        let a5 = classic_eocd().bytes();
        let a6 = comment_bytes(sector_size, 0);
        bytes::lemma_joined(start, p0, a1);
        bytes::lemma_joined(start, p0 + a1, a2);
        bytes::lemma_joined(start, p0 + a1 + a2, a3);
        bytes::lemma_joined(start, p0 + a1 + a2 + a3, a4);
        bytes::lemma_joined(start, p0 + a1 + a2 + a3 + a4, a5);
        bytes::lemma_joined(start, p0 + a1 + a2 + a3 + a4 + a5, a6);
    }
}

/// Where the local record of entry `k` starts, or the payloads end where there
/// is no entry `k`, in an archive that starts at `start`.
pub open spec fn record_at(entries: Seq<StagedModel>, start: int, sector: int, k: int) -> int
    decreases k,
{
    if k <= 0 {
        start
    } else {
        align::aligned_up(
            record_at(entries, start, sector, k - 1) + record_len(entries[k - 1], sector)
                + entries[k - 1].payload.len(),
            sector,
        )
    }
}

/// The local record and the payload of an entry whose record starts at `at`,
/// padded so that the next record starts at `next`.
pub open spec fn padded_record_bytes(e: StagedModel, at: int, next: int, sector: int) -> Seq<u8> {
    local_record_bytes(e, at, sector) + e.payload + bytes::zeros(
        (next - at - record_len(e, sector) - e.payload.len()) as nat,
    )
}

/// The local records and payloads of the first `k` entries.
pub open spec fn body_bytes(entries: Seq<StagedModel>, start: int, sector: int, k: int) -> Seq<u8>
    decreases k,
{
    if k <= 0 {
        Seq::empty()
    } else {
        body_bytes(entries, start, sector, k - 1) + padded_record_bytes(
            entries[k - 1],
            record_at(entries, start, sector, k - 1),
            record_at(entries, start, sector, k),
            sector,
        )
    }
}

/// What is wrong with the first bad entry among the first `k`.
pub open spec fn body_fault(entries: Seq<StagedModel>, start: int, sector: u64, k: int) -> Option<
    Fault,
>
    decreases k,
{
    if k <= 0 {
        None
    } else {
        let e = entries[k - 1];
        match body_fault(entries, start, sector, k - 1) {
            Some(fault) => Some(fault),
            None => match record_fault(e, sector) {
                Some(fault) => Some(fault),
                None => if record_at(entries, start, sector as int, k - 1) + record_len(
                    e,
                    sector as int,
                ) + e.payload.len() + sector - 1 > u64::MAX {
                    Some(error::invalid_input_fault("alignment overflow"@))
                } else {
                    None
                },
            },
        }
    }
}

/// The install block of the first `k` entries.
pub open spec fn progress_bytes(entries: Seq<StagedModel>, k: int) -> Seq<u8>
    decreases k,
{
    if k <= 0 {
        Seq::empty()
    } else {
        progress_bytes(entries, k - 1) + (bytes::u64_bytes(entries[k - 1].payload.len() as u64)
            + bytes::u32_bytes(0))
    }
}

/// The central directory records of the first `k` entries.
pub open spec fn central_bytes(
    entries: Seq<StagedModel>,
    start: int,
    sector: int,
    k: int,
) -> Seq<u8>
    decreases k,
{
    if k <= 0 {
        Seq::empty()
    } else {
        central_bytes(entries, start, sector, k - 1) + central_record_bytes(
            entries[k - 1],
            record_at(entries, start, sector, k - 1),
        )
    }
}

/// Where the parts of a v1 archive stand behind its payloads.
pub struct V1Plan {
    /// Where the payloads end and the install block starts.
    pub payload_end: int,
    /// Where the central directory starts.
    pub cdr_offset: int,
    /// Byte length of the central directory.
    pub cdr_size: int,
    /// Where the comment ends.
    pub content_size: int,
}

/// Where the parts of a v1 archive stand that starts at `start`.
pub open spec fn v1_plan(entries: Seq<StagedModel>, start: int, sector: int) -> V1Plan {
    let count = entries.len() as int;
    let payload_end = record_at(entries, start, sector, count);
    let cdr_offset = payload_end + progress_bytes(entries, count).len();
    let cdr_size = central_bytes(entries, start, sector, count).len() as int;
    V1Plan {
        payload_end,
        cdr_offset,
        cdr_size,
        content_size: cdr_offset + cdr_size + trailer_bytes(
            count,
            cdr_size,
            cdr_offset,
            sector as u16,
        ).len(),
    }
}

/// What writing a v1 archive from `start` on appends.
pub open spec fn v1_image_bytes(entries: Seq<StagedModel>, start: int, sector: int) -> Seq<u8> {
    let count = entries.len() as int;
    let plan = v1_plan(entries, start, sector);
    body_bytes(entries, start, sector, count) + progress_bytes(entries, count) + central_bytes(
        entries,
        start,
        sector,
        count,
    ) + trailer_bytes(count, plan.cdr_size, plan.cdr_offset, sector as u16) + bytes::zeros(
        (align::aligned_up(plan.content_size, sector) - plan.content_size) as nat,
    )
}

/// What writing a v1 archive from `start` on appends and reports, or why it fails.
pub open spec fn v1_image_outcome(model: BuilderModel, start: int) -> std::result::Result<
    (Seq<u8>, P4kWriteStats),
    Fault,
> {
    let entries = fresh::fresh_entries(model.entries);
    let sector = model.options.sector_size;
    let count = entries.len() as int;
    let plan = v1_plan(entries, start, sector as int);
    match options::options_fault(model.options) {
        Some(fault) => Err(fault),
        None => if sector > u16::MAX {
            Err(error::invalid_input_fault("v1 sector size must fit in u16"@))
        } else if count > u32::MAX {
            Err(error::invalid_input_fault("v1 entry count must fit in u32"@))
        } else {
            match body_fault(entries, start, sector, count) {
                Some(fault) => Err(fault),
                None => if plan.content_size + sector - 1 > u64::MAX {
                    Err(error::invalid_input_fault("alignment overflow"@))
                } else {
                    Ok(
                        (
                            v1_image_bytes(entries, start, sector as int),
                            P4kWriteStats {
                                entry_count: count as usize,
                                payload_end: plan.payload_end as u64,
                                cdr_offset: plan.cdr_offset as u64,
                                cdr_size: plan.cdr_size as u64,
                                name_table_size: 0,
                                file_size: align::aligned_up(
                                    plan.content_size,
                                    sector as int,
                                ) as u64,
                            },
                        ),
                    )
                },
            }
        },
    }
}

/// Once an entry is bad, every longer run fails the same way.
pub proof fn lemma_body_fault_stays(
    entries: Seq<StagedModel>,
    start: int,
    sector: u64,
    k: int,
    n: int,
)
    requires
        k <= n,
        body_fault(entries, start, sector, k) is Some,
    ensures
        body_fault(entries, start, sector, n) == body_fault(entries, start, sector, k),
    decreases n - k,
{
    if k < n {
        lemma_body_fault_stays(entries, start, sector, k, n - 1);
    }
}

/// A good run has good entries.
pub proof fn lemma_body_good(entries: Seq<StagedModel>, start: int, sector: u64, k: int, n: int)
    requires
        0 <= k < n,
        body_fault(entries, start, sector, n) is None,
    ensures
        record_fault(entries[k], sector) is None,
        record_at(entries, start, sector as int, k) + record_len(entries[k], sector as int)
            + entries[k].payload.len() + sector - 1 <= u64::MAX,
    decreases n - k,
{
    if k < n - 1 {
        lemma_body_good(entries, start, sector, k, n - 1);
    }
}

/// Append the local records and payloads, and say where each record starts.
fn write_body(
    writer: &mut Vec<u8>,
    ordered: &Vec<&BuilderEntry>,
    sector_size: u64,
    Ghost(models): Ghost<Seq<StagedModel>>,
) -> (r: Result<Vec<u64>>)
    requires
        0 < sector_size <= u16::MAX,
        ordered@.len() == models.len(),
        forall|i: int| 0 <= i < models.len() ==> (#[trigger] ordered@[i])@ == models[i],
    ensures
        ({
            let start = old(writer)@.len() as int;
            let count = models.len() as int;
            match r {
                Ok(offsets) => {
                    &&& body_fault(models, start, sector_size, count) is None
                    &&& offsets@.len() == count
                    &&& forall|i: int|
                        0 <= i < count ==> #[trigger] offsets@[i] == record_at(
                            models,
                            start,
                            sector_size as int,
                            i,
                        )
                    &&& final(writer)@ == old(writer)@ + body_bytes(
                        models,
                        start,
                        sector_size as int,
                        count,
                    )
                    &&& final(writer)@.len() == record_at(
                        models,
                        start,
                        sector_size as int,
                        count,
                    )
                },
                Err(e) => body_fault(models, start, sector_size, count) == Some(e@),
            }
        }),
        final(writer)@.len() >= old(writer)@.len(),
        final(writer)@.take(old(writer)@.len() as int) == old(writer)@,
{
    let ghost first = writer@;
    let ghost start = writer@.len() as int;
    let ghost sector = sector_size as int;
    let mut offsets: Vec<u64> = Vec::new();
    let mut i: usize = 0;
    assert(first =~= first + body_bytes(models, start, sector, 0));
    assert(first.take(start) =~= first);
    while i < ordered.len()
        invariant
            i <= ordered@.len(),
            0 < sector_size <= u16::MAX,
            sector == sector_size,
            start == first.len(),
            first == old(writer)@,
            ordered@.len() == models.len(),
            forall|j: int| 0 <= j < models.len() ==> (#[trigger] ordered@[j])@ == models[j],
            body_fault(models, start, sector_size, i as int) is None,
            writer@ == first + body_bytes(models, start, sector, i as int),
            writer@.len() == record_at(models, start, sector, i as int),
            writer@.take(start) == first,
            offsets@.len() == i,
            forall|j: int|
                0 <= j < i ==> #[trigger] offsets@[j] == record_at(models, start, sector, j),
        decreases ordered@.len() - i,
    {
        let entry: &BuilderEntry = ordered[i];
        let ghost e = models[i as int];
        assert(ordered@[i as int]@ == e);
        proof {
            if body_fault(models, start, sector_size, i + 1) is Some {
                lemma_body_fault_stays(models, start, sector_size, i + 1, models.len() as int);
            }
        }
        let ghost before = writer@;
        let at: u64 = writer.len() as u64;
        let record_size: u64 = checked_v1_local_record_size_for_entry(entry, sector_size)?;
        write_v1_local_record(writer, entry, at, sector_size, record_size);
        let ghost record = local_record_bytes(e, at as int, sector);
        proof {
            lemma_local_record_length(e, at as int, sector_size);
        }
        put_bytes(writer, entry.payload.as_slice());
        let end: u64 = writer.len() as u64;
        proof {
            align::lemma_aligned_up(end as int, sector);
            assert(writer@.take(start) =~= first);
        }
        let next: u64 = align_up(end, sector_size)?;
        put_zeros(writer, next - end);
        proof {
            let padding = bytes::zeros((next - end) as nat);
            bytes::lemma_joined(before, record, e.payload);
            bytes::lemma_joined(before, record + e.payload, padding);
            bytes::lemma_joined(
                first,
                body_bytes(models, start, sector, i as int),
                record + e.payload + padding,
            );
            assert(writer@.take(start) =~= first);
        }
        offsets.push(at);
        i += 1;
    }
    Ok(offsets)
}

/// How many bytes a local record takes.
pub proof fn lemma_local_record_length(e: StagedModel, at: int, sector: u64)
    requires
        0 < sector <= u16::MAX,
        record_fault(e, sector) is None,
    ensures
        local_record_bytes(e, at, sector as int).len() == record_len(e, sector as int),
        sector <= record_len(e, sector as int),
{
    let filler = extra_len(e, sector as int) - P4kZip64ExtraField::SIZE;
    let zeros = bytes::zeros((filler - 4 + record_len(e, sector as int) - sector) as nat);
    align::lemma_aligned_up(name_len(e) + sector + 0x3D, sector as int);
    local_header(e, sector as int).lemma_length();
    zip64_field(e, at).lemma_length();
    bytes::lemma_number_lengths(filler as u16, LocalFileHeader::SIGNATURE, 0);
    bytes::lemma_number_lengths(extra_field::FILLER, 0, 0);
    assert(zeros.len() == filler - 4 + record_len(e, sector as int) - sector);
}

fn write_progress(
    writer: &mut Vec<u8>,
    ordered: &Vec<&BuilderEntry>,
    Ghost(models): Ghost<Seq<StagedModel>>,
)
    requires
        ordered@.len() == models.len(),
        forall|i: int| 0 <= i < models.len() ==> (#[trigger] ordered@[i])@ == models[i],
    ensures
        final(writer)@ == old(writer)@ + progress_bytes(models, models.len() as int),
{
    let ghost start = writer@;
    let mut i: usize = 0;
    assert(start =~= start + progress_bytes(models, 0));
    while i < ordered.len()
        invariant
            i <= ordered@.len(),
            ordered@.len() == models.len(),
            forall|j: int| 0 <= j < models.len() ==> (#[trigger] ordered@[j])@ == models[j],
            writer@ == start + progress_bytes(models, i as int),
        decreases ordered@.len() - i,
    {
        assert(ordered@[i as int]@ == models[i as int]);
        let ghost before = writer@;
        let length: u64 = ordered[i].payload.len() as u64;
        put_u64(writer, length);
        put_u32(writer, 0);
        proof {
            bytes::lemma_joined(before, bytes::u64_bytes(length), bytes::u32_bytes(0));
            bytes::lemma_joined(
                start,
                progress_bytes(models, i as int),
                bytes::u64_bytes(length) + bytes::u32_bytes(0),
            );
        }
        i += 1;
    }
}

fn write_central(
    writer: &mut Vec<u8>,
    ordered: &Vec<&BuilderEntry>,
    offsets: &Vec<u64>,
    Ghost(models): Ghost<Seq<StagedModel>>,
    Ghost(start): Ghost<int>,
    Ghost(sector): Ghost<int>,
)
    requires
        ordered@.len() == models.len(),
        offsets@.len() == models.len(),
        forall|i: int|
            0 <= i < models.len() ==> (#[trigger] ordered@[i])@ == models[i] && name_len(models[i])
                <= u16::MAX,
        forall|i: int|
            0 <= i < models.len() ==> #[trigger] offsets@[i] == record_at(
                models,
                start,
                sector,
                i,
            ),
    ensures
        final(writer)@ == old(writer)@ + central_bytes(models, start, sector, models.len() as int),
{
    let ghost first = writer@;
    let mut i: usize = 0;
    assert(first =~= first + central_bytes(models, start, sector, 0));
    while i < ordered.len()
        invariant
            i <= ordered@.len(),
            ordered@.len() == models.len(),
            offsets@.len() == models.len(),
            forall|j: int|
                0 <= j < models.len() ==> (#[trigger] ordered@[j])@ == models[j] && name_len(
                    models[j],
                ) <= u16::MAX,
            forall|j: int|
                0 <= j < models.len() ==> #[trigger] offsets@[j] == record_at(
                    models,
                    start,
                    sector,
                    j,
                ),
            writer@ == first + central_bytes(models, start, sector, i as int),
        decreases ordered@.len() - i,
    {
        assert(ordered@[i as int]@ == models[i as int]);
        let at: u64 = offsets[i];
        write_v1_central_directory_entry(writer, ordered[i], at);
        proof {
            bytes::lemma_joined(
                first,
                central_bytes(models, start, sector, i as int),
                central_record_bytes(models[i as int], at as int),
            );
        }
        i += 1;
    }
}

impl P4kBuilder {
    fn append_v1_image(&self, writer: &mut Vec<u8>) -> (r: Result<P4kWriteStats>)
        ensures
            match r {
                Ok(stats) => {
                    let outcome = v1_image_outcome(self@, old(writer)@.len() as int);
                    &&& outcome is Ok
                    &&& stats == outcome->Ok_0.1
                    &&& final(writer)@ == old(writer)@ + outcome->Ok_0.0
                },
                Err(e) => v1_image_outcome(self@, old(writer)@.len() as int) == Err::<
                    (Seq<u8>, P4kWriteStats),
                    Fault,
                >(e@),
            },
            final(writer)@.len() >= old(writer)@.len(),
            final(writer)@.take(old(writer)@.len() as int) == old(writer)@,
    {
        validate_options(self.options())?;
        let sector_size: u64 = self.options().sector_size;
        if sector_size > u16::MAX as u64 {
            return Err(invalid_input("v1 sector size must fit in u16"));
        }
        if self.len() as u64 > u32::MAX as u64 {
            return Err(invalid_input("v1 entry count must fit in u32"));
        }
        let ordered: Vec<&BuilderEntry> = self.entries_for_fresh_write();
        let ghost models = fresh::fresh_entries(self@.entries);
        let ghost first = writer@;
        let ghost start = writer@.len() as int;
        let ghost sector = sector_size as int;
        let ghost count = models.len() as int;
        let ghost plan = v1_plan(models, start, sector);
        let offsets: Vec<u64> = write_body(writer, &ordered, sector_size, Ghost(models))?;
        let payload_end: u64 = writer.len() as u64;
        write_progress(writer, &ordered, Ghost(models));
        let cdr_offset: u64 = writer.len() as u64;
        proof {
            assert forall|i: int| 0 <= i < count implies (#[trigger] ordered@[i])@ == models[i]
                && name_len(models[i]) <= u16::MAX by {
                lemma_body_good(models, start, sector_size, i, count);
            }
        }
        write_central(
            writer,
            &ordered,
            &offsets,
            Ghost(models),
            Ghost(start),
            Ghost(sector),
        );
        let cdr_end: u64 = writer.len() as u64;
        let cdr_size: u64 = cdr_end - cdr_offset;
        write_v1_trailer(
            writer,
            self.len() as u64,
            cdr_size,
            cdr_offset,
            sector_size as u16,
        );
        let content_size: u64 = writer.len() as u64;
        let ghost a = body_bytes(models, start, sector, count);
        let ghost b = progress_bytes(models, count);
        let ghost c = central_bytes(models, start, sector, count);
        let ghost d = trailer_bytes(count, plan.cdr_size, plan.cdr_offset, sector as u16);
        proof {
            assert(plan.cdr_offset == cdr_offset && plan.cdr_size == cdr_size);
            assert(plan.content_size == content_size);
            bytes::lemma_joined(first, a, b);
            bytes::lemma_joined(first, a + b, c);
            bytes::lemma_joined(first, a + b + c, d);
            align::lemma_aligned_up(content_size as int, sector);
            assert(writer@.take(start) =~= first);
        }
        let file_size: u64 = align_up(content_size, sector_size)?;
        put_zeros(writer, file_size - content_size);
        proof {
            let padding = bytes::zeros((file_size - content_size) as nat);
            bytes::lemma_joined(first, a + b + c + d, padding);
            assert(writer@.take(start) =~= first);
        }
        Ok(
            P4kWriteStats {
                entry_count: self.len(),
                payload_end,
                cdr_offset,
                cdr_size,
                name_table_size: 0,
                file_size,
            },
        )
    }

    /// Append a v1 archive to `writer`.
    ///
    /// Offsets count from the start of `writer`. Nothing is appended where the
    /// archive cannot be written.
    pub fn write_v1_to(&self, writer: &mut Vec<u8>) -> (r: Result<P4kWriteStats>)
        ensures
            match r {
                Ok(stats) => {
                    let outcome = v1_image_outcome(self@, old(writer)@.len() as int);
                    &&& outcome is Ok
                    &&& stats == outcome->Ok_0.1
                    &&& final(writer)@ == old(writer)@ + outcome->Ok_0.0
                },
                Err(e) => {
                    &&& v1_image_outcome(self@, old(writer)@.len() as int) == Err::<
                        (Seq<u8>, P4kWriteStats),
                        Fault,
                    >(e@)
                    &&& final(writer)@ == old(writer)@
                },
            },
    {
        let start: usize = writer.len();
        match self.append_v1_image(writer) {
            Ok(stats) => Ok(stats),
            Err(e) => {
                writer.truncate(start);
                Err(e)
            },
        }
    }
}

} // verus!
