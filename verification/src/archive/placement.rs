//! Where v1 payloads stand: directly behind the header, or behind the whole
//! aligned record.

use vstd::prelude::*;
use vstd::slice::*;
use vstd::string::*;
use vstd::utf8::*;

use crate::align;
use crate::align::{is_power_of_two, v1_local_record_size_from_name_len};
use crate::archive::local;
use crate::archive::local::local_payload_offset;
use crate::archive::model;
use crate::archive::model::{EntryModel, P4kEntryCompact, P4kVersion};
use crate::bytes;
use crate::bytes::{get_u32, same_bytes};
use crate::digest;
use crate::digest::{is_digest_given, sha256};
use crate::zip::LocalFileHeader;

verus! {

/// Where the payloads of a v1 archive stand.
#[derive(Debug, Clone, Copy, PartialEq, Eq, Structural)]
pub enum V1PayloadPlacement {
    /// Nothing is known.
    Unknown,
    /// Payload bytes follow the ZIP local header and the sampled
    /// archive proves that local header span is one physical sector.
    ZipLocalSector,
    /// Payload bytes follow the ZIP local header, but the local header
    /// span must be read per entry.
    ZipLocal,
    /// Payload bytes follow the aligned local record.
    AlignedRecord,
}

impl V1PayloadPlacement {
    /// The name of the placement.
    pub open spec fn name_text(self) -> Seq<char> {
        match self {
            V1PayloadPlacement::Unknown => "unknown"@,
            V1PayloadPlacement::ZipLocalSector => "zip_local_sector"@,
            V1PayloadPlacement::ZipLocal => "zip_local"@,
            V1PayloadPlacement::AlignedRecord => "aligned_record"@,
        }
    }

    /// The name of the placement.
    pub fn as_str(self) -> (s: &'static str)
        ensures
            s@ == self.name_text(),
    {
        match self {
            V1PayloadPlacement::Unknown => "unknown",
            V1PayloadPlacement::ZipLocalSector => "zip_local_sector",
            V1PayloadPlacement::ZipLocal => "zip_local",
            V1PayloadPlacement::AlignedRecord => "aligned_record",
        }
    }
}

/// At most so many entries are sampled.
pub const SAMPLE_MAX_ENTRIES: usize = 128;

/// No further entry is sampled after so many bytes.
pub const SAMPLE_MAX_BYTES: u64 = 0x400_0000;

/// Entries larger than this are not sampled.
pub const SAMPLE_MAX_ENTRY_BYTES: u64 = 0x100_0000;

/// So many entries that agree settle the placement.
pub const SAMPLE_CONFIDENT_ENTRIES: usize = 16;

/// Whether the bytes from `offset` on have the given digest.
pub open spec fn digest_matches(
    data: Seq<u8>,
    offset: int,
    size: u64,
    expected: Seq<u8>,
) -> bool {
    offset + size <= data.len() && digest::sha256_of(data.subrange(offset, offset + size))
        == expected
}

/// Check the digest of a payload that may stand at `offset`.
fn payload_sha256_matches(data: &[u8], offset: u64, size: u64, expected: &[u8; 32]) -> (r: bool)
    ensures
        r == digest_matches(data@, offset as int, size, expected@),
{
    assert(data.len() == data@.len());
    let length: u64 = data.len() as u64;
    if offset > length || size > length - offset {
        return false;
    }
    let actual = sha256(slice_subrange(data, offset as usize, (offset + size) as usize));
    same_bytes(actual.as_slice(), expected.as_slice())
}

/// The two places where the payload of an entry may stand.
pub open spec fn candidates(data: Seq<u8>, e: EntryModel, sector_size: u64) -> Option<(u64, u64)> {
    let at = e.local_header_offset as int;
    let header = local::header_at(data, at);
    let record = align::v1_record_size(encode_utf8(e.name).len() as int, sector_size as int);
    if at + 4 + LocalFileHeader::SIZE > data.len() {
        None
    } else if !local::is_local_signature(bytes::le32(data, at)) {
        None
    } else if at + local::header_span(header) > data.len() {
        None
    } else {
        let behind_header = (at + local::header_span(header)) as u64;
        match local::payload_outcome(at, header) {
            Ok(offset) => Some((behind_header, offset as u64)),
            Err(_) => if align::is_pow2(sector_size as nat) && encode_utf8(e.name).len()
                + sector_size + 0x3D + sector_size - 1 <= u64::MAX && at + record <= u64::MAX {
                Some((behind_header, (at + record) as u64))
            } else {
                None
            },
        }
    }
}

/// Find the two places where the payload of an entry may stand.
fn v1_payload_candidate_offsets(data: &[u8], entry: &P4kEntryCompact, sector_size: u64) -> (r:
    Option<(u64, u64)>)
    ensures
        r == candidates(data@, entry@, sector_size),
{
    assert(data.len() == data@.len());
    let fixed: usize = 4 + LocalFileHeader::SIZE;
    if data.len() < fixed || entry.local_header_offset > (data.len() - fixed) as u64 {
        return None;
    }
    let at: usize = entry.local_header_offset as usize;
    let signature: u32 = get_u32(data, at);
    if signature != LocalFileHeader::SIGNATURE && signature != LocalFileHeader::SIGNATURE_EXTENDED {
        return None;
    }
    let header = LocalFileHeader::read(data, at + 4);
    let variable: usize = header.variable_data_size();
    if variable > data.len() - fixed - at {
        return None;
    }
    let behind_header: u64 = (at + fixed + variable) as u64;
    match local_payload_offset(at, &header) {
        Ok(offset) => Some((behind_header, offset as u64)),
        Err(_) => match v1_local_record_size_from_name_len(
            entry.name.as_str().as_bytes().len() as u64,
            sector_size,
        ) {
            Some(record) => match entry.local_header_offset.checked_add(record) {
                Some(offset) => Some((behind_header, offset)),
                None => None,
            },
            None => None,
        },
    }
}

/// The placement of a payload that stands directly behind its header.
pub open spec fn zip_local_placement(
    e: EntryModel,
    zip_offset: u64,
    sector_size: u64,
) -> V1PayloadPlacement {
    if e.local_header_offset + sector_size == zip_offset {
        V1PayloadPlacement::ZipLocalSector
    } else {
        V1PayloadPlacement::ZipLocal
    }
}

/// Where the payload of an entry is found by its digest, if it is. The place
/// that was seen before is tried first.
pub open spec fn found_placement(
    data: Seq<u8>,
    e: EntryModel,
    sector_size: u64,
    zip_offset: u64,
    aligned_offset: u64,
    preferred: V1PayloadPlacement,
) -> Option<V1PayloadPlacement> {
    let behind_header = digest_matches(data, zip_offset as int, e.compressed_size, e.sha256);
    let behind_record = zip_offset != aligned_offset && digest_matches(
        data,
        aligned_offset as int,
        e.compressed_size,
        e.sha256,
    );
    let zip = zip_local_placement(e, zip_offset, sector_size);
    if preferred == V1PayloadPlacement::AlignedRecord && behind_record {
        Some(V1PayloadPlacement::AlignedRecord)
    } else if behind_header {
        Some(zip)
    } else if behind_record {
        Some(V1PayloadPlacement::AlignedRecord)
    } else {
        None
    }
}

/// Find the payload of an entry by its digest.
fn detect_v1_entry_payload_placement(
    data: &[u8],
    entry: &P4kEntryCompact,
    sector_size: u64,
    zip_offset: u64,
    aligned_offset: u64,
    preferred: V1PayloadPlacement,
) -> (r: Option<V1PayloadPlacement>)
    ensures
        r == found_placement(data@, entry@, sector_size, zip_offset, aligned_offset, preferred),
{
    let aligned_first: bool = preferred == V1PayloadPlacement::AlignedRecord;
    if aligned_first && zip_offset != aligned_offset && payload_sha256_matches(
        data,
        aligned_offset,
        entry.compressed_size,
        &entry.sha256,
    ) {
        return Some(V1PayloadPlacement::AlignedRecord);
    }
    if payload_sha256_matches(data, zip_offset, entry.compressed_size, &entry.sha256) {
        return match entry.local_header_offset.checked_add(sector_size) {
            Some(sector_offset) => if sector_offset == zip_offset {
                Some(V1PayloadPlacement::ZipLocalSector)
            } else {
                Some(V1PayloadPlacement::ZipLocal)
            },
            None => Some(V1PayloadPlacement::ZipLocal),
        };
    }
    if !aligned_first && zip_offset != aligned_offset && payload_sha256_matches(
        data,
        aligned_offset,
        entry.compressed_size,
        &entry.sha256,
    ) {
        return Some(V1PayloadPlacement::AlignedRecord);
    }
    None
}

/// The placement that covers two samples, if there is one.
pub open spec fn merged_placement(a: V1PayloadPlacement, b: V1PayloadPlacement) -> Option<
    V1PayloadPlacement,
> {
    if a == b {
        Some(a)
    } else if (a == V1PayloadPlacement::ZipLocal && b == V1PayloadPlacement::ZipLocalSector) || (a
        == V1PayloadPlacement::ZipLocalSector && b == V1PayloadPlacement::ZipLocal) {
        Some(V1PayloadPlacement::ZipLocal)
    } else {
        None
    }
}

/// Find the placement that covers two samples.
pub fn merge_v1_payload_placement(current: V1PayloadPlacement, next: V1PayloadPlacement) -> (r:
    Option<V1PayloadPlacement>)
    ensures
        r == merged_placement(current, next),
{
    if current == next {
        return Some(current);
    }
    match (current, next) {
        (V1PayloadPlacement::ZipLocal, V1PayloadPlacement::ZipLocalSector) => Some(
            V1PayloadPlacement::ZipLocal,
        ),
        (V1PayloadPlacement::ZipLocalSector, V1PayloadPlacement::ZipLocal) => Some(
            V1PayloadPlacement::ZipLocal,
        ),
        _ => None,
    }
}

/// What one entry says of the placement: nothing for one that is not sampled.
pub open spec fn sample(
    data: Seq<u8>,
    e: EntryModel,
    sector_size: u64,
    preferred: V1PayloadPlacement,
) -> Option<V1PayloadPlacement> {
    if e.compressed_size == 0 || e.compressed_size > SAMPLE_MAX_ENTRY_BYTES
        || !digest::digest_given(e.sha256) {
        None
    } else {
        match candidates(data, e, sector_size) {
            None => None,
            Some((zip_offset, aligned_offset)) => found_placement(
                data,
                e,
                sector_size,
                zip_offset,
                aligned_offset,
                preferred,
            ),
        }
    }
}

fn sample_entry(
    data: &[u8],
    entry: &P4kEntryCompact,
    sector_size: u64,
    preferred: V1PayloadPlacement,
) -> (r: Option<V1PayloadPlacement>)
    ensures
        r == sample(data@, entry@, sector_size, preferred),
{
    if entry.compressed_size == 0 || entry.compressed_size > SAMPLE_MAX_ENTRY_BYTES
        || !is_digest_given(&entry.sha256) {
        return None;
    }
    match v1_payload_candidate_offsets(data, entry, sector_size) {
        None => None,
        Some((zip_offset, aligned_offset)) => detect_v1_entry_payload_placement(
            data,
            entry,
            sector_size,
            zip_offset,
            aligned_offset,
            preferred,
        ),
    }
}

/// The placement that the entries from `index` on settle, after `sampled`
/// entries of `sampled_bytes` bytes that all fit `detected`.
pub open spec fn placement_walk(
    data: Seq<u8>,
    entries: Seq<EntryModel>,
    sector_size: u64,
    index: int,
    detected: V1PayloadPlacement,
    sampled: int,
    sampled_bytes: int,
) -> V1PayloadPlacement
    decreases entries.len() - index,
{
    if index >= entries.len() {
        detected
    } else {
        let e = entries[index];
        match sample(data, e, sector_size, detected) {
            None => placement_walk(
                data,
                entries,
                sector_size,
                index + 1,
                detected,
                sampled,
                sampled_bytes,
            ),
            Some(placement) => {
                let merged = if detected == V1PayloadPlacement::Unknown {
                    Some(placement)
                } else {
                    merged_placement(detected, placement)
                };
                match merged {
                    None => V1PayloadPlacement::Unknown,
                    Some(next) => if sampled + 1 >= SAMPLE_MAX_ENTRIES || sampled_bytes
                        + e.compressed_size >= SAMPLE_MAX_BYTES || sampled + 1
                        >= SAMPLE_CONFIDENT_ENTRIES {
                        next
                    } else {
                        placement_walk(
                            data,
                            entries,
                            sector_size,
                            index + 1,
                            next,
                            sampled + 1,
                            sampled_bytes + e.compressed_size,
                        )
                    },
                }
            },
        }
    }
}

/// The placement of the payloads of an archive.
pub open spec fn placement_of(
    data: Seq<u8>,
    version: P4kVersion,
    entries: Seq<EntryModel>,
    sector_size: Option<u64>,
) -> V1PayloadPlacement {
    match sector_size {
        Some(size) => if version == P4kVersion::V1 && align::is_pow2(size as nat) {
            placement_walk(data, entries, size, 0, V1PayloadPlacement::Unknown, 0, 0)
        } else {
            V1PayloadPlacement::Unknown
        },
        None => V1PayloadPlacement::Unknown,
    }
}

/// Sample entries to find where payloads stand.
pub fn detect_v1_payload_placement(
    data: &[u8],
    version: P4kVersion,
    entries: &Vec<P4kEntryCompact>,
    sector_size: Option<u64>,
) -> (r: V1PayloadPlacement)
    ensures
        r == placement_of(data@, version, model::entry_models(entries@), sector_size),
{
    if version != P4kVersion::V1 {
        return V1PayloadPlacement::Unknown;
    }
    let size: u64 = match sector_size {
        Some(size) => size,
        None => return V1PayloadPlacement::Unknown,
    };
    if !is_power_of_two(size) {
        return V1PayloadPlacement::Unknown;
    }
    let ghost models = model::entry_models(entries@);
    let ghost whole = placement_walk(data@, models, size, 0, V1PayloadPlacement::Unknown, 0, 0);
    let mut detected = V1PayloadPlacement::Unknown;
    let mut sampled: usize = 0;
    let mut sampled_bytes: u64 = 0;
    let mut index: usize = 0;
    while index < entries.len()
        invariant
            index <= entries@.len(),
            sampled < SAMPLE_CONFIDENT_ENTRIES,
            sampled_bytes < SAMPLE_MAX_BYTES,
            models == model::entry_models(entries@),
            sector_size == Some(size),
            version == P4kVersion::V1,
            align::is_pow2(size as nat),
            whole == placement_walk(data@, models, size, 0, V1PayloadPlacement::Unknown, 0, 0),
            whole == placement_walk(
                data@,
                models,
                size,
                index as int,
                detected,
                sampled as int,
                sampled_bytes as int,
            ),
        decreases entries@.len() - index,
    {
        let entry = &entries[index];
        assert(models[index as int] == entry@);
        if let Some(placement) = sample_entry(data, entry, size, detected) {
            if detected == V1PayloadPlacement::Unknown {
                detected = placement;
            } else {
                match merge_v1_payload_placement(detected, placement) {
                    Some(merged) => {
                        detected = merged;
                    },
                    None => return V1PayloadPlacement::Unknown,
                }
            }
            sampled += 1;
            sampled_bytes += entry.compressed_size;
            if sampled >= SAMPLE_MAX_ENTRIES || sampled_bytes >= SAMPLE_MAX_BYTES || sampled
                >= SAMPLE_CONFIDENT_ENTRIES {
                return detected;
            }
        }
        index += 1;
    }
    detected
}

/// Two placements go together if and only if they are the same or both right behind
/// the header, whichever is named first.
pub proof fn law_merged_placement(a: V1PayloadPlacement, b: V1PayloadPlacement)
    ensures
        merged_placement(a, b) == merged_placement(b, a),
        merged_placement(a, a) == Some(a),
        a != b ==> (merged_placement(a, b) is Some <==> {
            &&& a == V1PayloadPlacement::ZipLocal || a == V1PayloadPlacement::ZipLocalSector
            &&& b == V1PayloadPlacement::ZipLocal || b == V1PayloadPlacement::ZipLocalSector
        }),
        a != b && merged_placement(a, b) is Some ==> merged_placement(a, b) == Some(
            V1PayloadPlacement::ZipLocal,
        ),
{
}


} // verus!
