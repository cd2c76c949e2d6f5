//! The archive itself: its directory, and the payloads behind it.

use vstd::prelude::*;
use vstd::seq::*;
use vstd::seq_lib::*;
use vstd::slice::*;
use vstd::string::*;
use vstd::utf8::*;

use crate::align;
use crate::align::v1_local_record_size_from_name_len;
use crate::archive::local;
use crate::archive::local::{read_local_header, zip_local_payload_offset};
use crate::archive::model;
use crate::archive::model::{
    Directory, DirectoryModel, EntryModel, P4kArchiveLayout, P4kEntryCompact, P4kEntryRef,
    P4kFreelistBlock, P4kVersion,
};
use crate::archive::payload;
use crate::archive::payload::{
    decode_payload_to_vec, payload_location_by_local_header, payload_range_fits,
    select_v1_payload_offset, slice_range, PayloadLocation,
};
use crate::archive::placement;
use crate::archive::placement::{detect_v1_payload_placement, V1PayloadPlacement};
use crate::archive::v1_install;
use crate::archive::v1_install::parse_entries_v1;
use crate::archive::v2;
use crate::archive::v2::try_parse_v2;
use crate::bytes;
use crate::bytes::{get_u32, put_bytes, same_bytes};
use crate::crc;
use crate::crc::hash_bytes;
use crate::decompress;
use crate::digest;
use crate::digest::{sha256, validate_sha256};
use crate::entry::{EntryInfo, P4kEntry};
use crate::error;
use crate::error::{invalid_input, not_found, Error, Fault, Result};
use crate::order;
use crate::order::sort_positions;
use crate::path;
use crate::path::{eq_ignore_case, normalize_p4k_path};
use crate::scan;
use crate::scan::find_content_end;
use crate::text;
use crate::text::dec;
use crate::zip::{CompressionMethod, LocalFileHeader};

verus! {

/// What a file holds as an archive, or why it is none.
///
/// A v2 archive is known by its magic at the end of the content; everything
/// else is read as a v1 archive.
pub open spec fn archive_outcome(data: Seq<u8>) -> std::result::Result<
    (P4kVersion, DirectoryModel),
    Fault,
> {
    let end = scan::content_end(data);
    if v2::ends_in_v2_magic(data, end) {
        match v2::v2_file_outcome(data, end) {
            Err(fault) => Err(fault),
            Ok(directory) => Ok((P4kVersion::V2, directory)),
        }
    } else {
        match v1_install::v1_outcome(data, end) {
            Err(fault) => Err(fault),
            Ok(directory) => Ok((P4kVersion::V1, directory)),
        }
    }
}

/// Detect the on-disk version and parse the directory.
pub fn parse_entries_dispatched(data: &[u8]) -> (r: Result<(P4kVersion, Directory)>)
    ensures
        match r {
            Ok((version, directory)) => archive_outcome(data@) == Ok::<
                (P4kVersion, DirectoryModel),
                Fault,
            >((version, directory@)),
            Err(e) => archive_outcome(data@) == Err::<(P4kVersion, DirectoryModel), Fault>(e@),
        },
{
    let end: usize = find_content_end(data);
    proof {
        scan::law_content_end(data@);
    }
    if let Some(directory) = try_parse_v2(data, end)? {
        return Ok((P4kVersion::V2, directory));
    }
    let directory = parse_entries_v1(data, end)?;
    Ok((P4kVersion::V1, directory))
}

/// P4K archive reader over the bytes of a file.
#[derive(Debug)]
pub struct P4kArchive<'a> {
    data: &'a [u8],
    name: String,
    version: P4kVersion,
    entries: Vec<P4kEntryCompact>,
    freelist_blocks: Vec<P4kFreelistBlock>,
    layout: P4kArchiveLayout,
    v1_payload_placement: V1PayloadPlacement,
}

/// What an opened archive is: the bytes, and what was read from them.
pub struct ArchiveModel {
    pub data: Seq<u8>,
    pub name: Seq<char>,
    pub version: P4kVersion,
    pub directory: DirectoryModel,
    pub placement: V1PayloadPlacement,
}

impl<'a> View for P4kArchive<'a> {
    type V = ArchiveModel;

    closed spec fn view(&self) -> ArchiveModel {
        ArchiveModel {
            data: self.data@,
            name: self.name@,
            version: self.version,
            directory: DirectoryModel {
                entries: model::entry_models(self.entries@),
                freelist_blocks: self.freelist_blocks@,
                layout: self.layout@,
            },
            placement: self.v1_payload_placement,
        }
    }
}

impl ArchiveModel {
    /// The sector size that the directory records.
    pub open spec fn sector_size(self) -> Option<u64> {
        self.directory.layout.physical_sector_size
    }

    /// Whether this is what the bytes hold.
    pub open spec fn is_read(self) -> bool {
        &&& archive_outcome(self.data) == Ok::<(P4kVersion, DirectoryModel), Fault>(
            (self.version, self.directory),
        )
        &&& self.placement == placement::placement_of(
            self.data,
            self.version,
            self.directory.entries,
            self.sector_size(),
        )
    }

    /// Where the payload of a v1 entry stands, as far as the archive tells
    /// without a look at the payload.
    pub open spec fn known_offset(self, name: Seq<char>, offset: u64) -> Option<u64> {
        match self.placement {
            V1PayloadPlacement::Unknown => None,
            V1PayloadPlacement::ZipLocalSector => match self.sector_size() {
                Some(size) => if offset + size <= u64::MAX {
                    Some((offset + size) as u64)
                } else {
                    None
                },
                None => None,
            },
            V1PayloadPlacement::ZipLocal => if offset + 4 + LocalFileHeader::SIZE
                > self.data.len() {
                None
            } else if !local::is_local_signature(bytes::le32(self.data, offset as int)) {
                None
            } else {
                match local::zip_payload_outcome(
                    offset as int,
                    local::header_at(self.data, offset as int),
                ) {
                    Ok(at) => Some(at as u64),
                    Err(_) => None,
                }
            },
            V1PayloadPlacement::AlignedRecord => match self.sector_size() {
                Some(size) => {
                    let length = encode_utf8(name).len();
                    let record = align::v1_record_size(length as int, size as int);
                    if align::is_pow2(size as nat) && length + size + 0x3D + size - 1 <= u64::MAX
                        && offset + record <= u64::MAX {
                        Some((offset + record) as u64)
                    } else {
                        None
                    }
                },
                None => None,
            },
        }
    }

    /// The known offset of an entry's payload, if the payload lies in the file.
    pub open spec fn known_payload_offset(self, e: EntryModel) -> Option<u64> {
        let offset = match self.version {
            P4kVersion::V2 => Some(e.local_header_offset),
            P4kVersion::V1 => self.known_offset(e.name, e.local_header_offset),
        };
        if e.compressed_size == 0 {
            Some(0)
        } else {
            match offset {
                Some(at) => if payload::range_fits(self.data, at, e.compressed_size) {
                    Some(at)
                } else {
                    None
                },
                None => None,
            }
        }
    }

    /// Where the payload of a v1 entry stands, or what is wrong with the entry.
    pub open spec fn location(self, e: EntryModel) -> std::result::Result<PayloadLocation, Fault> {
        payload::location_outcome(self.data, self.sector_size(), self.placement, e)
    }

    /// What is wrong with the payload range of a v2 entry.
    pub open spec fn v2_range_fault(self, e: EntryModel) -> Option<Fault> {
        payload::range_fault(
            self.data,
            e.local_header_offset,
            e.compressed_size,
            "v2 entry data out of bounds"@,
        )
    }

    /// The exact offset of an entry's payload, or what is wrong with the entry.
    pub open spec fn payload_offset(self, e: EntryModel) -> std::result::Result<u64, Fault> {
        if e.compressed_size == 0 {
            Ok(0)
        } else {
            match self.version {
                P4kVersion::V2 => match self.v2_range_fault(e) {
                    Some(fault) => Err(fault),
                    None => Ok(e.local_header_offset),
                },
                P4kVersion::V1 => match self.location(e) {
                    Err(fault) => Err(fault),
                    Ok(l) => Ok(l.offset),
                },
            }
        }
    }

    /// The stored bytes of an entry and whether their digest was found to
    /// match, or what is wrong with the entry.
    pub open spec fn stored(self, e: EntryModel) -> std::result::Result<(Seq<u8>, bool), Fault> {
        match self.version {
            P4kVersion::V2 => match self.v2_range_fault(e) {
                Some(fault) => Err(fault),
                None => Ok(
                    (
                        self.data.subrange(
                            e.local_header_offset as int,
                            e.local_header_offset + e.compressed_size,
                        ),
                        false,
                    ),
                ),
            },
            P4kVersion::V1 => match self.location(e) {
                Err(fault) => Err(fault),
                Ok(l) => Ok(
                    (
                        self.data.subrange(l.offset as int, l.offset + e.compressed_size),
                        l.sha256_verified,
                    ),
                ),
            },
        }
    }

    /// What reading an entry gives.
    pub open spec fn read(self, e: EntryModel) -> std::result::Result<Seq<u8>, Fault> {
        match self.version {
            P4kVersion::V1 => self.read_v1(e),
            P4kVersion::V2 => self.read_v2(e),
        }
    }

    /// What reading a v1 entry gives.
    pub open spec fn read_v1(self, e: EntryModel) -> std::result::Result<Seq<u8>, Fault> {
        let at = e.local_header_offset as int;
        match local::header_fault(self.data, self.sector_size(), e) {
            Some(fault) => Err(fault),
            None => match payload::selected(
                self.data,
                at,
                local::header_at(self.data, at),
                e.compressed_size,
                e.sha256,
            ) {
                Err(fault) => Err(fault),
                Ok((offset, _)) => match payload::range_fault(
                    self.data,
                    offset as u64,
                    e.compressed_size,
                    "entry data out of bounds"@,
                ) {
                    Some(fault) => Err(fault),
                    None => payload::decode_payload_outcome(
                        self.data.subrange(offset as int, offset + e.compressed_size),
                        e.compression_method,
                        e.uncompressed_size,
                        e.is_encrypted,
                    ),
                },
            },
        }
    }

    /// What reading a v2 entry gives.
    pub open spec fn read_v2(self, e: EntryModel) -> std::result::Result<Seq<u8>, Fault> {
        if e.uncompressed_size == 0 && e.compressed_size == 0 {
            Ok(Seq::empty())
        } else {
            match self.v2_range_fault(e) {
                Some(fault) => Err(fault),
                None => payload::decode_payload_outcome(
                    self.data.subrange(
                        e.local_header_offset as int,
                        e.local_header_offset + e.compressed_size,
                    ),
                    e.compression_method,
                    e.uncompressed_size,
                    e.is_encrypted,
                ),
            }
        }
    }

    /// What extracting an entry gives: the decoded form of its stored bytes.
    pub open spec fn extracted(self, e: EntryModel) -> std::result::Result<Seq<u8>, Fault> {
        match self.stored(e) {
            Err(fault) => Err(fault),
            Ok((stored, _)) => decode_extracted(stored, e),
        }
    }

    /// What is wrong with the digest of an entry's stored bytes.
    pub open spec fn digest_fault(self, e: EntryModel) -> Option<Fault> {
        match self.stored(e) {
            Err(fault) => Some(fault),
            Ok((stored, verified)) => if verified {
                None
            } else {
                digest::sha256_fault(stored, e.sha256)
            },
        }
    }

    /// What is wrong with the checksum of an entry's contents.
    pub open spec fn checksum_fault(self, e: EntryModel) -> Option<Fault> {
        match self.extracted(e) {
            Err(fault) => Some(fault),
            Ok(out) => if crc::crc32c(out) != e.crc32 {
                Some(Fault::CrcMismatch { expected: e.crc32, actual: crc::crc32c(out) })
            } else {
                None
            },
        }
    }

    /// What is wrong with an entry, by digest and checksum.
    pub open spec fn integrity_fault(self, e: EntryModel) -> Option<Fault> {
        if self.digest_fault(e) is Some {
            self.digest_fault(e)
        } else {
            self.checksum_fault(e)
        }
    }

    /// What is wrong with the known payload range of a v1 entry on this machine.
    pub open spec fn known_range_fault(self, offset: u64, size: u64) -> Option<Fault> {
        if offset > usize::MAX {
            Some(error::invalid_input_fault("v1 payload offset overflows usize"@))
        } else if size > usize::MAX {
            Some(error::invalid_input_fault("compressed size overflows usize"@))
        } else {
            None
        }
    }

    /// What is wrong with the digest of an entry, with a try at the known
    /// payload offset first.
    pub open spec fn fast_digest_fault(self, e: EntryModel) -> Option<Fault> {
        let known = self.known_offset(e.name, e.local_header_offset);
        if e.compressed_size == 0 {
            digest::sha256_fault(Seq::empty(), e.sha256)
        } else if self.version == P4kVersion::V2 || known is None {
            self.digest_fault(e)
        } else if self.known_range_fault(known->Some_0, e.compressed_size) is Some {
            self.known_range_fault(known->Some_0, e.compressed_size)
        } else if placement::digest_matches(
            self.data,
            known->Some_0 as int,
            e.compressed_size,
            e.sha256,
        ) {
            None
        } else {
            self.digest_fault(e)
        }
    }

    /// What is wrong with an entry, by digest and checksum, with a try at the
    /// known payload offset first.
    pub open spec fn fast_integrity_fault(self, e: EntryModel) -> Option<Fault> {
        if self.fast_digest_fault(e) is Some {
            self.fast_digest_fault(e)
        } else {
            self.checksum_fault(e)
        }
    }

    /// By what the entries are put in physical order.
    pub open spec fn sort_offset(self, e: EntryModel) -> u64 {
        match self.version {
            P4kVersion::V1 => match self.known_offset(e.name, e.local_header_offset) {
                Some(offset) => offset,
                None => e.local_header_offset,
            },
            P4kVersion::V2 => e.local_header_offset,
        }
    }

    /// The sort offsets of all entries.
    pub open spec fn sort_offsets(self) -> Seq<u64> {
        Seq::new(
            self.directory.entries.len(),
            |i: int| self.sort_offset(self.directory.entries[i]),
        )
    }

    /// The entries in physical order.
    pub open spec fn physical_order(self) -> Seq<usize> {
        order::order_of(self.sort_offsets())
    }

    /// The entry that a name finds: the first whose name is the same but for case.
    pub open spec fn found_at(self, name: Seq<char>, from: int) -> Option<int>
        decreases self.directory.entries.len() - from,
    {
        if from >= self.directory.entries.len() {
            None
        } else if is_meant_by(self.directory.entries[from], name) {
            Some(from)
        } else {
            self.found_at(name, from + 1)
        }
    }
}

/// Whether an entry is meant by a name: the name in normal form is the entry's
/// name but for ASCII case.
pub open spec fn is_meant_by(e: EntryModel, name: Seq<char>) -> bool {
    path::same_but_case(encode_utf8(e.name), path::normalized(encode_utf8(name), false))
}

proof fn lemma_found(a: ArchiveModel, name: Seq<char>, from: int)
    requires
        0 <= from <= a.directory.entries.len(),
    ensures
        match a.found_at(name, from) {
            Some(i) => {
                &&& from <= i < a.directory.entries.len()
                &&& is_meant_by(a.directory.entries[i], name)
                &&& forall|j: int|
                    from <= j < i ==> !is_meant_by(#[trigger] a.directory.entries[j], name)
            },
            None => forall|j: int|
                from <= j < a.directory.entries.len() ==> !is_meant_by(
                    #[trigger] a.directory.entries[j],
                    name,
                ),
        },
    decreases a.directory.entries.len() - from,
{
    if from < a.directory.entries.len() && !is_meant_by(a.directory.entries[from], name) {
        lemma_found(a, name, from + 1);
    }
}

/// A search finds the first entry that the name means, if there is one.
pub proof fn law_found(a: ArchiveModel, name: Seq<char>)
    ensures
        match a.found_at(name, 0) {
            Some(i) => {
                &&& 0 <= i < a.directory.entries.len()
                &&& is_meant_by(a.directory.entries[i], name)
                &&& forall|j: int|
                    0 <= j < i ==> !is_meant_by(#[trigger] a.directory.entries[j], name)
            },
            None => forall|j: int|
                0 <= j < a.directory.entries.len() ==> !is_meant_by(
                    #[trigger] a.directory.entries[j],
                    name,
                ),
        },
{
    lemma_found(a, name, 0);
}

/// A search does not tell apart names that are written with other case or
/// with other separators.
pub proof fn law_found_by_any_spelling(a: ArchiveModel, one: Seq<char>, other: Seq<char>)
    requires
        path::same_but_case(
            path::normalized(encode_utf8(one), false),
            path::normalized(encode_utf8(other), false),
        ),
    ensures
        a.found_at(one, 0) == a.found_at(other, 0),
{
    law_found(a, one);
    law_found(a, other);
    assert forall|e: EntryModel| #[trigger]
        is_meant_by(e, one) == is_meant_by(e, other) by {}
    match (a.found_at(one, 0), a.found_at(other, 0)) {
        (Some(i), Some(j)) => {
            assert(is_meant_by(a.directory.entries[i], other));
            assert(is_meant_by(a.directory.entries[j], one));
        },
        (Some(i), None) => {
            assert(is_meant_by(a.directory.entries[i], other));
        },
        (None, Some(j)) => {
            assert(is_meant_by(a.directory.entries[j], one));
        },
        (None, None) => {},
    }
}

/// Every entry whose name is in normal form is found by its own name, unless
/// an earlier entry has the same name but for case.
pub proof fn law_found_by_own_name(a: ArchiveModel, i: int)
    requires
        0 <= i < a.directory.entries.len(),
        path::is_normalized(encode_utf8(a.directory.entries[i].name), false),
        forall|j: int|
            0 <= j < i ==> !path::same_but_case(
                encode_utf8((#[trigger] a.directory.entries[j]).name),
                encode_utf8(a.directory.entries[i].name),
            ),
    ensures
        a.found_at(a.directory.entries[i].name, 0) == Some(i),
{
    let name = a.directory.entries[i].name;
    law_found(a, name);
    path::law_normalized_fixpoint(encode_utf8(name), false);
    assert(is_meant_by(a.directory.entries[i], name));
}

/// Where the archive knows the offset of a payload without a look at the
/// payload, that is where the payload is found, if it is found. An empty
/// payload is found at the start of the file, and any other lies in the file.
pub proof fn law_known_offset_is_resolved(a: ArchiveModel, e: EntryModel)
    requires
        a.data.len() <= usize::MAX,
    ensures
        a.known_payload_offset(e) is Some && a.payload_offset(e) is Ok ==> {
            let at = a.known_payload_offset(e)->Some_0;
            &&& a.payload_offset(e) == Ok::<u64, Fault>(at)
            &&& e.compressed_size == 0 ==> at == 0
            &&& e.compressed_size > 0 ==> at + e.compressed_size <= a.data.len()
        },
{
}

/// What the stored bytes of an entry decode to on extraction.
pub open spec fn decode_extracted(stored: Seq<u8>, e: EntryModel) -> std::result::Result<
    Seq<u8>,
    Fault,
> {
    if e.compression_method == CompressionMethod::Store && !e.is_encrypted {
        if stored.len() != e.uncompressed_size {
            Err(
                Fault::Decompression(
                    "stored entry size mismatch: expected "@ + text::dec_text(
                        e.uncompressed_size as nat,
                    ) + ", got "@ + text::dec_text(stored.len()),
                ),
            )
        } else {
            Ok(stored)
        }
    } else {
        payload::decode_payload_outcome(
            stored,
            e.compression_method,
            e.uncompressed_size,
            e.is_encrypted,
        )
    }
}

/// The first fault from `k` on.
pub open spec fn first_fault(faults: Seq<Option<Fault>>, sorted: Seq<usize>, k: int) -> Option<
    Fault,
>
    decreases sorted.len() - k,
{
    if k >= sorted.len() {
        None
    } else if faults[sorted[k] as int] is Some {
        faults[sorted[k] as int]
    } else {
        first_fault(faults, sorted, k + 1)
    }
}

/// A check that visits every entry passes if and only if every entry passes.
pub proof fn law_first_fault(faults: Seq<Option<Fault>>, sorted: Seq<usize>)
    requires
        forall|a: int| 0 <= a < sorted.len() ==> #[trigger] sorted[a] < faults.len(),
        forall|i: usize| 0 <= i < faults.len() ==> #[trigger] sorted.contains(i),
        faults.len() <= usize::MAX,
    ensures
        first_fault(faults, sorted, 0) is None <==> forall|i: int|
            0 <= i < faults.len() ==> (#[trigger] faults[i]) is None,
{
    lemma_first_fault(faults, sorted, 0);
    if first_fault(faults, sorted, 0) is None {
        assert forall|i: int| 0 <= i < faults.len() implies (#[trigger] faults[i]) is None by {
            assert(sorted.contains(i as usize));
            let a = choose|a: int| 0 <= a < sorted.len() && sorted[a] == i as usize;
            assert(faults[sorted[a] as int] is None);
        }
    } else {
        let a = choose|a: int|
            0 <= a < sorted.len() && faults[#[trigger] sorted[a] as int] is Some;
        assert(faults[sorted[a] as int] is Some);
    }
}

proof fn lemma_first_fault(faults: Seq<Option<Fault>>, sorted: Seq<usize>, k: int)
    requires
        0 <= k <= sorted.len(),
    ensures
        first_fault(faults, sorted, k) is None <==> forall|a: int|
            k <= a < sorted.len() ==> faults[#[trigger] sorted[a] as int] is None,
    decreases sorted.len() - k,
{
    if k < sorted.len() {
        lemma_first_fault(faults, sorted, k + 1);
        if first_fault(faults, sorted, k) is None {
            assert forall|a: int| k <= a < sorted.len() implies faults[#[trigger] sorted[a] as int] is None by {
                if a > k {
                    assert(faults[sorted[a] as int] is None);
                }
            }
        } else if faults[sorted[k] as int] is None {
            let a = choose|a: int|
                k + 1 <= a < sorted.len() && faults[#[trigger] sorted[a] as int] is Some;
            assert(faults[sorted[a] as int] is Some);
        } else {
            assert(faults[sorted[k] as int] is Some);
        }
    }
}

fn decode_stored(stored: &[u8], entry: &P4kEntryRef<'_>) -> (r: Result<Vec<u8>>)
    ensures
        decompress::bytes_outcome(r) == decode_extracted(stored@, entry@),
{
    if entry.compression_method == CompressionMethod::Store && !entry.is_encrypted {
        if stored.len() as u64 != entry.uncompressed_size {
            return Err(
                Error::Decompression(
                    String::from_str("stored entry size mismatch: expected ").concat(
                        dec(entry.uncompressed_size).as_str(),
                    ).concat(", got ").concat(dec(stored.len() as u64).as_str()),
                ),
            );
        }
        return Ok(slice_to_vec(stored));
    }
    decode_payload_to_vec(
        stored,
        entry.compression_method,
        entry.uncompressed_size,
        entry.is_encrypted,
    )
}

/// Check a checksum.
pub fn validate_crc32_value(actual: u32, expected: u32) -> (r: Result<()>)
    ensures
        match r {
            Ok(_) => actual == expected,
            Err(e) => actual != expected && e@ == (Fault::CrcMismatch { expected, actual }),
        },
{
    if actual != expected {
        return Err(Error::CrcMismatch { expected, actual });
    }
    Ok(())
}

impl<'a> P4kArchive<'a> {
    /// Read an archive from the bytes of a file with the given name.
    pub fn from_bytes(name: &str, data: &'a [u8]) -> (r: Result<Self>)
        ensures
            match r {
                Ok(archive) => {
                    &&& archive@.is_read()
                    &&& archive@.data == data@
                    &&& archive@.name == name@
                },
                Err(e) => archive_outcome(data@) == Err::<(P4kVersion, DirectoryModel), Fault>(
                    e@,
                ),
            },
    {
        let (version, directory) = parse_entries_dispatched(data)?;
        let v1_payload_placement = detect_v1_payload_placement(
            data,
            version,
            &directory.entries,
            directory.layout.physical_sector_size,
        );
        let archive = P4kArchive {
            data,
            name: String::from_str(name),
            version,
            entries: directory.entries,
            freelist_blocks: directory.freelist_blocks,
            layout: directory.layout,
            v1_payload_placement,
        };
        assert(archive@.directory == directory@);
        Ok(archive)
    }

    /// Size of the file in bytes.
    pub fn file_size(&self) -> (n: u64)
        ensures
            n == self@.data.len(),
    {
        assert(self.data.len() == self.data@.len());
        self.data.len() as u64
    }

    /// Get the archive name.
    pub fn name(&self) -> (r: &str)
        ensures
            r@ == self@.name,
    {
        self.name.as_str()
    }

    /// Detected P4K format version.
    pub fn version(&self) -> (r: P4kVersion)
        ensures
            r == self@.version,
    {
        self.version
    }

    /// Get the number of entries.
    pub fn entry_count(&self) -> (r: usize)
        ensures
            r == self@.directory.entries.len(),
    {
        self.entries.len()
    }

    /// Parsed archive-level layout metadata.
    pub fn layout(&self) -> (r: &P4kArchiveLayout)
        ensures
            r@ == self@.directory.layout,
    {
        &self.layout
    }

    /// Persisted freelist records from the install block.
    pub fn freelist_blocks(&self) -> (r: &[P4kFreelistBlock])
        ensures
            r@ == self@.directory.freelist_blocks,
    {
        self.freelist_blocks.as_slice()
    }

    /// Detected v1 payload placement convention.
    ///
    /// Gives nothing for v2 archives. For v1 archives the value is:
    /// `unknown`, `zip_local_sector`, `zip_local`, or `aligned_record`.
    pub fn v1_payload_placement_kind(&self) -> (r: Option<&'static str>)
        ensures
            match r {
                None => self@.version == P4kVersion::V2,
                Some(s) => self@.version == P4kVersion::V1 && s@ == self@.placement.name_text(),
            },
    {
        match self.version {
            P4kVersion::V2 => None,
            P4kVersion::V1 => Some(self.v1_payload_placement.as_str()),
        }
    }

    fn v1_zip_payload_offset_from_local_header(&self, local_header_offset: u64) -> (r: Option<u64>)
        requires
            self.v1_payload_placement == V1PayloadPlacement::ZipLocal,
        ensures
            forall|name: Seq<char>| r == #[trigger] self@.known_offset(name, local_header_offset),
    {
        let data = self.data;
        assert(data.len() == data@.len());
        let fixed: usize = 4 + LocalFileHeader::SIZE;
        if data.len() < fixed || local_header_offset > (data.len() - fixed) as u64 {
            return None;
        }
        let at: usize = local_header_offset as usize;
        let signature: u32 = get_u32(data, at);
        if signature != LocalFileHeader::SIGNATURE && signature
            != LocalFileHeader::SIGNATURE_EXTENDED {
            return None;
        }
        let header = LocalFileHeader::read(data, at + 4);
        match zip_local_payload_offset(at, &header) {
            Ok(offset) => Some(offset as u64),
            Err(_) => None,
        }
    }

    fn v1_known_payload_offset(&self, name: &str, local_header_offset: u64) -> (r: Option<u64>)
        ensures
            r == self@.known_offset(name@, local_header_offset),
    {
        match self.v1_payload_placement {
            V1PayloadPlacement::Unknown => None,
            V1PayloadPlacement::ZipLocalSector => match self.layout.physical_sector_size {
                Some(size) => local_header_offset.checked_add(size),
                None => None,
            },
            V1PayloadPlacement::ZipLocal => self.v1_zip_payload_offset_from_local_header(
                local_header_offset,
            ),
            V1PayloadPlacement::AlignedRecord => match self.layout.physical_sector_size {
                Some(size) => match v1_local_record_size_from_name_len(
                    name.as_bytes().len() as u64,
                    size,
                ) {
                    Some(record) => local_header_offset.checked_add(record),
                    None => None,
                },
                None => None,
            },
        }
    }

    /// Known compressed-payload offset for an entry, when archive-wide
    /// metadata is sufficient to compute it without per-entry SHA probing.
    pub fn known_payload_offset(&self, entry: &P4kEntryRef<'_>) -> (r: Option<u64>)
        ensures
            r == self@.known_payload_offset(entry@),
    {
        if entry.compressed_size == 0 {
            return Some(0);
        }
        let offset: Option<u64> = match self.version {
            P4kVersion::V2 => Some(entry.local_header_offset),
            P4kVersion::V1 => self.v1_known_payload_offset(entry.name, entry.local_header_offset),
        };
        match offset {
            Some(at) => if payload_range_fits(self.data, at, entry.compressed_size) {
                Some(at)
            } else {
                None
            },
            None => None,
        }
    }

    fn location(&self, entry: &P4kEntryRef<'_>) -> (r: Result<PayloadLocation>)
        ensures
            error::outcome(r) == self@.location(entry@),
            r matches Ok(l) ==> payload::range_fits(self@.data, l.offset, entry.compressed_size),
    {
        payload_location_by_local_header(
            self.data,
            self.layout.physical_sector_size,
            self.v1_payload_placement,
            entry,
        )
    }

    /// Resolve the exact compressed-payload offset for an entry.
    ///
    /// For v2 this validates the direct payload range. For v1 this follows
    /// the same local-header validation and placement selection path used by
    /// reads, including the SHA-256 fallback when archive-wide placement
    /// detection is inconclusive.
    pub fn payload_offset(&self, entry: &P4kEntryRef<'_>) -> (r: Result<u64>)
        ensures
            error::outcome(r) == self@.payload_offset(entry@),
    {
        if entry.compressed_size == 0 {
            return Ok(0);
        }
        match self.version {
            P4kVersion::V2 => {
                self.payload_slice_by_data_offset(entry)?;
                Ok(entry.local_header_offset)
            },
            P4kVersion::V1 => {
                let l = self.location(entry)?;
                Ok(l.offset)
            },
        }
    }

    fn payload_slice_by_data_offset(&self, entry: &P4kEntryRef<'_>) -> (r: Result<&'a [u8]>)
        ensures
            match r {
                Ok(part) => {
                    &&& self@.v2_range_fault(entry@) is None
                    &&& part@ == self@.data.subrange(
                        entry.local_header_offset as int,
                        entry.local_header_offset + entry.compressed_size,
                    )
                },
                Err(e) => self@.v2_range_fault(entry@) == Some(e@),
            },
    {
        slice_range(
            self.data,
            entry.local_header_offset,
            entry.compressed_size,
            "v2 entry data out of bounds",
        )
    }

    /// The stored bytes of an entry, and whether their digest was found to match.
    pub fn stored_payload(&self, entry: &P4kEntryRef<'_>) -> (r: Result<(&'a [u8], bool)>)
        ensures
            match r {
                Ok((part, verified)) => self@.stored(entry@) == Ok::<(Seq<u8>, bool), Fault>(
                    (part@, verified),
                ),
                Err(e) => self@.stored(entry@) == Err::<(Seq<u8>, bool), Fault>(e@),
            },
    {
        match self.version {
            P4kVersion::V2 => {
                let part = self.payload_slice_by_data_offset(entry)?;
                Ok((part, false))
            },
            P4kVersion::V1 => {
                assert(self.data.len() == self.data@.len());
                let l = self.location(entry)?;
                let start: usize = l.offset as usize;
                let end: usize = start + entry.compressed_size as usize;
                Ok((slice_subrange(self.data, start, end), l.sha256_verified))
            },
        }
    }

    /// The entries in directory order.
    pub fn iter(&self) -> (r: Vec<P4kEntryRef<'_>>)
        ensures
            r@.len() == self@.directory.entries.len(),
            forall|i: int|
                0 <= i < r@.len() ==> (#[trigger] r@[i])@ == self@.directory.entries[i],
    {
        let mut out: Vec<P4kEntryRef<'_>> = Vec::new();
        let mut i: usize = 0;
        while i < self.entries.len()
            invariant
                i <= self.entries@.len(),
                out@.len() == i,
                forall|j: int| 0 <= j < i ==> (#[trigger] out@[j])@ == self@.directory.entries[j],
            decreases self.entries@.len() - i,
        {
            out.push(self.entries[i].entry_ref());
            i += 1;
        }
        out
    }

    /// Get entry by index.
    pub fn get(&self, index: usize) -> (r: Option<P4kEntryRef<'_>>)
        ensures
            match r {
                Some(e) => index < self@.directory.entries.len() && e@
                    == self@.directory.entries[index as int],
                None => index >= self@.directory.entries.len(),
            },
    {
        if index < self.entries.len() {
            Some(self.entries[index].entry_ref())
        } else {
            None
        }
    }

    /// Find an entry by name (case-insensitive).
    pub fn find(&self, name: &str) -> (r: Option<P4kEntryRef<'_>>)
        ensures
            match r {
                Some(e) => self@.found_at(name@, 0) is Some && e@
                    == self@.directory.entries[self@.found_at(name@, 0)->Some_0],
                None => self@.found_at(name@, 0) is None,
            },
    {
        let wanted: String = normalize_p4k_path(name, false);
        let mut i: usize = 0;
        while i < self.entries.len()
            invariant
                i <= self.entries@.len(),
                encode_utf8(wanted@) == path::normalized(encode_utf8(name@), false),
                self@.found_at(name@, 0) == self@.found_at(name@, i as int),
            decreases self.entries@.len() - i,
        {
            assert(self@.directory.entries[i as int] == self.entries@[i as int]@);
            if eq_ignore_case(
                self.entries[i].name.as_str().as_bytes(),
                wanted.as_str().as_bytes(),
            ) {
                return Some(self.entries[i].entry_ref());
            }
            i += 1;
        }
        None
    }

    fn read_by_offset(&self, entry: &P4kEntryRef<'_>) -> (r: Result<Vec<u8>>)
        ensures
            decompress::bytes_outcome(r) == self@.read_v1(entry@),
    {
        assert(self.data.len() == self.data@.len());
        let header = read_local_header(self.data, self.layout.physical_sector_size, entry)?;
        let (offset, _) = select_v1_payload_offset(
            self.data,
            entry.local_header_offset as usize,
            &header,
            entry.compressed_size,
            &entry.sha256,
        )?;
        let stored = slice_range(
            self.data,
            offset as u64,
            entry.compressed_size,
            "entry data out of bounds",
        )?;
        decode_payload_to_vec(
            stored,
            entry.compression_method,
            entry.uncompressed_size,
            entry.is_encrypted,
        )
    }

    fn read_by_data_offset(&self, entry: &P4kEntryRef<'_>) -> (r: Result<Vec<u8>>)
        ensures
            decompress::bytes_outcome(r) == self@.read_v2(entry@),
    {
        if entry.uncompressed_size == 0 && entry.compressed_size == 0 {
            let out: Vec<u8> = Vec::new();
            assert(out@ =~= Seq::empty());
            return Ok(out);
        }
        let stored = self.payload_slice_by_data_offset(entry)?;
        decode_payload_to_vec(
            stored,
            entry.compression_method,
            entry.uncompressed_size,
            entry.is_encrypted,
        )
    }

    /// Read entry contents - handles decryption and decompression.
    pub fn read(&self, entry: &P4kEntryRef<'_>) -> (r: Result<Vec<u8>>)
        ensures
            decompress::bytes_outcome(r) == self@.read(entry@),
    {
        match self.version {
            P4kVersion::V1 => self.read_by_offset(entry),
            P4kVersion::V2 => self.read_by_data_offset(entry),
        }
    }

    /// Read entry by index.
    pub fn read_index(&self, index: usize) -> (r: Result<Vec<u8>>)
        ensures
            decompress::bytes_outcome(r) == (if index < self@.directory.entries.len() {
                self@.read(self@.directory.entries[index as int])
            } else {
                Err::<Seq<u8>, Fault>(error::not_found_fault("entry index out of bounds"@))
            }),
    {
        match self.get(index) {
            Some(entry) => self.read(&entry),
            None => Err(not_found("entry index out of bounds")),
        }
    }

    fn extract(&self, entry: &P4kEntryRef<'_>) -> (r: Result<Vec<u8>>)
        ensures
            decompress::bytes_outcome(r) == self@.extracted(entry@),
    {
        let (stored, _) = self.stored_payload(entry)?;
        decode_stored(stored, entry)
    }

    /// Extract entry contents, and append them to `writer`.
    pub fn extract_to_writer(&self, entry: &P4kEntryRef<'_>, writer: &mut Vec<u8>) -> (r: Result<
        (),
    >)
        ensures
            match r {
                Ok(_) => self@.extracted(entry@) is Ok && final(writer)@ == old(writer)@
                    + self@.extracted(entry@)->Ok_0,
                Err(e) => self@.extracted(entry@) == Err::<Seq<u8>, Fault>(e@) && final(writer)@
                    == old(writer)@,
            },
    {
        let out: Vec<u8> = self.extract(entry)?;
        put_bytes(writer, out.as_slice());
        Ok(())
    }

    /// Extract entry contents by index, and append them to `writer`.
    pub fn extract_index_to_writer(&self, index: usize, writer: &mut Vec<u8>) -> (r: Result<()>)
        ensures
            match r {
                Ok(_) => {
                    &&& index < self@.directory.entries.len()
                    &&& self@.extracted(self@.directory.entries[index as int]) is Ok
                    &&& final(writer)@ == old(writer)@ + self@.extracted(
                        self@.directory.entries[index as int],
                    )->Ok_0
                },
                Err(e) => {
                    &&& final(writer)@ == old(writer)@
                    &&& if index < self@.directory.entries.len() {
                        self@.extracted(self@.directory.entries[index as int]) == Err::<
                            Seq<u8>,
                            Fault,
                        >(e@)
                    } else {
                        e@ == error::not_found_fault("entry index out of bounds"@)
                    }
                },
            },
    {
        match self.get(index) {
            Some(entry) => self.extract_to_writer(&entry, writer),
            None => Err(not_found("entry index out of bounds")),
        }
    }

    /// Append the stored bytes of an entry to `writer`.
    ///
    /// These are the compressed, encrypted bytes that the entry's digest
    /// covers.
    pub fn extract_raw_payload_to_writer(
        &self,
        entry: &P4kEntryRef<'_>,
        writer: &mut Vec<u8>,
    ) -> (r: Result<()>)
        ensures
            match r {
                Ok(_) => self@.stored(entry@) is Ok && final(writer)@ == old(writer)@
                    + self@.stored(entry@)->Ok_0.0,
                Err(e) => {
                    &&& self@.stored(entry@) == Err::<(Seq<u8>, bool), Fault>(e@)
                    &&& final(writer)@ == old(writer)@
                },
            },
    {
        let (stored, _) = self.stored_payload(entry)?;
        put_bytes(writer, stored);
        Ok(())
    }

    /// Verify the digest of the stored bytes of an entry.
    pub fn verify_payload_sha256(&self, entry: &P4kEntryRef<'_>) -> (r: Result<()>)
        ensures
            match r {
                Ok(_) => self@.digest_fault(entry@) is None,
                Err(e) => self@.digest_fault(entry@) == Some(e@),
            },
    {
        let (stored, already_verified) = self.stored_payload(entry)?;
        if already_verified {
            return Ok(());
        }
        validate_sha256(stored, entry.sha256)
    }

    /// The checksum of an entry's contents.
    pub fn decoded_crc32(&self, entry: &P4kEntryRef<'_>) -> (r: Result<u32>)
        ensures
            match r {
                Ok(crc) => self@.extracted(entry@) is Ok && crc == crc::crc32c(
                    self@.extracted(entry@)->Ok_0,
                ),
                Err(e) => self@.extracted(entry@) == Err::<Seq<u8>, Fault>(e@),
            },
    {
        let out: Vec<u8> = self.extract(entry)?;
        Ok(hash_bytes(out.as_slice()))
    }

    /// Verify digest and checksum of an entry.
    pub fn verify_entry_integrity(&self, entry: &P4kEntryRef<'_>) -> (r: Result<()>)
        ensures
            match r {
                Ok(_) => self@.integrity_fault(entry@) is None,
                Err(e) => self@.integrity_fault(entry@) == Some(e@),
            },
    {
        self.verify_payload_sha256(entry)?;
        let actual: u32 = self.decoded_crc32(entry)?;
        validate_crc32_value(actual, entry.crc32)
    }

    /// Verify the digest of an entry, with a try at the known payload offset first.
    pub fn verify_payload_sha256_fast(&self, entry: &P4kEntryRef<'_>) -> (r: Result<()>)
        ensures
            match r {
                Ok(_) => self@.fast_digest_fault(entry@) is None,
                Err(e) => self@.fast_digest_fault(entry@) == Some(e@),
            },
    {
        assert(self.data.len() == self.data@.len());
        if entry.compressed_size == 0 {
            let empty: [u8; 0] = [];
            assert(empty@ =~= Seq::empty());
            return validate_sha256(empty.as_slice(), entry.sha256);
        }
        if self.version == P4kVersion::V1 {
            if let Some(offset) = self.v1_known_payload_offset(
                entry.name,
                entry.local_header_offset,
            ) {
                if offset > usize::MAX as u64 {
                    return Err(invalid_input("v1 payload offset overflows usize"));
                }
                if entry.compressed_size > usize::MAX as u64 {
                    return Err(invalid_input("compressed size overflows usize"));
                }
                if payload_range_fits(self.data, offset, entry.compressed_size) {
                    let start: usize = offset as usize;
                    let end: usize = start + entry.compressed_size as usize;
                    let actual = sha256(slice_subrange(self.data, start, end));
                    if same_bytes(actual.as_slice(), entry.sha256.as_slice()) {
                        return Ok(());
                    }
                }
            }
        }
        self.verify_payload_sha256(entry)
    }

    /// Verify digest and checksum of an entry, with a try at the known payload
    /// offset first.
    pub fn verify_entry_integrity_fast(&self, entry: &P4kEntryRef<'_>) -> (r: Result<()>)
        ensures
            match r {
                Ok(_) => self@.fast_integrity_fault(entry@) is None,
                Err(e) => self@.fast_integrity_fault(entry@) == Some(e@),
            },
    {
        self.verify_payload_sha256_fast(entry)?;
        let actual: u32 = self.decoded_crc32(entry)?;
        validate_crc32_value(actual, entry.crc32)
    }

    /// The positions of the entries in physical archive order.
    ///
    /// V1 archives can expose entries in filename order, which is often
    /// different from on-disk payload order. Verification in physical order
    /// is mostly sequential.
    pub fn physical_order(&self) -> (r: Vec<usize>)
        ensures
            r@ == self@.physical_order(),
            order::is_order(self@.sort_offsets(), r@),
    {
        let mut offsets: Vec<u64> = Vec::new();
        let mut i: usize = 0;
        while i < self.entries.len()
            invariant
                i <= self.entries@.len(),
                offsets@ == self@.sort_offsets().take(i as int),
            decreases self.entries@.len() - i,
        {
            let entry = &self.entries[i];
            assert(self@.directory.entries[i as int] == entry@);
            let offset: u64 = match self.version {
                P4kVersion::V1 => match self.v1_known_payload_offset(
                    entry.name.as_str(),
                    entry.local_header_offset,
                ) {
                    Some(offset) => offset,
                    None => entry.local_header_offset,
                },
                P4kVersion::V2 => entry.local_header_offset,
            };
            offsets.push(offset);
            i += 1;
            assert(offsets@ =~= self@.sort_offsets().take(i as int));
        }
        assert(offsets@ =~= self@.sort_offsets());
        sort_positions(offsets.as_slice())
    }
}

/// What is wrong with each entry, by digest.
pub open spec fn digest_faults(a: ArchiveModel) -> Seq<Option<Fault>> {
    Seq::new(a.directory.entries.len(), |i: int| a.digest_fault(a.directory.entries[i]))
}

/// What is wrong with each entry, by digest, with a try at the known offset first.
pub open spec fn fast_digest_faults(a: ArchiveModel) -> Seq<Option<Fault>> {
    Seq::new(a.directory.entries.len(), |i: int| a.fast_digest_fault(a.directory.entries[i]))
}

/// What is wrong with each entry, by digest and checksum.
pub open spec fn fast_integrity_faults(a: ArchiveModel) -> Seq<Option<Fault>> {
    Seq::new(a.directory.entries.len(), |i: int| a.fast_integrity_fault(a.directory.entries[i]))
}

/// The positions from zero on.
pub open spec fn in_sequence(count: nat) -> Seq<usize> {
    Seq::new(count, |i: int| i as usize)
}

impl<'a> P4kArchive<'a> {
    /// Verify the digest of every entry's stored bytes.
    pub fn verify_payloads_sha256(&self) -> (r: Result<()>)
        ensures
            match r {
                Ok(_) => first_fault(
                    digest_faults(self@),
                    in_sequence(self@.directory.entries.len()),
                    0,
                ) is None,
                Err(e) => first_fault(
                    digest_faults(self@),
                    in_sequence(self@.directory.entries.len()),
                    0,
                ) == Some(e@),
            },
    {
        let ghost faults = digest_faults(self@);
        let ghost sequence = in_sequence(self@.directory.entries.len());
        let mut i: usize = 0;
        while i < self.entries.len()
            invariant
                i <= self.entries@.len(),
                faults == digest_faults(self@),
                sequence == in_sequence(self@.directory.entries.len()),
                first_fault(faults, sequence, 0) == first_fault(faults, sequence, i as int),
            decreases self.entries@.len() - i,
        {
            let entry = self.entries[i].entry_ref();
            assert(self@.directory.entries[i as int] == entry@);
            assert(faults[sequence[i as int] as int] == self@.digest_fault(entry@));
            self.verify_payload_sha256(&entry)?;
            i += 1;
        }
        Ok(())
    }

    /// Verify the digest of every entry's stored bytes, in physical archive order.
    pub fn verify_payloads_sha256_physical_order(&self) -> (r: Result<()>)
        ensures
            match r {
                Ok(_) => first_fault(fast_digest_faults(self@), self@.physical_order(), 0) is None,
                Err(e) => first_fault(fast_digest_faults(self@), self@.physical_order(), 0) == Some(
                    e@,
                ),
            },
    {
        let sorted: Vec<usize> = self.physical_order();
        let ghost faults = fast_digest_faults(self@);
        let mut k: usize = 0;
        while k < sorted.len()
            invariant
                k <= sorted@.len(),
                faults == fast_digest_faults(self@),
                sorted@ == self@.physical_order(),
                order::is_order(self@.sort_offsets(), sorted@),
                first_fault(faults, sorted@, 0) == first_fault(faults, sorted@, k as int),
            decreases sorted@.len() - k,
        {
            assert(sorted@[k as int] < self@.sort_offsets().len());
            let entry = self.entries[sorted[k]].entry_ref();
            assert(self@.directory.entries[sorted@[k as int] as int] == entry@);
            self.verify_payload_sha256_fast(&entry)?;
            k += 1;
        }
        Ok(())
    }

    /// Verify digest and checksum of every entry, in physical archive order.
    pub fn verify_integrity(&self) -> (r: Result<()>)
        ensures
            match r {
                Ok(_) => first_fault(
                    fast_integrity_faults(self@),
                    self@.physical_order(),
                    0,
                ) is None,
                Err(e) => first_fault(fast_integrity_faults(self@), self@.physical_order(), 0)
                    == Some(e@),
            },
    {
        let sorted: Vec<usize> = self.physical_order();
        let ghost faults = fast_integrity_faults(self@);
        let mut k: usize = 0;
        while k < sorted.len()
            invariant
                k <= sorted@.len(),
                faults == fast_integrity_faults(self@),
                sorted@ == self@.physical_order(),
                order::is_order(self@.sort_offsets(), sorted@),
                first_fault(faults, sorted@, 0) == first_fault(faults, sorted@, k as int),
            decreases sorted@.len() - k,
        {
            assert(sorted@[k as int] < self@.sort_offsets().len());
            let entry = self.entries[sorted[k]].entry_ref();
            assert(self@.directory.entries[sorted@[k as int] as int] == entry@);
            self.verify_entry_integrity_fast(&entry)?;
            k += 1;
        }
        Ok(())
    }

    /// Get entries in legacy format.
    pub fn entries(&self) -> (r: Vec<P4kEntry>)
        ensures
            r@.len() == self@.directory.entries.len(),
            forall|i: int|
                0 <= i < r@.len() ==> (#[trigger] r@[i])@ == legacy_entry(
                    self@.directory.entries[i],
                ),
    {
        let mut out: Vec<P4kEntry> = Vec::new();
        let mut i: usize = 0;
        while i < self.entries.len()
            invariant
                i <= self.entries@.len(),
                out@.len() == i,
                forall|j: int|
                    0 <= j < i ==> (#[trigger] out@[j])@ == legacy_entry(
                        self@.directory.entries[j],
                    ),
            decreases self.entries@.len() - i,
        {
            let e = &self.entries[i];
            assert(self@.directory.entries[i as int] == e@);
            out.push(
                P4kEntry::new(
                    String::from_str(e.name.as_str()),
                    e.compressed_size,
                    e.uncompressed_size,
                    e.compression_method,
                    e.is_encrypted,
                    e.local_header_offset,
                    e.last_mod_file_date as u32 * 0x1_0000 + e.last_mod_file_time as u32,
                    e.crc32,
                ),
            );
            i += 1;
        }
        out
    }

    /// Read an entry in legacy format.
    pub fn read_entry(&self, entry: &P4kEntry) -> (r: Result<Vec<u8>>)
        ensures
            decompress::bytes_outcome(r) == self@.read(entry_of_legacy(entry@)),
    {
        let signature: [u8; 128] = [0u8; 128];
        let sha256: [u8; 32] = [0u8; 32];
        assert(signature@ =~= bytes::zeros(128));
        assert(sha256@ =~= bytes::zeros(32));
        let stamp: u32 = entry.dos_datetime();
        let e = P4kEntryRef {
            name: entry.name(),
            compressed_size: entry.compressed_size(),
            uncompressed_size: entry.uncompressed_size(),
            compression_method: entry.compression_method(),
            is_encrypted: entry.is_encrypted(),
            local_header_offset: entry.local_header_offset(),
            crc32: entry.crc32(),
            last_mod_file_time: (stamp % 0x1_0000) as u16,
            last_mod_file_date: (stamp / 0x1_0000) as u16,
            signature,
            sha256,
            bytes_already_written: entry.compressed_size(),
        };
        self.read(&e)
    }
}

/// An entry in legacy format.
pub open spec fn legacy_entry(e: EntryModel) -> EntryInfo {
    EntryInfo {
        name: e.name,
        compressed_size: e.compressed_size,
        uncompressed_size: e.uncompressed_size,
        compression_method: e.compression_method,
        is_encrypted: e.is_encrypted,
        local_header_offset: e.local_header_offset,
        dos_datetime: (e.last_mod_file_date * 0x1_0000 + e.last_mod_file_time) as u32,
        crc32: e.crc32,
    }
}

/// What is known of an entry in legacy format: it has no digest.
pub open spec fn entry_of_legacy(e: EntryInfo) -> EntryModel {
    EntryModel {
        name: e.name,
        compressed_size: e.compressed_size,
        uncompressed_size: e.uncompressed_size,
        compression_method: e.compression_method,
        is_encrypted: e.is_encrypted,
        local_header_offset: e.local_header_offset,
        crc32: e.crc32,
        last_mod_file_time: (e.dos_datetime % 0x1_0000) as u16,
        last_mod_file_date: (e.dos_datetime / 0x1_0000) as u16,
        signature: bytes::zeros(128),
        sha256: bytes::zeros(32),
        bytes_already_written: e.compressed_size,
    }
}

/// Raw compressed payload plus metadata, for copying an entry as it is stored.
#[derive(Debug, Clone, Copy)]
pub struct P4kRawEntryRef<'a> {
    pub name: &'a str,
    pub payload_len: u64,
    pub local_header_offset: u64,
    pub payload_offset: u64,
    pub local_record_size: u64,
    pub uncompressed_size: u64,
    pub compression_method: CompressionMethod,
    pub is_encrypted: bool,
    pub crc32: u32,
    pub last_mod_file_time: u16,
    pub last_mod_file_date: u16,
    pub signature: [u8; 128],
    pub sha256: [u8; 32],
    pub bytes_already_written: u64,
}

/// Where the stored bytes of an entry stand, and its metadata.
pub struct RawEntryModel {
    pub entry: EntryModel,
    pub payload_offset: u64,
    pub local_record_size: u64,
}

impl<'a> View for P4kRawEntryRef<'a> {
    type V = RawEntryModel;

    open spec fn view(&self) -> RawEntryModel {
        RawEntryModel {
            entry: EntryModel {
                name: self.name@,
                compressed_size: self.payload_len,
                uncompressed_size: self.uncompressed_size,
                compression_method: self.compression_method,
                is_encrypted: self.is_encrypted,
                local_header_offset: self.local_header_offset,
                crc32: self.crc32,
                last_mod_file_time: self.last_mod_file_time,
                last_mod_file_date: self.last_mod_file_date,
                signature: self.signature@,
                sha256: self.sha256@,
                bytes_already_written: self.bytes_already_written,
            },
            payload_offset: self.payload_offset,
            local_record_size: self.local_record_size,
        }
    }
}

/// The models of a run of raw entries.
pub open spec fn raw_models(entries: Seq<P4kRawEntryRef<'_>>) -> Seq<RawEntryModel> {
    Seq::new(entries.len(), |i: int| entries[i]@)
}

impl ArchiveModel {
    /// An entry with the place of its stored bytes, or what is wrong with it.
    pub open spec fn raw_entry(self, e: EntryModel) -> std::result::Result<RawEntryModel, Fault> {
        match self.version {
            P4kVersion::V2 => match self.v2_range_fault(e) {
                Some(fault) => Err(fault),
                None => Ok(
                    RawEntryModel {
                        entry: e,
                        payload_offset: e.local_header_offset,
                        local_record_size: 0,
                    },
                ),
            },
            P4kVersion::V1 => match self.location(e) {
                Err(fault) => Err(fault),
                Ok(l) => Ok(
                    RawEntryModel {
                        entry: e,
                        payload_offset: l.offset,
                        local_record_size: l.local_record_size,
                    },
                ),
            },
        }
    }

    /// The first `count` entries with the places of their stored bytes, or
    /// what is wrong with the first bad one.
    pub open spec fn raw_entries(self, count: nat) -> std::result::Result<
        Seq<RawEntryModel>,
        Fault,
    >
        decreases count,
    {
        if count == 0 {
            Ok(Seq::empty())
        } else {
            match self.raw_entries((count - 1) as nat) {
                Err(fault) => Err(fault),
                Ok(entries) => match self.raw_entry(self.directory.entries[count - 1]) {
                    Err(fault) => Err(fault),
                    Ok(entry) => Ok(entries.push(entry)),
                },
            }
        }
    }
}

proof fn lemma_raw_entries_fault_stays(a: ArchiveModel, k: nat, count: nat)
    requires
        k <= count,
        a.raw_entries(k) is Err,
    ensures
        a.raw_entries(count) == a.raw_entries(k),
    decreases count - k,
{
    if k < count {
        lemma_raw_entries_fault_stays(a, k, (count - 1) as nat);
    }
}

impl<'a> P4kArchive<'a> {
    /// The entries with the places of their stored bytes.
    pub fn raw_entries(&self) -> (r: Result<Vec<P4kRawEntryRef<'_>>>)
        ensures
            match r {
                Ok(raw) => self@.raw_entries(self@.directory.entries.len()) == Ok::<
                    Seq<RawEntryModel>,
                    Fault,
                >(raw_models(raw@)),
                Err(e) => self@.raw_entries(self@.directory.entries.len()) == Err::<
                    Seq<RawEntryModel>,
                    Fault,
                >(e@),
            },
    {
        let mut raw: Vec<P4kRawEntryRef<'_>> = Vec::new();
        let mut index: usize = 0;
        assert(raw_models(raw@) =~= Seq::empty());
        while index < self.entries.len()
            invariant
                index <= self.entries@.len(),
                self@.raw_entries(index as nat) == Ok::<Seq<RawEntryModel>, Fault>(
                    raw_models(raw@),
                ),
            decreases self.entries@.len() - index,
        {
            let e = self.entries[index].entry_ref();
            proof {
                assert(self@.directory.entries[index as int] == e@);
                if self@.raw_entries((index + 1) as nat) is Err {
                    lemma_raw_entries_fault_stays(
                        self@,
                        (index + 1) as nat,
                        self@.directory.entries.len(),
                    );
                }
            }
            let (payload_offset, local_record_size) = match self.version {
                P4kVersion::V2 => {
                    self.payload_slice_by_data_offset(&e)?;
                    (e.local_header_offset, 0u64)
                },
                P4kVersion::V1 => {
                    let l = self.location(&e)?;
                    (l.offset, l.local_record_size)
                },
            };
            let ghost before = raw@;
            let entry = P4kRawEntryRef {
                name: self.entries[index].name.as_str(),
                payload_len: e.compressed_size,
                local_header_offset: e.local_header_offset,
                payload_offset,
                local_record_size,
                uncompressed_size: e.uncompressed_size,
                compression_method: e.compression_method,
                is_encrypted: e.is_encrypted,
                crc32: e.crc32,
                last_mod_file_time: e.last_mod_file_time,
                last_mod_file_date: e.last_mod_file_date,
                signature: e.signature,
                sha256: e.sha256,
                bytes_already_written: e.bytes_already_written,
            };
            raw.push(entry);
            assert(raw_models(raw@) =~= raw_models(before).push(entry@));
            index += 1;
        }
        Ok(raw)
    }
}

} // verus!
