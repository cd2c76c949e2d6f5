//! What listing a subarchive is good for: what stands in its records comes out.

use vstd::prelude::*;
use vstd::seq::*;
use vstd::seq_lib::*;
use vstd::utf8::*;

use crate::bytes;
use crate::error::Fault;
use crate::subarchive;
use crate::subarchive::{SubArchiveCdrInfo, SubArchiveStatus, SubEntryModel};
use crate::zip::CompressionMethod;

verus! {

/// Whether `cdr` is the record of an entry, as the records of either version are
/// laid out: the times, the name length and the name stand at the same places
/// in both, and behind the name stand the uncompressed size, the compressed
/// size and the payload offset, which counts from behind the record's header.
/// The checksum, the signature and the digest stand elsewhere in each version.
pub open spec fn is_record_of(cdr: Seq<u8>, version: u64, e: SubEntryModel) -> bool {
    let name = encode_utf8(e.name);
    let n = name.len() as int;
    &&& n <= u16::MAX
    &&& cdr.len() == n + 0xf6
    &&& e.compression_method == CompressionMethod::ZstdDeprecated
    &&& e.signature.len() == 128
    &&& e.sha256.len() == 32
    &&& e.offset_to_file_data >= n + 0x3e
    &&& bytes::holds_at(cdr, 0x0c, bytes::u16_bytes(e.last_mod_file_time))
    &&& bytes::holds_at(cdr, 0x0e, bytes::u16_bytes(e.last_mod_file_date))
    &&& bytes::holds_at(cdr, 0x1c, bytes::u16_bytes(n as u16))
    &&& bytes::holds_at(cdr, 0x2e, name)
    &&& bytes::holds_at(cdr, n + 0x32, bytes::u64_bytes(e.uncompressed_size))
    &&& bytes::holds_at(cdr, n + 0x3a, bytes::u64_bytes(e.compressed_size))
    &&& bytes::holds_at(
        cdr,
        n + 0x42,
        bytes::u64_bytes((e.offset_to_file_data - n - 0x3e) as u64),
    )
    &&& if version == 1 {
        &&& bytes::holds_at(cdr, 0x10, bytes::u32_bytes(e.crc32))
        &&& bytes::holds_at(cdr, n + 0x52, e.signature)
        &&& bytes::holds_at(cdr, n + 0xd6, e.sha256)
    } else {
        &&& bytes::holds_at(cdr, n + 0x52, bytes::u32_bytes(e.crc32))
        &&& bytes::holds_at(cdr, n + 0x56, e.sha256)
        &&& bytes::holds_at(cdr, n + 0x76, e.signature)
    }
}

/// The record of an entry, in either version, is listed as that entry: with its
/// name, its sizes, its payload offset, its times, its checksum, its signature
/// and its digest.
pub proof fn law_record_reads_back(cdr: Seq<u8>, version: u64, e: SubEntryModel)
    requires
        version == 1 || version == 2,
        is_record_of(cdr, version, e),
    ensures
        subarchive::entries_from(cdr, version, 0) == Ok::<Seq<SubEntryModel>, Fault>(seq![e]),
{
    let name = encode_utf8(e.name);
    let n = name.len() as int;
    bytes::lemma_le16_of_bytes(cdr, 0x0c, e.last_mod_file_time);
    bytes::lemma_le16_of_bytes(cdr, 0x0e, e.last_mod_file_date);
    bytes::lemma_le16_of_bytes(cdr, 0x1c, n as u16);
    bytes::lemma_le64_of_bytes(cdr, n + 0x32, e.uncompressed_size);
    bytes::lemma_le64_of_bytes(cdr, n + 0x3a, e.compressed_size);
    bytes::lemma_le64_of_bytes(cdr, n + 0x42, (e.offset_to_file_data - n - 0x3e) as u64);
    if version == 1 {
        bytes::lemma_le32_of_bytes(cdr, 0x10, e.crc32);
    } else {
        bytes::lemma_le32_of_bytes(cdr, n + 0x52, e.crc32);
    }
    encode_utf8_valid_utf8(e.name);
    encode_utf8_decode_utf8(e.name);
    assert(subarchive::raw_name(cdr, 0) == name);
    assert(subarchive::record_fault(cdr, 0, version) is None);
    let read = subarchive::record_at(cdr, 0, version);
    assert(read == e);
    assert(subarchive::entries_from(cdr, version, cdr.len() as int) == Ok::<
        Seq<SubEntryModel>,
        Fault,
    >(Seq::empty()));
    assert(seq![e] + Seq::<SubEntryModel>::empty() =~= seq![e]);
}

/// Nothing is listed that the bytes do not hold: where a directory that is not
/// empty is listed, its version is one of the two, its first record lies in it,
/// and what the first entry says stands in that record.
pub proof fn law_listed_as_it_stands(cdr: Seq<u8>, version: u64)
    requires
        cdr.len() > 0,
        subarchive::entries_from(cdr, version, 0) is Ok,
    ensures
        ({
            let listed = subarchive::entries_from(cdr, version, 0)->Ok_0;
            let e = listed[0];
            let n = bytes::le16(cdr, 0x1c) as int;
            &&& version == 1 || version == 2
            &&& listed.len() > 0
            &&& n + 0xf6 <= cdr.len()
            &&& encode_utf8(e.name) == cdr.subrange(0x2e, 0x2e + n)
            &&& e.uncompressed_size == bytes::le64(cdr, n + 0x32)
            &&& e.compressed_size == bytes::le64(cdr, n + 0x3a)
            &&& e.offset_to_file_data == n + bytes::le64(cdr, n + 0x42) + 0x3e
            &&& e.last_mod_file_time == bytes::le16(cdr, 0x0c)
            &&& e.last_mod_file_date == bytes::le16(cdr, 0x0e)
            &&& version == 1 ==> {
                &&& e.crc32 == bytes::le32(cdr, 0x10)
                &&& e.signature == cdr.subrange(n + 0x52, n + 0xd2)
                &&& e.sha256 == cdr.subrange(n + 0xd6, n + 0xf6)
            }
            &&& version == 2 ==> {
                &&& e.crc32 == bytes::le32(cdr, n + 0x52)
                &&& e.sha256 == cdr.subrange(n + 0x56, n + 0x76)
                &&& e.signature == cdr.subrange(n + 0x76, n + 0xf6)
            }
        }),
{
    let next = subarchive::next_record(cdr, 0);
    let rest = subarchive::entries_from(cdr, version, next)->Ok_0;
    let e = subarchive::record_at(cdr, 0, version);
    assert((seq![e] + rest)[0] == e);
    decode_utf8_encode_utf8(subarchive::raw_name(cdr, 0));
}

/// Whether `section` is the section at the end of a subarchive that says `info`.
pub open spec fn is_section_of(section: Seq<u8>, info: SubArchiveCdrInfo) -> bool {
    &&& section.len() >= 0x1062
    &&& section[0x38] == 0x05 && section[0x39] == 0x50
    &&& section[0x40] % 2 == 0
    &&& bytes::holds_at(section, 0x20, bytes::u64_bytes(info.number_of_entries))
    &&& bytes::holds_at(section, 0x28, bytes::u64_bytes(info.cdr_size))
    &&& bytes::holds_at(section, 0x30, bytes::u64_bytes(info.cdr_offset))
    &&& bytes::holds_at(section, 0x3c, bytes::u32_bytes(info.version))
    &&& bytes::holds_at(section, 0xc8, bytes::u64_bytes(info.total_name_bytes_including_nul))
    &&& info.cdr_size_including_eocdr == info.cdr_size + 0x1062
}

/// The section at the end of a subarchive reads back as what it says. A section
/// without the marker is that of no subarchive, and one whose lowest flag is set
/// that of an incomplete one; no other is refused but for its size.
pub proof fn law_section_reads_back(section: Seq<u8>, info: SubArchiveCdrInfo)
    ensures
        is_section_of(section, info) ==> subarchive::info_outcome(section) == Ok::<
            SubArchiveCdrInfo,
            Fault,
        >(info),
        section.len() < 0x1062 || section[0x38] != 0x05 || section[0x39] != 0x50
            <==> subarchive::status_of(section) == SubArchiveStatus::ErrorNotASubArchive,
        section.len() >= 0x1062 && section[0x38] == 0x05 && section[0x39] == 0x50 ==> (
        section[0x40] % 2 == 1 <==> subarchive::status_of(section)
            == SubArchiveStatus::ErrorIncompleteSubArchive),
        subarchive::info_outcome(section) is Ok ==> subarchive::status_of(section)
            == SubArchiveStatus::Successful,
{
    reveal(bytes::le16);
    assert(section.len() > 0x39 ==> (section[0x38] + 0x100 * section[0x39] == 0x5005
        <==> section[0x38] == 0x05 && section[0x39] == 0x50));
    if is_section_of(section, info) {
        bytes::lemma_le64_of_bytes(section, 0x20, info.number_of_entries);
        bytes::lemma_le64_of_bytes(section, 0x28, info.cdr_size);
        bytes::lemma_le64_of_bytes(section, 0x30, info.cdr_offset);
        bytes::lemma_le32_of_bytes(section, 0x3c, info.version);
        bytes::lemma_le64_of_bytes(section, 0xc8, info.total_name_bytes_including_nul);
    }
}

/// A subarchive whose directory stands right in front of its last section, where
/// that section says, and lists as many entries as it says, is parsed as that
/// section and those entries. Nothing else is.
pub proof fn law_subarchive_is_listed(
    front: Seq<u8>,
    cdr: Seq<u8>,
    section: Seq<u8>,
    info: SubArchiveCdrInfo,
    listed: Seq<SubEntryModel>,
)
    requires
        section.len() == 0x1062,
        (front + cdr + section).len() <= usize::MAX,
        subarchive::info_outcome(section) == Ok::<SubArchiveCdrInfo, Fault>(info),
    ensures
        info.cdr_size == cdr.len() ==> (subarchive::subarchive_outcome(front + cdr + section)
            == Ok::<(SubArchiveCdrInfo, Seq<SubEntryModel>), Fault>((info, listed)) <==> {
            &&& info.cdr_offset == front.len()
            &&& info.number_of_entries == listed.len()
            &&& subarchive::entries_from(cdr, info.version as u64, 0) == Ok::<
                Seq<SubEntryModel>,
                Fault,
            >(listed)
        }),
{
    let data = front + cdr + section;
    let at = (front + cdr).len() as int;
    assert(data.skip(at) =~= section);
    if info.cdr_size == cdr.len() && info.cdr_offset == front.len() {
        assert(data.subrange(front.len() as int, at) =~= cdr);
    }
}

/// The entry is what the record at `at` says, in the given version, and the record ends
/// at `next`.
pub open spec fn is_record_at(
    cdr: Seq<u8>,
    version: u64,
    at: int,
    e: SubEntryModel,
    next: int,
) -> bool {
    let n = bytes::le16(cdr, at + 0x1c) as int;
    let b = at + n;
    &&& version == 1 || version == 2
    &&& next == b + 0xf6
    &&& next <= cdr.len()
    &&& encode_utf8(e.name) == cdr.subrange(at + 0x2e, b + 0x2e)
    &&& e.compression_method == CompressionMethod::ZstdDeprecated
    &&& e.last_mod_file_time == bytes::le16(cdr, at + 0x0c)
    &&& e.last_mod_file_date == bytes::le16(cdr, at + 0x0e)
    &&& e.uncompressed_size == bytes::le64(cdr, b + 0x32)
    &&& e.compressed_size == bytes::le64(cdr, b + 0x3a)
    &&& e.offset_to_file_data == n + bytes::le64(cdr, b + 0x42) + 0x3e
    &&& version == 1 ==> {
        &&& e.crc32 == bytes::le32(cdr, at + 0x10)
        &&& e.signature == cdr.subrange(b + 0x52, b + 0xd2)
        &&& e.sha256 == cdr.subrange(b + 0xd6, b + 0xf6)
    }
    &&& version == 2 ==> {
        &&& e.crc32 == bytes::le32(cdr, b + 0x52)
        &&& e.sha256 == cdr.subrange(b + 0x56, b + 0x76)
        &&& e.signature == cdr.subrange(b + 0x76, b + 0xf6)
    }
}

/// The records stand one behind the other from `at` to the end of the directory, and
/// each says what the entry at its place in the list says.
pub open spec fn are_records_from(
    cdr: Seq<u8>,
    version: u64,
    at: int,
    entries: Seq<SubEntryModel>,
    starts: Seq<int>,
) -> bool {
    &&& starts.len() == entries.len() + 1
    &&& starts[0] == at
    &&& starts.last() == cdr.len()
    &&& forall|i: int|
        0 <= i < entries.len() ==> is_record_at(
            cdr,
            version,
            starts[i],
            #[trigger] entries[i],
            starts[i + 1],
        )
}

proof fn lemma_record_at(cdr: Seq<u8>, version: u64, at: int, e: SubEntryModel, next: int)
    requires
        0 <= at,
        cdr.len() <= usize::MAX,
    ensures
        is_record_at(cdr, version, at, e, next) <==> {
            &&& subarchive::record_fault(cdr, at, version) is None
            &&& subarchive::record_at(cdr, at, version) == e
            &&& subarchive::next_record(cdr, at) == next
        },
{
    let raw = subarchive::raw_name(cdr, at);
    encode_utf8_valid_utf8(e.name);
    encode_utf8_decode_utf8(e.name);
    if is_record_at(cdr, version, at, e, next) {
        assert(raw == encode_utf8(e.name));
        assert(subarchive::record_fault(cdr, at, version) is None);
        assert(subarchive::record_at(cdr, at, version) == e);
    }
    if subarchive::record_fault(cdr, at, version) is None {
        decode_utf8_encode_utf8(raw);
    }
}

proof fn lemma_records_from(
    cdr: Seq<u8>,
    version: u64,
    at: int,
    entries: Seq<SubEntryModel>,
    starts: Seq<int>,
)
    requires
        0 <= at <= cdr.len(),
        cdr.len() <= usize::MAX,
        are_records_from(cdr, version, at, entries, starts),
    ensures
        subarchive::entries_from(cdr, version, at) == Ok::<Seq<SubEntryModel>, Fault>(entries),
    decreases entries.len(),
{
    if entries.len() == 0 {
        assert(entries =~= Seq::empty());
    } else {
        let rest = entries.drop_first();
        let later = starts.drop_first();
        assert(is_record_at(cdr, version, starts[0], entries[0], starts[1]));
        lemma_record_at(cdr, version, at, entries[0], starts[1]);
        assert forall|i: int| 0 <= i < rest.len() implies is_record_at(
            cdr,
            version,
            later[i],
            #[trigger] rest[i],
            later[i + 1],
        ) by {
            assert(is_record_at(cdr, version, starts[i + 1], entries[i + 1], starts[i + 2]));
        }
        lemma_records_from(cdr, version, starts[1], rest, later);
        assert(entries =~= seq![entries[0]] + rest);
    }
}

proof fn lemma_starts_from(
    cdr: Seq<u8>,
    version: u64,
    at: int,
    entries: Seq<SubEntryModel>,
) -> (starts: Seq<int>)
    requires
        0 <= at <= cdr.len(),
        cdr.len() <= usize::MAX,
        subarchive::entries_from(cdr, version, at) == Ok::<Seq<SubEntryModel>, Fault>(entries),
    ensures
        are_records_from(cdr, version, at, entries, starts),
    decreases cdr.len() - at,
{
    if at >= cdr.len() {
        seq![at]
    } else {
        let next = subarchive::next_record(cdr, at);
        let e = subarchive::record_at(cdr, at, version);
        let rest = subarchive::entries_from(cdr, version, next)->Ok_0;
        lemma_record_at(cdr, version, at, e, next);
        let later = lemma_starts_from(cdr, version, next, rest);
        let starts = seq![at] + later;
        assert forall|i: int| 0 <= i < entries.len() implies is_record_at(
            cdr,
            version,
            starts[i],
            #[trigger] entries[i],
            starts[i + 1],
        ) by {
            if i > 0 {
                assert(entries[i] == rest[i - 1]);
                assert(is_record_at(cdr, version, later[i - 1], rest[i - 1], later[i]));
            }
        }
        assert(starts.last() == later.last());
        starts
    }
}

/// A directory is listed as the entries whose records stand in it, one behind the
/// other from its start to its end, and as nothing else.
pub proof fn law_listed_in_order(cdr: Seq<u8>, version: u64, entries: Seq<SubEntryModel>)
    requires
        cdr.len() <= usize::MAX,
    ensures
        subarchive::entries_from(cdr, version, 0) == Ok::<Seq<SubEntryModel>, Fault>(entries)
            <==> exists|starts: Seq<int>| #[trigger]
            are_records_from(cdr, version, 0, entries, starts),
{
    if subarchive::entries_from(cdr, version, 0) == Ok::<Seq<SubEntryModel>, Fault>(entries) {
        let starts = lemma_starts_from(cdr, version, 0, entries);
        assert(are_records_from(cdr, version, 0, entries, starts));
    }
    if exists|starts: Seq<int>| #[trigger] are_records_from(cdr, version, 0, entries, starts) {
        let starts = choose|starts: Seq<int>| #[trigger]
            are_records_from(cdr, version, 0, entries, starts);
        lemma_records_from(cdr, version, 0, entries, starts);
    }
}

} // verus!
