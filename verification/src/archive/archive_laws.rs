//! What holds of an opened archive as a whole.
use vstd::prelude::*;
use vstd::utf8::*;

use crate::align;
use crate::archive::local_laws;
use crate::archive::model::{DirectoryModel, EntryModel, P4kVersion};
use crate::archive::payload::PayloadLocation;
use crate::archive::placement;
use crate::archive::placement::V1PayloadPlacement;
use crate::archive::reader;
use crate::archive::reader::{ArchiveModel, RawEntryModel};
use crate::archive::v1_install;
use crate::archive::v2_laws;
use crate::bytes;
use crate::crc;
use crate::digest;
use crate::error::Fault;
use crate::order;
use crate::path;
use crate::scan;

verus! {

/// All bytes from `end` on are zero, and the one before is not.
pub open spec fn is_content_end(data: Seq<u8>, end: int) -> bool {
    &&& 0 <= end <= data.len()
    &&& end > 0 ==> data[end - 1] != 0
    &&& forall|j: int| end <= j < data.len() ==> data[j] == 0
}

/// A file opens as a version 2 archive if and only if its contents end in the mark of
/// such an archive, with version 2 before it, and its bytes say what the directory
/// says; as a version 1 archive if and only if its contents do not end in that mark
/// and are read as such an archive.
pub proof fn law_opened(data: Seq<u8>, end: int, d: DirectoryModel)
    requires
        is_content_end(data, end),
        data.len() <= usize::MAX,
    ensures
        reader::archive_outcome(data) == Ok::<(P4kVersion, DirectoryModel), Fault>(
            (P4kVersion::V2, d),
        ) <==> {
            &&& 175 <= end
            &&& bytes::le32(data, end - 4) == 0x696A_694A
            &&& bytes::le16(data, end - 6) == 2
            &&& v2_laws::is_directory_of(data, end, d)
        },
        reader::archive_outcome(data) == Ok::<(P4kVersion, DirectoryModel), Fault>(
            (P4kVersion::V1, d),
        ) <==> {
            &&& 175 <= end ==> bytes::le32(data, end - 4) != 0x696A_694A
            &&& v1_install::v1_outcome(data, end) == Ok::<DirectoryModel, Fault>(d)
        },
{
    scan::lemma_content_end_is(data, end);
    if 175 <= end {
        v2_laws::law_v2_directory(data, end, d);
    }
}

/// The two bytes are equal, or one is the capital letter of the other.
pub open spec fn is_same_letter(a: u8, b: u8) -> bool {
    ||| a == b
    ||| 0x41 <= a <= 0x5A && b == a + 0x20
    ||| 0x41 <= b <= 0x5A && a == b + 0x20
}

/// The bytes are equal but for the case of letters.
pub open spec fn is_same_name(a: Seq<u8>, b: Seq<u8>) -> bool {
    a.len() == b.len() && forall|j: int| 0 <= j < a.len() ==> is_same_letter(#[trigger] a[j], b[j])
}

proof fn lemma_same_name(a: Seq<u8>, b: Seq<u8>)
    ensures
        path::same_but_case(a, b) <==> is_same_name(a, b),
{
    let x = path::lower_bytes(a);
    let y = path::lower_bytes(b);
    if is_same_name(a, b) {
        assert forall|j: int| 0 <= j < x.len() implies x[j] == y[j] by {
            assert(is_same_letter(a[j], b[j]));
        }
        assert(x =~= y);
    }
    if x == y {
        assert(x.len() == a.len() && y.len() == b.len());
        assert forall|j: int| 0 <= j < a.len() implies is_same_letter(#[trigger] a[j], b[j]) by {
            assert(x[j] == y[j]);
        }
    }
}

/// A search gives the first entry whose name is, but for the case of letters, the
/// normal form of the name asked for, and nothing where no entry has such a name.
pub proof fn law_first_of_name(a: ArchiveModel, name: Seq<char>, i: int)
    ensures
        a.found_at(name, 0) == Some(i) <==> {
            let asked = path::normalized(encode_utf8(name), false);
            &&& 0 <= i < a.directory.entries.len()
            &&& is_same_name(encode_utf8(a.directory.entries[i].name), asked)
            &&& forall|j: int|
                0 <= j < i ==> !is_same_name(
                    encode_utf8(#[trigger] a.directory.entries[j].name),
                    asked,
                )
        },
        a.found_at(name, 0) is None <==> forall|j: int|
            0 <= j < a.directory.entries.len() ==> !is_same_name(
                encode_utf8(#[trigger] a.directory.entries[j].name),
                path::normalized(encode_utf8(name), false),
            ),
{
    let asked = path::normalized(encode_utf8(name), false);
    let entries = a.directory.entries;
    reader::law_found(a, name);
    assert forall|e: EntryModel| #[trigger] reader::is_meant_by(e, name) == is_same_name(
        encode_utf8(e.name),
        asked,
    ) by {
        lemma_same_name(encode_utf8(e.name), asked);
    }
    match a.found_at(name, 0) {
        Some(k) => {
            assert(reader::is_meant_by(entries[k], name));
            assert(is_same_name(encode_utf8(entries[k].name), asked));
            assert forall|j: int| 0 <= j < k implies !is_same_name(
                encode_utf8(#[trigger] entries[j].name),
                asked,
            ) by {
                assert(!reader::is_meant_by(entries[j], name));
            }
        },
        None => {
            assert forall|j: int| 0 <= j < entries.len() implies !is_same_name(
                encode_utf8(#[trigger] entries[j].name),
                asked,
            ) by {
                assert(!reader::is_meant_by(entries[j], name));
            }
        },
    }
}

/// The raw form of an entry of a version 2 archive keeps the entry, starts at its
/// offset and has no local record; there is one if and only if the payload lies in
/// the file.
pub proof fn law_raw_entry_v2(a: ArchiveModel, e: EntryModel, r: RawEntryModel)
    requires
        a.version == P4kVersion::V2,
        a.data.len() <= usize::MAX,
    ensures
        a.raw_entry(e) == Ok::<RawEntryModel, Fault>(r) <==> {
            &&& e.local_header_offset + e.compressed_size <= a.data.len()
            &&& r.entry == e
            &&& r.payload_offset == e.local_header_offset
            &&& r.local_record_size == 0
        },
{
}

/// The raw form of an entry of a version 1 archive keeps the entry, starts where its
/// payload is, and its local record reaches from its offset to there.
pub proof fn law_raw_entry_v1(a: ArchiveModel, e: EntryModel, r: RawEntryModel)
    requires
        a.version == P4kVersion::V1,
        a.data.len() + 0x10_0000 <= usize::MAX,
    ensures
        a.raw_entry(e) == Ok::<RawEntryModel, Fault>(r) <==> {
            let place = local_laws::payload_place(a.data, a.sector_size(), a.placement, e);
            &&& local_laws::has_own_header(a.data, a.sector_size(), e)
            &&& place + e.compressed_size <= a.data.len()
            &&& r.entry == e
            &&& r.payload_offset == place
            &&& r.local_record_size == place - e.local_header_offset
        },
{
    if a.location(e) is Ok {
        local_laws::law_payload_location(a, e, a.location(e)->Ok_0);
    } else {
        let none = PayloadLocation { offset: 0, local_record_size: 0, sha256_verified: false };
        local_laws::law_payload_location(a, e, none);
    }
}

/// What the several ways to ask for a payload tell agrees: the offset of the raw form
/// is the payload offset of an entry that is not empty, the stored bytes are those
/// that start there, and an empty payload starts at the start of the file.
pub proof fn law_payload_agrees(a: ArchiveModel, e: EntryModel)
    ensures
        e.compressed_size == 0 ==> a.payload_offset(e) == Ok::<u64, Fault>(0),
        e.compressed_size > 0 ==> (a.payload_offset(e) is Ok <==> a.raw_entry(e) is Ok),
        e.compressed_size > 0 && a.raw_entry(e) is Ok ==> a.payload_offset(e)->Ok_0 == a.raw_entry(
            e,
        )->Ok_0.payload_offset,
        a.stored(e) is Ok <==> a.raw_entry(e) is Ok,
        a.raw_entry(e) is Ok ==> {
            let at = a.raw_entry(e)->Ok_0.payload_offset;
            a.stored(e)->Ok_0.0 == a.data.subrange(at as int, at + e.compressed_size)
        },
{
}

/// The raw forms of the entries of an archive are the raw form of each, in order;
/// there are none where one entry has none.
pub proof fn law_raw_entries(a: ArchiveModel, count: nat)
    ensures
        a.raw_entries(count) is Ok <==> forall|i: int|
            0 <= i < count ==> a.raw_entry(#[trigger] a.directory.entries[i]) is Ok,
        a.raw_entries(count) is Ok ==> {
            let raws = a.raw_entries(count)->Ok_0;
            &&& raws.len() == count
            &&& forall|i: int|
                0 <= i < count ==> a.raw_entry(a.directory.entries[i]) == Ok::<
                    RawEntryModel,
                    Fault,
                >(#[trigger] raws[i])
        },
    decreases count,
{
    if count > 0 {
        let n = (count - 1) as nat;
        law_raw_entries(a, n);
        if a.raw_entries(count) is Ok {
            assert forall|i: int| 0 <= i < count implies a.raw_entry(
                #[trigger] a.directory.entries[i],
            ) is Ok by {
                if i == n {
                    assert(a.raw_entry(a.directory.entries[n as int]) is Ok);
                }
            }
        }
        if forall|i: int|
            0 <= i < count ==> a.raw_entry(#[trigger] a.directory.entries[i]) is Ok {
            assert(a.raw_entry(a.directory.entries[n as int]) is Ok);
        }
    }
}

/// The physical order names every entry once, and no entry stands before one that
/// starts earlier in the file; of entries that start at the same place, the first in
/// the directory stands first.
pub proof fn law_physical_order(a: ArchiveModel)
    requires
        a.directory.entries.len() <= usize::MAX,
    ensures
        a.physical_order().len() == a.directory.entries.len(),
        forall|x: int|
            0 <= x < a.physical_order().len() ==> #[trigger] a.physical_order()[x]
                < a.directory.entries.len(),
        forall|i: usize|
            0 <= i < a.directory.entries.len() ==> #[trigger] a.physical_order().contains(i),
        a.version == P4kVersion::V2 ==> forall|x: int, y: int|
            0 <= x < y < a.physical_order().len() ==> {
                let before = a.directory.entries[#[trigger] a.physical_order()[x] as int];
                let after = a.directory.entries[#[trigger] a.physical_order()[y] as int];
                before.local_header_offset <= after.local_header_offset
            },
        a.version == P4kVersion::V1 ==> forall|x: int, y: int|
            0 <= x < y < a.physical_order().len() ==> {
                let before = a.directory.entries[#[trigger] a.physical_order()[x] as int];
                let after = a.directory.entries[#[trigger] a.physical_order()[y] as int];
                start_of(a, before) <= start_of(a, after)
            },
        forall|x: int, y: int|
            0 <= x < y < a.physical_order().len() ==> {
                let before = #[trigger] a.physical_order()[x];
                let after = #[trigger] a.physical_order()[y];
                a.sort_offset(a.directory.entries[before as int]) == a.sort_offset(
                    a.directory.entries[after as int],
                ) ==> before < after
            },
{
    let keys = a.sort_offsets();
    order::law_order_exists(keys);
    let sorted = a.physical_order();
    assert(order::is_order(keys, sorted));
    assert forall|x: int, y: int| 0 <= x < y < sorted.len() implies {
        &&& keys[#[trigger] sorted[x] as int] <= keys[#[trigger] sorted[y] as int]
        &&& keys[sorted[x] as int] == keys[sorted[y] as int] ==> sorted[x] < sorted[y]
    } by {
        assert(order::precedes(keys, sorted[x] as int, sorted[y] as int));
    }
}

/// Where an entry of a version 1 archive starts: at its payload, where the placement
/// tells where that is, and at its local record otherwise.
pub open spec fn start_of(a: ArchiveModel, e: EntryModel) -> u64 {
    match a.known_offset(e.name, e.local_header_offset) {
        Some(offset) => offset,
        None => e.local_header_offset,
    }
}

/// Where the placement tells where a payload is, and the header of the entry is its
/// own, the payload of an entry that is not empty is there.
pub proof fn law_known_place(a: ArchiveModel, e: EntryModel)
    requires
        a.data.len() + 0x10_0000 <= usize::MAX,
        local_laws::has_own_header(a.data, a.sector_size(), e),
        e.compressed_size > 0,
    ensures
        a.placement == V1PayloadPlacement::Unknown ==> a.known_offset(
            e.name,
            e.local_header_offset,
        ) is None,
        a.placement == V1PayloadPlacement::ZipLocal ==> a.known_offset(
            e.name,
            e.local_header_offset,
        ) is Some,
        a.sector_size() is Some && align::is_pow2(a.sector_size()->Some_0 as nat) && a.placement
            != V1PayloadPlacement::Unknown ==> a.known_offset(
            e.name,
            e.local_header_offset,
        ) is Some,
        a.known_offset(e.name, e.local_header_offset) is Some ==> a.known_offset(
            e.name,
            e.local_header_offset,
        )->Some_0 == local_laws::payload_place(a.data, a.sector_size(), a.placement, e),
{
    let at = e.local_header_offset as int;
    if a.sector_size() is Some {
        let sector = a.sector_size()->Some_0 as int;
        align::lemma_aligned_up(bytes::le16(a.data, at + 26) + sector + 61, sector);
    }
}

/// The bytes right behind the local header of the entry have its digest.
pub open spec fn is_near(data: Seq<u8>, e: EntryModel) -> bool {
    let at = e.local_header_offset as int;
    local_laws::has_local_header(data, at) && local_laws::is_digest_of(
        data,
        at + local_laws::local_span(data, at),
        e,
    )
}

/// The bytes behind the aligned record of the entry have its digest.
pub open spec fn is_far(data: Seq<u8>, e: EntryModel) -> bool {
    let at = e.local_header_offset as int;
    local_laws::has_local_header(data, at) && local_laws::is_digest_of(
        data,
        at + local_laws::local_record_size(data, at),
        e,
    )
}

proof fn lemma_sample(
    data: Seq<u8>,
    e: EntryModel,
    sector: u64,
    preferred: V1PayloadPlacement,
)
    requires
        data.len() + 0x10_0000 <= usize::MAX,
    ensures
        match placement::sample(data, e, sector, preferred) {
            None => true,
            Some(V1PayloadPlacement::Unknown) => false,
            Some(V1PayloadPlacement::AlignedRecord) => is_far(data, e),
            Some(_) => is_near(data, e),
        },
{
    let at = e.local_header_offset as int;
    let span = local_laws::local_span(data, at);
    align::lemma_aligned_up(bytes::le16(data, at + 26) + span + 61, span);
    assert(local_laws::has_digest(e) <==> digest::digest_given(e.sha256));
}

proof fn lemma_walk(
    data: Seq<u8>,
    entries: Seq<EntryModel>,
    sector: u64,
    index: int,
    detected: V1PayloadPlacement,
    sampled: int,
    sampled_bytes: int,
)
    requires
        data.len() + 0x10_0000 <= usize::MAX,
        0 <= index,
    ensures
        ({
            let found = placement::placement_walk(
                data,
                entries,
                sector,
                index,
                detected,
                sampled,
                sampled_bytes,
            );
            ||| found == V1PayloadPlacement::Unknown
            ||| found == detected
            ||| found == V1PayloadPlacement::AlignedRecord && exists|i: int|
                index <= i < entries.len() && is_far(data, #[trigger] entries[i])
            ||| found != V1PayloadPlacement::AlignedRecord && exists|i: int|
                index <= i < entries.len() && is_near(data, #[trigger] entries[i])
        }),
    decreases entries.len() - index,
{
    if index < entries.len() {
        let e = entries[index];
        lemma_sample(data, e, sector, detected);
        match placement::sample(data, e, sector, detected) {
            None => {
                lemma_walk(data, entries, sector, index + 1, detected, sampled, sampled_bytes);
            },
            Some(place) => {
                let merged = if detected == V1PayloadPlacement::Unknown {
                    Some(place)
                } else {
                    placement::merged_placement(detected, place)
                };
                if merged is Some {
                    lemma_walk(
                        data,
                        entries,
                        sector,
                        index + 1,
                        merged->Some_0,
                        sampled + 1,
                        sampled_bytes + e.compressed_size,
                    );
                }
            },
        }
    }
}

/// A placement is found only from payloads that bear it out: an aligned one where the
/// bytes behind the aligned record of some entry have its digest, and one right behind
/// the header where the bytes there do. None is found of a version 2 archive, nor
/// without a sector size.
pub proof fn law_placement_is_borne_out(
    data: Seq<u8>,
    version: P4kVersion,
    entries: Seq<EntryModel>,
    sector: Option<u64>,
)
    requires
        data.len() + 0x10_0000 <= usize::MAX,
    ensures
        version == P4kVersion::V2 || sector is None ==> placement::placement_of(
            data,
            version,
            entries,
            sector,
        ) == V1PayloadPlacement::Unknown,
        placement::placement_of(data, version, entries, sector) == V1PayloadPlacement::AlignedRecord
            ==> exists|i: int| 0 <= i < entries.len() && is_far(data, #[trigger] entries[i]),
        placement::placement_of(data, version, entries, sector) == V1PayloadPlacement::ZipLocal
            || placement::placement_of(data, version, entries, sector)
            == V1PayloadPlacement::ZipLocalSector ==> exists|i: int|
            0 <= i < entries.len() && is_near(data, #[trigger] entries[i]),
{
    if sector is Some {
        lemma_walk(data, entries, sector->Some_0, 0, V1PayloadPlacement::Unknown, 0, 0);
    }
}

/// The entry can tell where payloads are: it is not empty, it is no longer than
/// sixteen mebibytes, a digest is recorded of it, and its local header lies in the
/// file.
pub open spec fn can_tell(data: Seq<u8>, e: EntryModel) -> bool {
    let at = e.local_header_offset as int;
    &&& 0 < e.compressed_size <= 0x100_0000
    &&& local_laws::has_digest(e)
    &&& local_laws::has_local_header(data, at)
    &&& at + local_laws::local_span(data, at) <= data.len()
}

proof fn lemma_sample_told(
    data: Seq<u8>,
    e: EntryModel,
    sector: u64,
    preferred: V1PayloadPlacement,
)
    requires
        data.len() + 0x10_0000 <= usize::MAX,
    ensures
        can_tell(data, e) && !is_near(data, e) && is_far(data, e) ==> placement::sample(
            data,
            e,
            sector,
            preferred,
        ) == Some(V1PayloadPlacement::AlignedRecord),
        can_tell(data, e) && is_near(data, e) && (!is_far(data, e) || local_laws::local_record_size(
            data,
            e.local_header_offset as int,
        ) == local_laws::local_span(data, e.local_header_offset as int)) ==> {
            let found = placement::sample(data, e, sector, preferred);
            if local_laws::local_span(data, e.local_header_offset as int) == sector {
                found == Some(V1PayloadPlacement::ZipLocalSector)
            } else {
                found == Some(V1PayloadPlacement::ZipLocal)
            }
        },
{
    let at = e.local_header_offset as int;
    let span = local_laws::local_span(data, at);
    align::lemma_aligned_up(bytes::le16(data, at + 26) + span + 61, span);
    assert(local_laws::has_digest(e) <==> digest::digest_given(e.sha256));
}

proof fn lemma_walk_far(
    data: Seq<u8>,
    entries: Seq<EntryModel>,
    sector: u64,
    index: int,
    detected: V1PayloadPlacement,
    sampled: int,
    sampled_bytes: int,
)
    requires
        data.len() + 0x10_0000 <= usize::MAX,
        0 <= index,
        forall|i: int| 0 <= i < entries.len() ==> !is_near(data, #[trigger] entries[i]),
        detected == V1PayloadPlacement::AlignedRecord || detected == V1PayloadPlacement::Unknown,
        detected == V1PayloadPlacement::Unknown ==> exists|i: int|
            index <= i < entries.len() && can_tell(data, #[trigger] entries[i]) && is_far(
                data,
                entries[i],
            ),
    ensures
        placement::placement_walk(
            data,
            entries,
            sector,
            index,
            detected,
            sampled,
            sampled_bytes,
        ) == V1PayloadPlacement::AlignedRecord,
    decreases entries.len() - index,
{
    if index < entries.len() {
        let e = entries[index];
        lemma_sample(data, e, sector, detected);
        lemma_sample_told(data, e, sector, detected);
        match placement::sample(data, e, sector, detected) {
            None => {
                lemma_walk_far(data, entries, sector, index + 1, detected, sampled, sampled_bytes);
            },
            Some(place) => {
                assert(place == V1PayloadPlacement::AlignedRecord);
                lemma_walk_far(
                    data,
                    entries,
                    sector,
                    index + 1,
                    place,
                    sampled + 1,
                    sampled_bytes + e.compressed_size,
                );
            },
        }
    }
}

proof fn lemma_walk_near(
    data: Seq<u8>,
    entries: Seq<EntryModel>,
    sector: u64,
    index: int,
    detected: V1PayloadPlacement,
    sampled: int,
    sampled_bytes: int,
)
    requires
        data.len() + 0x10_0000 <= usize::MAX,
        0 <= index,
        forall|i: int|
            0 <= i < entries.len() ==> !is_far(data, #[trigger] entries[i]),
        detected != V1PayloadPlacement::AlignedRecord,
        detected == V1PayloadPlacement::Unknown ==> exists|i: int|
            index <= i < entries.len() && can_tell(data, #[trigger] entries[i]) && is_near(
                data,
                entries[i],
            ),
    ensures
        ({
            let found = placement::placement_walk(
                data,
                entries,
                sector,
                index,
                detected,
                sampled,
                sampled_bytes,
            );
            found == V1PayloadPlacement::ZipLocal || found == V1PayloadPlacement::ZipLocalSector
        }),
    decreases entries.len() - index,
{
    if index < entries.len() {
        let e = entries[index];
        lemma_sample(data, e, sector, detected);
        lemma_sample_told(data, e, sector, detected);
        match placement::sample(data, e, sector, detected) {
            None => {
                lemma_walk_near(data, entries, sector, index + 1, detected, sampled, sampled_bytes);
            },
            Some(place) => {
                let next = if detected == V1PayloadPlacement::Unknown {
                    place
                } else {
                    placement::merged_placement(detected, place)->Some_0
                };
                lemma_walk_near(
                    data,
                    entries,
                    sector,
                    index + 1,
                    next,
                    sampled + 1,
                    sampled_bytes + e.compressed_size,
                );
            },
        }
    }
}

/// Where the digests speak for one placement alone, and an entry can tell, that
/// placement is found.
pub proof fn law_placement_is_found(data: Seq<u8>, entries: Seq<EntryModel>, sector: u64)
    requires
        data.len() + 0x10_0000 <= usize::MAX,
        align::is_pow2(sector as nat),
    ensures
        (forall|i: int| 0 <= i < entries.len() ==> !is_near(data, #[trigger] entries[i])) && (
        exists|i: int|
            0 <= i < entries.len() && can_tell(data, #[trigger] entries[i]) && is_far(
                data,
                entries[i],
            )) ==> placement::placement_of(data, P4kVersion::V1, entries, Some(sector))
            == V1PayloadPlacement::AlignedRecord,
        (forall|i: int| 0 <= i < entries.len() ==> !is_far(data, #[trigger] entries[i])) && (
        exists|i: int|
            0 <= i < entries.len() && can_tell(data, #[trigger] entries[i]) && is_near(
                data,
                entries[i],
            )) ==> {
            let found = placement::placement_of(data, P4kVersion::V1, entries, Some(sector));
            found == V1PayloadPlacement::ZipLocal || found == V1PayloadPlacement::ZipLocalSector
        },
{
    let unknown = V1PayloadPlacement::Unknown;
    if (forall|i: int| 0 <= i < entries.len() ==> !is_near(data, #[trigger] entries[i])) && (exists|
        i: int,
    |
        0 <= i < entries.len() && can_tell(data, #[trigger] entries[i]) && is_far(
            data,
            entries[i],
        )) {
        lemma_walk_far(data, entries, sector, 0, unknown, 0, 0);
    }
    if (forall|i: int| 0 <= i < entries.len() ==> !is_far(data, #[trigger] entries[i])) && (exists|
        i: int,
    |
        0 <= i < entries.len() && can_tell(data, #[trigger] entries[i]) && is_near(
            data,
            entries[i],
        )) {
        lemma_walk_near(data, entries, sector, 0, unknown, 0, 0);
    }
}

/// A file whose contents end in the mark of a version 2 archive with another version
/// before it is refused with that version, and one without any end record for want of
/// it.
pub proof fn law_refused(data: Seq<u8>, end: int)
    requires
        is_content_end(data, end),
    ensures
        175 <= end && bytes::le32(data, end - 4) == 0x696A_694A && bytes::le16(data, end - 6) != 2
            ==> reader::archive_outcome(data) == Err::<(P4kVersion, DirectoryModel), Fault>(
            Fault::UnsupportedVersion(bytes::le16(data, end - 6)),
        ),
        (175 <= end ==> bytes::le32(data, end - 4) != 0x696A_694A) && (forall|j: int|
            0 <= j && j + 4 <= end ==> #[trigger] data.subrange(j, j + 4) != seq![
                0x50u8,
                0x4Bu8,
                5u8,
                6u8,
            ]) ==> reader::archive_outcome(data) == Err::<(P4kVersion, DirectoryModel), Fault>(
            Fault::EocdNotFound,
        ),
{
    scan::lemma_content_end_is(data, end);
    if forall|j: int|
        0 <= j && j + 4 <= end ==> #[trigger] data.subrange(j, j + 4) != seq![
            0x50u8,
            0x4Bu8,
            5u8,
            6u8,
        ] {
        let from = if end > 65557 {
            end - 65557
        } else {
            0
        };
        assert(scan::eocd_signature() =~= seq![0x50u8, 0x4Bu8, 5u8, 6u8]);
        assert forall|j: int| from <= j <= end - 4 implies !scan::occurs_at(
            data,
            scan::eocd_signature(),
            j,
        ) by {
            assert(data.subrange(j, j + 4) != seq![0x50u8, 0x4Bu8, 5u8, 6u8]);
        }
        scan::lemma_last_position(data, scan::eocd_signature(), from, end - 4, None);
    }
}

/// A digest or a checksum that does not match is told with the recorded value and the
/// one that was found.
pub proof fn law_mismatch_is_told(a: ArchiveModel, e: EntryModel)
    ensures
        a.stored(e) is Ok && !a.stored(e)->Ok_0.1 && digest::sha256_of(a.stored(e)->Ok_0.0)
            != e.sha256 ==> a.digest_fault(e) == Some(
            Fault::Sha256Mismatch {
                expected: e.sha256,
                actual: digest::sha256_of(a.stored(e)->Ok_0.0),
            },
        ),
        a.extracted(e) is Ok && crc::crc32c(a.extracted(e)->Ok_0) != e.crc32 ==> a.checksum_fault(e)
            == Some(
            Fault::CrcMismatch { expected: e.crc32, actual: crc::crc32c(a.extracted(e)->Ok_0) },
        ),
{
}


} // verus!
