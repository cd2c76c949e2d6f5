//! Where the payloads of a new v1 archive are found.

use vstd::prelude::*;
use vstd::seq::*;
use vstd::seq_lib::*;

use crate::align;
use crate::archive::local;
use crate::archive::model::EntryModel;
use crate::archive::placement;
use crate::archive::placement::V1PayloadPlacement;
use crate::archive::reader::ArchiveModel;
use crate::bytes;
use crate::writer::builder::BuilderModel;
use crate::writer::directory_v1;
use crate::writer::fresh;
use crate::writer::image_v1;
use crate::writer::read_back_v1;
use crate::writer::read_v1;
use crate::writer::round_trip_v1;
use crate::writer::staged::StagedModel;

verus! {

/// Whether a payload is more than a run of zeroes.
pub open spec fn has_contents(payload: Seq<u8>) -> bool {
    exists|i: int| 0 <= i < payload.len() && payload[i] != 0
}

/// Bytes that are the same when they are moved up over zeroes are all zero.
proof fn lemma_shifted(data: Seq<u8>, at: int, k: int, payload: Seq<u8>, i: int)
    requires
        0 <= at,
        0 < k,
        bytes::zero_between(data, at, at + k),
        bytes::holds_at(data, at + k, payload),
        data.subrange(at, at + payload.len()) == payload,
        0 <= i < payload.len(),
    ensures
        payload[i] == 0,
    decreases i,
{
    assert(data.subrange(at, at + payload.len())[i] == data[at + i]);
    if i >= k {
        lemma_shifted(data, at, k, payload, i - k);
        assert(data.subrange(at + k, at + k + payload.len())[i - k] == data[at + i]);
    }
}

proof fn lemma_sampled(
    data: Seq<u8>,
    at: int,
    e: StagedModel,
    sector: u64,
    found: V1PayloadPlacement,
)
    requires
        0 < sector <= u16::MAX,
        0 <= at,
        align::is_pow2(sector as nat),
        image_v1::record_fault(e, sector) is None,
        e.is_sound(),
        e.payload.len() > 0 ==> has_contents(e.payload),
        read_v1::record_stands(data, at, e, sector as int),
        data.len() <= isize::MAX,
        !read_v1::digests_collide(
            e.payload,
            read_v1::behind_header(data, directory_v1::v1_entry(e, at), sector as int),
        ),
    ensures
        ({
            let sample = placement::sample(data, directory_v1::v1_entry(e, at), sector, found);
            sample is Some ==> sample == Some(V1PayloadPlacement::AlignedRecord)
        }),
{
    let entry = directory_v1::v1_entry(e, at);
    let header = image_v1::local_header(e, sector as int);
    let k = image_v1::record_len(e, sector as int) - sector;
    assert(isize::MAX < usize::MAX);
    image_v1::lemma_local_record_length(e, at, sector);
    align::lemma_aligned_up(image_v1::name_len(e) + sector + 0x3D, sector as int);
    assert(local::header_at(data, at) == header);
    assert(local::header_span(header) == sector);
    if e.payload.len() > 0 {
        let i = choose|i: int| 0 <= i < e.payload.len() && e.payload[i] != 0;
        let behind = read_v1::behind_header(data, entry, sector as int);
        if behind == e.payload {
            lemma_shifted(data, at + sector, k, e.payload, i);
        }
    }
}

proof fn lemma_walked(
    data: Seq<u8>,
    entries: Seq<EntryModel>,
    sector: u64,
    index: int,
    detected: V1PayloadPlacement,
    sampled: int,
    sampled_bytes: int,
)
    requires
        0 <= index,
        detected == V1PayloadPlacement::AlignedRecord || detected == V1PayloadPlacement::Unknown,
        forall|i: int, found: V1PayloadPlacement|
            0 <= i < entries.len() && (#[trigger] placement::sample(
                data,
                entries[i],
                sector,
                found,
            )) is Some ==> placement::sample(data, entries[i], sector, found) == Some(
                V1PayloadPlacement::AlignedRecord,
            ),
    ensures
        ({
            let found = placement::placement_walk(
                data,
                entries,
                sector,
                index,
                detected,
                sampled,
                sampled_bytes,
            );
            found == V1PayloadPlacement::AlignedRecord || found == V1PayloadPlacement::Unknown
        }),
    decreases entries.len() - index,
{
    if index < entries.len() {
        let e = entries[index];
        match placement::sample(data, e, sector, detected) {
            None => {
                lemma_walked(data, entries, sector, index + 1, detected, sampled, sampled_bytes);
            },
            Some(placement) => {
                lemma_walked(
                    data,
                    entries,
                    sector,
                    index + 1,
                    V1PayloadPlacement::AlignedRecord,
                    sampled + 1,
                    sampled_bytes + e.compressed_size,
                );
            },
        }
    }
}

/// Whether what stands behind the header sector of some entry is another run
/// of bytes than its payload, with the same digest.
pub open spec fn some_digests_collide(model: BuilderModel, before: Seq<u8>) -> bool {
    let staged = fresh::fresh_entries(model.entries);
    let records = round_trip_v1::written_v1_entries(model, before.len() as int);
    exists|j: int|
        0 <= j < staged.len() && read_v1::digests_collide(
            (#[trigger] staged[j]).payload,
            read_v1::behind_header(
                round_trip_v1::v1_file(model, before),
                records[j],
                model.options.sector_size as int,
            ),
        )
}

proof fn lemma_fresh_sound(model: BuilderModel, i: int)
    requires
        model.is_sound(),
        model.entries.len() <= usize::MAX,
        0 <= i < model.entries.len(),
        forall|j: int|
            0 <= j < model.entries.len() && (#[trigger] model.entries[j]).payload.len() > 0
                ==> has_contents(model.entries[j].payload),
    ensures
        fresh::fresh_entries(model.entries)[i].is_sound(),
        fresh::fresh_entries(model.entries)[i].payload.len() > 0 ==> has_contents(
            fresh::fresh_entries(model.entries)[i].payload,
        ),
{
    let sorted = fresh::fresh_order_of(model.entries);
    fresh::law_fresh_order_exists(model.entries);
    assert(sorted[i] < model.entries.len());
    assert(model.entries[sorted[i] as int].is_sound());
}

/// An archive that is opened from a file to which a v1 archive was written
/// finds the payloads behind the whole local records, if it finds where they
/// are, and extracting an entry gives what the staged payload decodes to.
///
/// Every payload must be empty or hold more than zeroes: zeroes stand behind
/// the header sectors too, and are taken for such a payload. And room is left
/// for two runs of bytes with the same digest.
pub proof fn law_v1_write_then_open_and_extract(
    model: BuilderModel,
    before: Seq<u8>,
    archive: ArchiveModel,
    i: int,
)
    requires
        model.entries.len() <= usize::MAX,
        round_trip_v1::distinct_names(model.entries),
        before.len() as int % model.options.sector_size as int == 0,
        image_v1::v1_image_outcome(model, before.len() as int) is Ok,
        round_trip_v1::v1_file(model, before).len() <= isize::MAX,
        !read_back_v1::looks_like_locator(
            round_trip_v1::written_zip64_offset(model, before.len() as int) as u64,
        ),
        forall|j: int|
            0 <= j < model.entries.len() && (#[trigger] model.entries[j]).payload.len() > 0
                ==> has_contents(model.entries[j].payload),
        0 <= i < model.entries.len(),
    ensures
        model.is_sound() && archive.data == round_trip_v1::v1_file(model, before)
            && archive.is_read() ==> {
            let staged = fresh::fresh_entries(model.entries)[i];
            let e = archive.directory.entries[i];
            ||| some_digests_collide(model, before)
            ||| {
                &&& archive.placement == V1PayloadPlacement::AlignedRecord || archive.placement
                    == V1PayloadPlacement::Unknown
                &&& e.name == staged.name
                &&& archive.extracted(e) == staged.decoded()
                &&& archive.integrity_fault(e) is None
            }
        },
{
    if model.is_sound() && archive.data == round_trip_v1::v1_file(model, before)
        && archive.is_read() && !some_digests_collide(model, before) {
        let start = before.len() as int;
        let data = archive.data;
        let sector = model.options.sector_size;
        let staged = fresh::fresh_entries(model.entries);
        let records = round_trip_v1::written_v1_entries(model, start);
        assert forall|j: int| 0 <= j < model.entries.len() implies (
        #[trigger] model.entries[j]).is_formed() by {
            assert(model.entries[j].is_sound());
        }
        round_trip_v1::law_v1_write_then_open(model, before);
        assert forall|j: int, found: V1PayloadPlacement|
            0 <= j < records.len() && (#[trigger] placement::sample(
                data,
                records[j],
                sector,
                found,
            )) is Some implies placement::sample(data, records[j], sector, found) == Some(
            V1PayloadPlacement::AlignedRecord,
        ) by {
            let at = image_v1::record_at(staged, start, sector as int, j);
            lemma_fresh_sound(model, j);
            read_v1::lemma_written_record(model, before, j);
            assert(records[j] == directory_v1::v1_entry(staged[j], at));
            assert(staged[j].is_sound());
            lemma_sampled(data, at, staged[j], sector, found);
        }
        lemma_walked(data, records, sector, 0, V1PayloadPlacement::Unknown, 0, 0);
        lemma_fresh_sound(model, i);
        read_v1::law_v1_write_then_extract(model, before, archive, i);
        assert(staged[i].is_sound());
    }
}

} // verus!
