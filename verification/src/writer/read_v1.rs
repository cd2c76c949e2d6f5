//! What is read from a new v1 archive.

use vstd::prelude::*;
use vstd::seq::*;
use vstd::seq_lib::*;
use vstd::utf8::*;

use crate::align;
use crate::archive::local;
use crate::archive::model::{EntryModel, P4kVersion};
use crate::archive::payload;
use crate::archive::placement;
use crate::archive::placement::V1PayloadPlacement;
use crate::archive::reader::ArchiveModel;
use crate::archive::v1_install;
use crate::bytes;
use crate::digest;
use crate::error::Fault;
use crate::writer::builder::BuilderModel;
use crate::writer::directory_v1;
use crate::writer::fresh;
use crate::writer::image_v1;
use crate::writer::read_back_v1;
use crate::writer::round_trip_v1;
use crate::writer::staged::StagedModel;
use crate::zip::central_dir::extra_field;
use crate::zip::{CompressionMethod, LocalFileHeader, P4kZip64ExtraField};

verus! {

proof fn lemma_body_at(
    entries: Seq<StagedModel>,
    start: int,
    sector: u64,
    n: int,
    k: int,
    i: int,
)
    requires
        0 < sector <= u16::MAX,
        0 <= start,
        start % (sector as int) == 0,
        0 <= i < k <= n,
        image_v1::body_fault(entries, start, sector, n) is None,
    ensures
        bytes::holds_at(
            image_v1::body_bytes(entries, start, sector as int, k),
            image_v1::record_at(entries, start, sector as int, i) - start,
            image_v1::padded_record_bytes(
                entries[i],
                image_v1::record_at(entries, start, sector as int, i),
                image_v1::record_at(entries, start, sector as int, i + 1),
                sector as int,
            ),
        ),
    decreases k,
{
    let at = image_v1::record_at(entries, start, sector as int, i);
    let from = at - start;
    let part = image_v1::padded_record_bytes(
        entries[i],
        at,
        image_v1::record_at(entries, start, sector as int, i + 1),
        sector as int,
    );
    let before = image_v1::body_bytes(entries, start, sector as int, k - 1);
    let all = image_v1::body_bytes(entries, start, sector as int, k);
    read_back_v1::lemma_record_positions(entries, start, sector, k - 1, n);
    if i < k - 1 {
        lemma_body_at(entries, start, sector, n, k - 1, i);
        assert(all.subrange(from, from + part.len()) =~= before.subrange(
            from,
            from + part.len(),
        ));
    } else {
        assert(all.subrange(from, from + part.len()) =~= part);
    }
}

/// What the local record and the payload of an entry are in the file.
pub open spec fn record_stands(data: Seq<u8>, at: int, e: StagedModel, sector: int) -> bool {
    let extra = at + 30 + image_v1::name_len(e);
    &&& bytes::le32(data, at) == LocalFileHeader::SIGNATURE
    &&& LocalFileHeader::at(data, at + 4) == image_v1::local_header(e, sector)
    &&& bytes::holds_at(data, at + 30, encode_utf8(e.name))
    &&& P4kZip64ExtraField::at(data, extra) == image_v1::zip64_field(e, at)
    &&& bytes::le16(data, extra + 32) == extra_field::FILLER
    &&& bytes::le16(data, extra + 34) == (image_v1::extra_len(e, sector) - 32) as u16
    &&& bytes::zero_between(data, at + sector, at + image_v1::record_len(e, sector))
    &&& bytes::holds_at(data, at + image_v1::record_len(e, sector), e.payload)
    &&& at + sector <= data.len()
}

pub proof fn lemma_local_record_stands(data: Seq<u8>, at: int, e: StagedModel, sector: u64)
    requires
        0 < sector <= u16::MAX,
        image_v1::record_fault(e, sector) is None,
        bytes::holds_at(data, at, image_v1::local_record_bytes(e, at, sector as int)),
        bytes::holds_at(data, at + image_v1::record_len(e, sector as int), e.payload),
    ensures
        record_stands(data, at, e, sector as int),
{
    let name = encode_utf8(e.name);
    let header = image_v1::local_header(e, sector as int);
    let zip64 = image_v1::zip64_field(e, at);
    let filler = image_v1::extra_len(e, sector as int) - P4kZip64ExtraField::SIZE;
    let extra = at + 30 + name.len();
    let a = bytes::u32_bytes(LocalFileHeader::SIGNATURE);
    let d = bytes::u16_bytes(extra_field::FILLER);
    let f = bytes::u16_bytes(filler as u16);
    let g = bytes::zeros(
        (filler - 4 + image_v1::record_len(e, sector as int) - sector) as nat,
    );
    image_v1::lemma_local_record_length(e, at, sector);
    header.lemma_length();
    zip64.lemma_length();
    bytes::lemma_number_lengths(filler as u16, LocalFileHeader::SIGNATURE, 0);
    bytes::lemma_number_lengths(extra_field::FILLER, 0, 0);
    bytes::lemma_holds_split(data, at, a + header.bytes() + name + zip64.bytes() + d + f, g);
    bytes::lemma_holds_split(data, at, a + header.bytes() + name + zip64.bytes() + d, f);
    bytes::lemma_holds_split(data, at, a + header.bytes() + name + zip64.bytes(), d);
    bytes::lemma_holds_split(data, at, a + header.bytes() + name, zip64.bytes());
    bytes::lemma_holds_split(data, at, a + header.bytes(), name);
    bytes::lemma_holds_split(data, at, a, header.bytes());
    bytes::lemma_le32_of_bytes(data, at, LocalFileHeader::SIGNATURE);
    header.law_read_back(data, at + 4);
    zip64.law_read_back(data, extra as int);
    bytes::lemma_le16_of_bytes(data, extra + 32, extra_field::FILLER);
    bytes::lemma_le16_of_bytes(data, extra + 34, filler as u16);
    assert forall|i: int|
        at + sector <= i < at + image_v1::record_len(e, sector as int) implies data[i] == 0 by {
        assert(data.subrange(extra + 36, extra + 36 + g.len())[i - extra - 36] == data[i]);
    }
}

proof fn lemma_header_reads_back(data: Seq<u8>, at: int, e: StagedModel, sector: u64)
    requires
        0 < sector <= u16::MAX,
        0 <= at,
        image_v1::record_fault(e, sector) is None,
        e.is_formed(),
        record_stands(data, at, e, sector as int),
        data.len() <= isize::MAX,
    ensures
        local::header_fault(data, Some(sector), directory_v1::v1_entry(e, at)) is None,
{
    let entry = directory_v1::v1_entry(e, at);
    let header = image_v1::local_header(e, sector as int);
    let name = encode_utf8(e.name);
    assert(isize::MAX < usize::MAX);
    directory_v1::lemma_name_kept(e);
    assert(data.subrange(at + 30, at + 30 + name.len()) == name);
    assert(local::header_at(data, at) == header);
    assert(local::header_span(header) == sector);
    assert(local::bounds_fault(data, at as u64) is None);
    assert(local::metadata_fault(header, e.crc32) is None);
    assert(local::name_fault(data, at, header, Some(sector), e.name) is None);
    assert(local::extra_fault(
        data,
        at + 30 + name.len(),
        header.extra_field_length as int,
        entry,
    ) is None);
}

/// Two different byte runs with the same digest.
pub open spec fn digests_collide(a: Seq<u8>, b: Seq<u8>) -> bool {
    a != b && digest::sha256_of(a) == digest::sha256_of(b)
}

/// The bytes that directly follow the local header sector of an entry, as many
/// as its payload has.
pub open spec fn behind_header(data: Seq<u8>, e: EntryModel, sector: int) -> Seq<u8> {
    data.subrange(
        e.local_header_offset + sector,
        e.local_header_offset + sector + e.compressed_size,
    )
}

proof fn lemma_selected(data: Seq<u8>, at: int, e: StagedModel, sector: u64)
    requires
        0 < sector <= u16::MAX,
        0 <= at,
        align::is_pow2(sector as nat),
        image_v1::record_fault(e, sector) is None,
        e.is_formed(),
        record_stands(data, at, e, sector as int),
        data.len() <= isize::MAX,
    ensures
        ({
            let entry = directory_v1::v1_entry(e, at);
            let header = local::header_at(data, at);
            let found = payload::selected(data, at, header, entry.compressed_size, entry.sha256);
            let payload_at = at + image_v1::record_len(e, sector as int);
            &&& found is Ok
            &&& local::payload_outcome(at, header) == Ok::<usize, Fault>(payload_at as usize)
            &&& found->Ok_0.0 == payload_at || (found->Ok_0.0 == at + sector && found->Ok_0.1
                && placement::digest_matches(
                data,
                at + sector,
                entry.compressed_size,
                entry.sha256,
            ))
            &&& found->Ok_0.1 ==> placement::digest_matches(
                data,
                found->Ok_0.0 as int,
                entry.compressed_size,
                entry.sha256,
            )
        }),
{
    let header = image_v1::local_header(e, sector as int);
    assert(isize::MAX < usize::MAX);
    assert(local::header_at(data, at) == header);
    assert(local::header_span(header) == sector);
    assert(local::fills_sector(header));
}

proof fn lemma_located(
    data: Seq<u8>,
    at: int,
    e: StagedModel,
    sector: u64,
    found: V1PayloadPlacement,
)
    requires
        0 < sector <= u16::MAX,
        0 <= at,
        align::is_pow2(sector as nat),
        image_v1::record_fault(e, sector) is None,
        e.is_formed(),
        record_stands(data, at, e, sector as int),
        data.len() <= isize::MAX,
        found == V1PayloadPlacement::AlignedRecord || found == V1PayloadPlacement::Unknown,
    ensures
        ({
            let entry = directory_v1::v1_entry(e, at);
            let location = payload::location_outcome(data, Some(sector), found, entry);
            let payload_at = at + image_v1::record_len(e, sector as int);
            &&& location is Ok
            &&& location->Ok_0.offset == payload_at || (location->Ok_0.offset == at + sector
                && placement::digest_matches(
                data,
                at + sector,
                entry.compressed_size,
                entry.sha256,
            ))
            &&& location->Ok_0.sha256_verified ==> placement::digest_matches(
                data,
                location->Ok_0.offset as int,
                entry.compressed_size,
                entry.sha256,
            )
        }),
{
    let entry = directory_v1::v1_entry(e, at);
    let header = image_v1::local_header(e, sector as int);
    let payload_at = at + image_v1::record_len(e, sector as int);
    assert(isize::MAX < usize::MAX);
    lemma_header_reads_back(data, at, e, sector);
    lemma_selected(data, at, e, sector);
    image_v1::lemma_local_record_length(e, at, sector);
    assert(local::header_at(data, at) == header);
    assert(local::header_span(header) == sector);
    assert(payload::located(data, entry, payload_at as usize, false) is Ok);
    if found == V1PayloadPlacement::AlignedRecord {
        assert(payload::preferred(data, Some(sector), found, entry) == Some(payload_at as usize));
    }
}

/// The local record and the payload of every entry stand in the file.
pub proof fn lemma_written_record(model: BuilderModel, before: Seq<u8>, i: int)
    requires
        model.is_formed(),
        model.entries.len() <= usize::MAX,
        before.len() as int % model.options.sector_size as int == 0,
        image_v1::v1_image_outcome(model, before.len() as int) is Ok,
        round_trip_v1::v1_file(model, before).len() <= isize::MAX,
        0 <= i < model.entries.len(),
    ensures
        ({
            let staged = fresh::fresh_entries(model.entries);
            let sector = model.options.sector_size;
            let file = round_trip_v1::v1_file(model, before);
            let at = image_v1::record_at(staged, before.len() as int, sector as int, i);
            &&& 0 <= at
            &&& staged[i].is_formed()
            &&& image_v1::record_fault(staged[i], sector) is None
            &&& record_stands(file, at, staged[i], sector as int)
        }),
{
    let staged = fresh::fresh_entries(model.entries);
    let sector = model.options.sector_size;
    let n = staged.len() as int;
    let start = before.len() as int;
    let file = round_trip_v1::v1_file(model, before);
    let e = staged[i];
    let at = image_v1::record_at(staged, start, sector as int, i);
    let next = image_v1::record_at(staged, start, sector as int, i + 1);
    let body = image_v1::body_bytes(staged, start, sector as int, n);
    let part = image_v1::padded_record_bytes(e, at, next, sector as int);
    let record = image_v1::local_record_bytes(e, at, sector as int);
    let padding = bytes::zeros(
        (next - at - image_v1::record_len(e, sector as int) - e.payload.len()) as nat,
    );
    fresh::law_fresh_order_exists(model.entries);
    let sorted = fresh::fresh_order_of(model.entries);
    assert(sorted[i] < model.entries.len());
    assert(model.entries[sorted[i] as int].is_formed());
    image_v1::lemma_body_good(staged, start, sector, i, n);
    read_back_v1::lemma_image_stands(before, staged, sector);
    read_back_v1::lemma_record_positions(staged, start, sector, i, n);
    lemma_body_at(staged, start, sector, n, n, i);
    assert(body == file.subrange(start, start + body.len()));
    assert(file.subrange(at, at + part.len()) =~= body.subrange(
        at - start,
        at - start + part.len(),
    ));
    image_v1::lemma_local_record_length(e, at, sector);
    bytes::lemma_holds_split(file, at, record + e.payload, padding);
    bytes::lemma_holds_split(file, at, record, e.payload);
    lemma_local_record_stands(file, at, e, sector);
}

/// What an entry leaves free, should its name occur before, is known and ends
/// within the range of offsets.
pub proof fn lemma_freed_range(model: BuilderModel, before: Seq<u8>, i: int)
    requires
        model.is_formed(),
        model.entries.len() <= usize::MAX,
        before.len() as int % model.options.sector_size as int == 0,
        image_v1::v1_image_outcome(model, before.len() as int) is Ok,
        round_trip_v1::v1_file(model, before).len() <= isize::MAX,
        0 <= i < model.entries.len(),
    ensures
        ({
            let sector = model.options.sector_size;
            let file = round_trip_v1::v1_file(model, before);
            let e = round_trip_v1::written_v1_entries(model, before.len() as int)[i];
            let freed = v1_install::freed_range(file, sector, e);
            &&& freed is Ok
            &&& freed->Ok_0.offset + freed->Ok_0.size <= u64::MAX
        }),
{
    let staged = fresh::fresh_entries(model.entries)[i];
    let sector = model.options.sector_size;
    let file = round_trip_v1::v1_file(model, before);
    let at = image_v1::record_at(
        fresh::fresh_entries(model.entries),
        before.len() as int,
        sector as int,
        i,
    );
    let header = image_v1::local_header(staged, sector as int);
    lemma_written_record(model, before, i);
    assert(isize::MAX < usize::MAX);
    assert(local::header_at(file, at) == header);
    assert(local::header_span(header) == sector);
    align::lemma_aligned_up(image_v1::name_len(staged) + sector + 0x3D, sector as int);
    assert(local::record_size_outcome(file, at as u64) is Ok);
    let size = local::record_size_outcome(file, at as u64)->Ok_0;
    assert(at + size + staged.payload.len() <= file.len());
    align::lemma_aligned_up(size + staged.payload.len(), sector as int);
}

/// Reading an entry of a v1 archive that was written to a file, empty before
/// or full up to a sector boundary, gives what the staged payload decodes to.
///
/// A payload may stand behind the local header sector or behind the whole local
/// record, and is told by its digest. So the law leaves room for one case: that
/// what stands behind the header sector is another run of bytes with the same
/// digest.
pub proof fn law_v1_write_then_read(
    model: BuilderModel,
    before: Seq<u8>,
    archive: ArchiveModel,
    i: int,
)
    requires
        model.is_formed(),
        model.entries.len() <= usize::MAX,
        before.len() as int % model.options.sector_size as int == 0,
        image_v1::v1_image_outcome(model, before.len() as int) is Ok,
        round_trip_v1::v1_file(model, before).len() <= isize::MAX,
        archive.data == round_trip_v1::v1_file(model, before),
        archive.version == P4kVersion::V1,
        archive.sector_size() == Some(model.options.sector_size),
        0 <= i < model.entries.len(),
    ensures
        ({
            let staged = fresh::fresh_entries(model.entries)[i];
            let e = round_trip_v1::written_v1_entries(model, before.len() as int)[i];
            let other = behind_header(archive.data, e, model.options.sector_size as int);
            staged.is_sound() ==> {
                ||| digests_collide(staged.payload, other)
                ||| archive.read(e) == staged.decoded()
            }
        }),
{
    let staged = fresh::fresh_entries(model.entries)[i];
    let sector = model.options.sector_size;
    let e = round_trip_v1::written_v1_entries(model, before.len() as int)[i];
    let at = image_v1::record_at(
        fresh::fresh_entries(model.entries),
        before.len() as int,
        sector as int,
        i,
    );
    lemma_written_record(model, before, i);
    lemma_header_reads_back(archive.data, at, staged, sector);
    lemma_selected(archive.data, at, staged, sector);
    assert(isize::MAX < usize::MAX);
    assert(e == directory_v1::v1_entry(staged, at));
}

/// Extracting an entry of a v1 archive that was written to a file, empty
/// before or full up to a sector boundary, gives what the staged payload
/// decodes to, and an entry that was staged sound passes the integrity check,
/// where payloads were found behind the whole
/// local records or no placement was found.
///
/// Room is left for the same case as for reading.
pub proof fn law_v1_write_then_extract(
    model: BuilderModel,
    before: Seq<u8>,
    archive: ArchiveModel,
    i: int,
)
    requires
        model.is_formed(),
        model.entries.len() <= usize::MAX,
        before.len() as int % model.options.sector_size as int == 0,
        image_v1::v1_image_outcome(model, before.len() as int) is Ok,
        round_trip_v1::v1_file(model, before).len() <= isize::MAX,
        archive.data == round_trip_v1::v1_file(model, before),
        archive.version == P4kVersion::V1,
        archive.sector_size() == Some(model.options.sector_size),
        archive.placement == V1PayloadPlacement::AlignedRecord || archive.placement
            == V1PayloadPlacement::Unknown,
        0 <= i < model.entries.len(),
    ensures
        ({
            let staged = fresh::fresh_entries(model.entries)[i];
            let e = round_trip_v1::written_v1_entries(model, before.len() as int)[i];
            let other = behind_header(archive.data, e, model.options.sector_size as int);
            staged.is_sound() ==> {
                ||| digests_collide(staged.payload, other)
                ||| {
                    &&& archive.stored(e) is Ok
                    &&& archive.stored(e)->Ok_0.0 == staged.payload
                    &&& archive.extracted(e) == staged.decoded()
                    &&& archive.integrity_fault(e) is None
                }
            }
        }),
{
    let staged = fresh::fresh_entries(model.entries)[i];
    let sector = model.options.sector_size;
    let e = round_trip_v1::written_v1_entries(model, before.len() as int)[i];
    let at = image_v1::record_at(
        fresh::fresh_entries(model.entries),
        before.len() as int,
        sector as int,
        i,
    );
    lemma_written_record(model, before, i);
    lemma_located(archive.data, at, staged, sector, archive.placement);
    assert(e == directory_v1::v1_entry(staged, at));
    let location = archive.location(e)->Ok_0;
    let stored = archive.data.subrange(
        location.offset as int,
        location.offset + e.compressed_size,
    );
    assert(archive.stored(e) == Ok::<(Seq<u8>, bool), Fault>((stored, location.sha256_verified)));
    if staged.is_sound() && !digests_collide(
        staged.payload,
        behind_header(archive.data, e, sector as int),
    ) {
        assert(stored == staged.payload);
    }
    if staged.decoded() is Ok && staged.compression_method == CompressionMethod::Store
        && !staged.encrypted {
        assert(staged.payload.take(staged.payload.len() as int) =~= staged.payload);
    }
}

} // verus!
