//! What was put into a new v2 archive comes out of it.

use vstd::prelude::*;
use vstd::seq::*;
use vstd::seq_lib::*;

use crate::align;
use crate::archive::model::{EntryModel, LayoutModel, P4kVersion};
use crate::archive::reader;
use crate::archive::reader::ArchiveModel;
use crate::archive::v2;
use crate::bytes;
use crate::error::Fault;
use crate::writer::builder::BuilderModel;
use crate::writer::fresh;
use crate::writer::image_v2;
use crate::writer::options::P4kWriteStats;
use crate::writer::read_back_v2;
use crate::writer::staged::StagedModel;
use crate::writer::tail;
use crate::zip::CompressionMethod;

verus! {

proof fn lemma_payload_at(entries: Seq<StagedModel>, start: int, sector: int, k: int)
    requires
        0 < sector,
        0 <= start,
        start % sector == 0,
        0 <= k,
    ensures
        start <= image_v2::payload_at(entries, start, sector, k),
        image_v2::payload_at(entries, start, sector, k) % sector == 0,
        k > 0 ==> image_v2::payload_at(entries, start, sector, k - 1) + entries[k - 1].payload.len()
            <= image_v2::payload_at(entries, start, sector, k),
    decreases k,
{
    if k > 0 {
        lemma_payload_at(entries, start, sector, k - 1);
        align::lemma_aligned_up(
            image_v2::payload_at(entries, start, sector, k - 1) + entries[k - 1].payload.len(),
            sector,
        );
    }
}

proof fn lemma_payloads_grow(entries: Seq<StagedModel>, start: int, sector: int, i: int, k: int)
    requires
        0 < sector,
        0 <= start,
        start % sector == 0,
        0 <= i <= k,
    ensures
        image_v2::payload_at(entries, start, sector, i) <= image_v2::payload_at(
            entries,
            start,
            sector,
            k,
        ),
        i < k ==> image_v2::payload_at(entries, start, sector, i) + entries[i].payload.len()
            <= image_v2::payload_at(entries, start, sector, k),
    decreases k - i,
{
    if i < k {
        lemma_payloads_grow(entries, start, sector, i, k - 1);
        lemma_payload_at(entries, start, sector, k);
    }
}

proof fn lemma_payload_bytes_length(entries: Seq<StagedModel>, start: int, sector: int, k: int)
    requires
        0 < sector,
        0 <= start,
        start % sector == 0,
        0 <= k,
    ensures
        image_v2::payload_bytes(entries, start, sector, k).len() == image_v2::payload_at(
            entries,
            start,
            sector,
            k,
        ) - start,
    decreases k,
{
    lemma_payload_at(entries, start, sector, k);
    if k > 0 {
        lemma_payload_bytes_length(entries, start, sector, k - 1);
    }
}

proof fn lemma_payload_stands(entries: Seq<StagedModel>, start: int, sector: int, k: int, i: int)
    requires
        0 < sector,
        0 <= start,
        start % sector == 0,
        0 <= i < k,
    ensures
        bytes::holds_at(
            image_v2::payload_bytes(entries, start, sector, k),
            image_v2::payload_at(entries, start, sector, i) - start,
            entries[i].payload,
        ),
    decreases k,
{
    let before = image_v2::payload_bytes(entries, start, sector, k - 1);
    let all = image_v2::payload_bytes(entries, start, sector, k);
    let at = image_v2::payload_at(entries, start, sector, i) - start;
    let size = entries[i].payload.len();
    lemma_payload_bytes_length(entries, start, sector, k - 1);
    lemma_payload_at(entries, start, sector, k - 1);
    lemma_payload_at(entries, start, sector, k);
    if i < k - 1 {
        lemma_payload_stands(entries, start, sector, k - 1, i);
        assert(all.subrange(at, at + size) =~= before.subrange(at, at + size));
    } else {
        assert(all.subrange(at, at + size) =~= entries[i].payload);
    }
}

proof fn lemma_no_payload_fault(
    entries: Seq<StagedModel>,
    start: int,
    sector: u64,
    k: int,
    n: int,
)
    requires
        0 < k <= n,
        image_v2::payload_fault(entries, start, sector, n) is None,
    ensures
        image_v2::payload_at(entries, start, sector as int, k - 1) + entries[k - 1].payload.len()
            + sector - 1 <= u64::MAX,
    decreases n - k,
{
    if k < n {
        lemma_no_payload_fault(entries, start, sector, k, n - 1);
    }
}

proof fn lemma_payload_range(entries: Seq<StagedModel>, start: int, sector: u64, n: int, i: int)
    requires
        0 < sector,
        0 <= start,
        start % (sector as int) == 0,
        0 <= i < n,
        image_v2::payload_fault(entries, start, sector, n) is None,
    ensures
        start <= image_v2::payload_at(entries, start, sector as int, i),
        image_v2::payload_at(entries, start, sector as int, i) + entries[i].payload.len()
            <= image_v2::payload_at(entries, start, sector as int, n) <= u64::MAX,
        image_v2::payload_at(entries, start, sector as int, i) % sector as int == 0,
{
    lemma_payload_at(entries, start, sector as int, i);
    lemma_payloads_grow(entries, start, sector as int, i, n);
    lemma_no_payload_fault(entries, start, sector, n, n);
    lemma_payload_at(entries, start, sector as int, n - 1);
    align::lemma_aligned_up(
        image_v2::payload_at(entries, start, sector as int, n - 1) + entries[n - 1].payload.len(),
        sector as int,
    );
}

proof fn lemma_directory_of_payloads(entries: Seq<StagedModel>, start: int, sector: u64)
    requires
        0 < sector,
        0 <= start,
        start % (sector as int) == 0,
        image_v2::payload_fault(entries, start, sector, entries.len() as int) is None,
        forall|i: int| 0 <= i < entries.len() ==> (#[trigger] entries[i]).is_formed(),
    ensures
        read_back_v2::is_v2_directory(
            image_v2::v2_entries(entries, start, sector as int),
            Seq::empty(),
            image_v2::payload_at(entries, start, sector as int, entries.len() as int) as u64,
            sector,
        ),
{
    let n = entries.len() as int;
    let records = image_v2::v2_entries(entries, start, sector as int);
    let end = image_v2::payload_at(entries, start, sector as int, n) as u64;
    assert forall|i: int| 0 <= i < records.len() implies read_back_v2::is_v2_entry(
        #[trigger] records[i],
        end,
        sector,
    ) by {
        assert(entries[i].is_formed());
        lemma_payload_range(entries, start, sector, n, i);
    }
    assert forall|i: int, j: int|
        0 <= i < n && 0 <= j < n && i != j && records[i].compressed_size != 0
            && records[j].compressed_size != 0 implies #[trigger] v2::are_apart(
        records[i],
        records[j],
    ) by {
        lemma_payload_range(entries, start, sector, n, i);
        lemma_payload_range(entries, start, sector, n, j);
        if i < j {
            lemma_payloads_grow(entries, start, sector as int, i, j);
        } else {
            lemma_payloads_grow(entries, start, sector as int, j, i);
        }
    }
}

/// What a v2 archive that was written from `start` on says of its entries.
pub open spec fn written_v2_entries(model: BuilderModel, start: int) -> Seq<EntryModel> {
    image_v2::v2_entries(
        fresh::fresh_entries(model.entries),
        start,
        model.options.sector_size as int,
    )
}

/// What a file holds that held `before` when a v2 archive was written behind it.
pub open spec fn v2_file(model: BuilderModel, before: Seq<u8>) -> Seq<u8> {
    before + image_v2::v2_image_outcome(model, before.len() as int)->Ok_0.0
}

proof fn lemma_written_payload(
    file: Seq<u8>,
    before: Seq<u8>,
    staged: Seq<StagedModel>,
    sector: u64,
    i: int,
)
    requires
        0 < sector,
        before.len() as int % (sector as int) == 0,
        image_v2::payload_fault(
            staged,
            before.len() as int,
            sector,
            staged.len() as int,
        ) is None,
        0 <= i < staged.len(),
        bytes::holds_at(
            file,
            before.len() as int,
            image_v2::payload_bytes(
                staged,
                before.len() as int,
                sector as int,
                staged.len() as int,
            ),
        ),
    ensures
        bytes::holds_at(
            file,
            image_v2::v2_entries(
                staged,
                before.len() as int,
                sector as int,
            )[i].local_header_offset as int,
            staged[i].payload,
        ),
{
    let start = before.len() as int;
    let n = staged.len() as int;
    let payloads = image_v2::payload_bytes(staged, start, sector as int, n);
    let at = image_v2::payload_at(staged, start, sector as int, i);
    let size = staged[i].payload.len();
    lemma_payload_range(staged, start, sector, n, i);
    if size == 0 {
        assert(file.subrange(0, 0) =~= staged[i].payload);
    } else {
        lemma_payload_stands(staged, start, sector as int, n, i);
        assert(file.subrange(at, at + size) =~= payloads.subrange(at - start, at - start + size));
    }
}

/// Whether what was reported of writing a v2 archive is what it says of itself.
pub open spec fn tells_layout(stats: P4kWriteStats, count: nat, layout: LayoutModel) -> bool {
    &&& stats.entry_count == count
    &&& stats.file_size == layout.file_size
    &&& layout.end_of_payload == Some(stats.payload_end)
    &&& stats.cdr_offset == layout.cdr_offset
    &&& stats.cdr_size == layout.cdr_size
    &&& stats.cdr_size == 204 * count
    &&& stats.name_table_size == layout.name_table_size
}

/// A file to which a v2 archive was written, empty before or full up to a
/// sector boundary, opens as a v2 archive with the metadata of every staged
/// entry and no free ranges, and stores the payload of every entry as it was
/// staged.
pub proof fn law_v2_write_then_open(model: BuilderModel, before: Seq<u8>)
    requires
        model.is_formed(),
        model.entries.len() <= usize::MAX,
        before.len() as int % model.options.sector_size as int == 0,
        image_v2::v2_image_outcome(model, before.len() as int) is Ok,
        v2_file(model, before).len() <= isize::MAX,
    ensures
        ({
            let start = before.len() as int;
            let file = v2_file(model, before);
            let staged = fresh::fresh_entries(model.entries);
            let opened = reader::archive_outcome(file);
            &&& opened is Ok
            &&& opened->Ok_0.0 == P4kVersion::V2
            &&& opened->Ok_0.1.entries == written_v2_entries(model, start)
            &&& opened->Ok_0.1.freelist_blocks.len() == 0
            &&& opened->Ok_0.1.layout.physical_sector_size == Some(model.options.sector_size)
            &&& opened->Ok_0.1.layout.manifest_sha256 == Some(model.options.manifest_sha256@)
            &&& file.len() == image_v2::v2_image_outcome(model, start)->Ok_0.1.file_size
            &&& forall|i: int|
                0 <= i < staged.len() ==> bytes::holds_at(
                    file,
                    (#[trigger] written_v2_entries(model, start)[i]).local_header_offset as int,
                    staged[i].payload,
                )
        }),
{
    let start = before.len() as int;
    let staged = fresh::fresh_entries(model.entries);
    let sector = model.options.sector_size;
    let n = staged.len() as int;
    let records = written_v2_entries(model, start);
    let payloads = image_v2::payload_bytes(staged, start, sector as int, n);
    let front = before + payloads;
    let end = image_v2::payload_at(staged, start, sector as int, n) as u64;
    let plan = tail::plan_outcome(end, records, 0, end, sector, true)->Ok_0;
    let file = v2_file(model, before);
    fresh::law_fresh_order_exists(model.entries);
    assert forall|i: int| 0 <= i < n implies (#[trigger] staged[i]).is_formed() by {
        let sorted = fresh::fresh_order_of(model.entries);
        assert(sorted[i] < model.entries.len());
        assert(model.entries[sorted[i] as int].is_formed());
    }
    lemma_payload_bytes_length(staged, start, sector as int, n);
    lemma_payload_at(staged, start, sector as int, n);
    if n > 0 {
        lemma_payload_range(staged, start, sector, n, n - 1);
    }
    lemma_directory_of_payloads(staged, start, sector);
    tail::lemma_plan_fits(end, records, 0, end, sector, true);
    align::lemma_aligned_up(end as int, sector as int);
    assert(plan.end_of_payload == end);
    assert(file =~= front + tail::tail_bytes(end, plan, records, Seq::empty(), model.options));
    read_back_v2::lemma_tail_stands(front, plan, records, Seq::empty(), model.options);
    read_back_v2::lemma_sectors_match(plan, records, 0, sector);
    read_back_v2::law_v2_tail_reads_back(front, records, Seq::empty(), end, model.options, true);
    assert forall|i: int| 0 <= i < n implies bytes::holds_at(
        file,
        (#[trigger] records[i]).local_header_offset as int,
        staged[i].payload,
    ) by {
        assert(file.subrange(start, start + payloads.len()) =~= payloads);
        lemma_written_payload(file, before, staged, sector, i);
    }
}

/// What is reported of writing a v2 archive is what the archive says of itself when it
/// is opened.
pub proof fn law_v2_write_is_told(model: BuilderModel, before: Seq<u8>)
    requires
        model.is_formed(),
        model.entries.len() <= usize::MAX,
        before.len() as int % model.options.sector_size as int == 0,
        image_v2::v2_image_outcome(model, before.len() as int) is Ok,
        v2_file(model, before).len() <= isize::MAX,
    ensures
        reader::archive_outcome(v2_file(model, before)) is Ok,
        tells_layout(
            image_v2::v2_image_outcome(model, before.len() as int)->Ok_0.1,
            model.entries.len(),
            reader::archive_outcome(v2_file(model, before))->Ok_0.1.layout,
        ),
{
    let start = before.len() as int;
    let staged = fresh::fresh_entries(model.entries);
    let sector = model.options.sector_size;
    let n = staged.len() as int;
    let records = written_v2_entries(model, start);
    let payloads = image_v2::payload_bytes(staged, start, sector as int, n);
    let front = before + payloads;
    let end = image_v2::payload_at(staged, start, sector as int, n) as u64;
    let plan = tail::plan_outcome(end, records, 0, end, sector, true)->Ok_0;
    let file = v2_file(model, before);
    fresh::law_fresh_order_exists(model.entries);
    assert forall|i: int| 0 <= i < n implies (#[trigger] staged[i]).is_formed() by {
        let sorted = fresh::fresh_order_of(model.entries);
        assert(sorted[i] < model.entries.len());
        assert(model.entries[sorted[i] as int].is_formed());
    }
    lemma_payload_bytes_length(staged, start, sector as int, n);
    lemma_payload_at(staged, start, sector as int, n);
    if n > 0 {
        lemma_payload_range(staged, start, sector, n, n - 1);
    }
    lemma_directory_of_payloads(staged, start, sector);
    tail::lemma_plan_fits(end, records, 0, end, sector, true);
    align::lemma_aligned_up(end as int, sector as int);
    assert(plan.end_of_payload == end);
    assert(file =~= front + tail::tail_bytes(end, plan, records, Seq::empty(), model.options));
    read_back_v2::lemma_tail_stands(front, plan, records, Seq::empty(), model.options);
    read_back_v2::lemma_sectors_match(plan, records, 0, sector);
    read_back_v2::law_v2_tail_reads_back(front, records, Seq::empty(), end, model.options, true);
    assert(reader::archive_outcome(file)->Ok_0.1 == read_back_v2::written_directory(
        file.len() as u64,
        plan,
        records,
        Seq::empty(),
        model.options,
    ));
    assert(image_v2::v2_image_outcome(model, start)->Ok_0.1 == plan.stats(n as usize));
}

/// Reading and extracting an entry of a v2 archive that was written to a
/// file, empty before or full up to a sector boundary, give what the staged
/// payload decodes to, and an entry that was staged sound passes every
/// integrity check.
pub proof fn law_v2_write_then_read(
    model: BuilderModel,
    before: Seq<u8>,
    archive: ArchiveModel,
    i: int,
)
    requires
        model.is_formed(),
        model.entries.len() <= usize::MAX,
        before.len() as int % model.options.sector_size as int == 0,
        image_v2::v2_image_outcome(model, before.len() as int) is Ok,
        v2_file(model, before).len() <= isize::MAX,
        archive.data == v2_file(model, before),
        archive.version == P4kVersion::V2,
        0 <= i < model.entries.len(),
    ensures
        ({
            let staged = fresh::fresh_entries(model.entries)[i];
            let e = written_v2_entries(model, before.len() as int)[i];
            &&& archive.stored(e) == Ok::<(Seq<u8>, bool), Fault>((staged.payload, false))
            &&& staged.decoded() is Ok ==> archive.read(e) == staged.decoded()
            &&& staged.decoded() is Ok ==> archive.extracted(e) == staged.decoded()
            &&& staged.is_sound() ==> archive.integrity_fault(e) is None
            &&& staged.is_sound() ==> archive.fast_integrity_fault(e) is None
        }),
{
    let staged = fresh::fresh_entries(model.entries)[i];
    let e = written_v2_entries(model, before.len() as int)[i];
    let image = archive.data;
    law_v2_write_then_open(model, before);
    let at = e.local_header_offset as int;
    assert(bytes::holds_at(image, at, staged.payload));
    assert(staged.payload.len() <= isize::MAX);
    assert(isize::MAX < usize::MAX);
    assert(e.compressed_size == staged.payload.len());
    assert(image.subrange(at, at + e.compressed_size) == staged.payload);
    if staged.decoded() is Ok {
        if staged.payload.len() == 0 && staged.uncompressed_size == 0 {
            assert(staged.decoded()->Ok_0.len() == 0);
            assert(staged.decoded()->Ok_0 =~= Seq::empty());
        }
        if staged.compression_method == CompressionMethod::Store && !staged.encrypted {
            assert(staged.payload.take(staged.payload.len() as int) =~= staged.payload);
        }
    }
    if staged.payload.len() == 0 {
        assert(staged.payload =~= Seq::empty());
    }
}

} // verus!
