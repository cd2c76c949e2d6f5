//! What was put into a new v1 archive comes out of it.

use vstd::prelude::*;
use vstd::seq::*;
use vstd::seq_lib::*;

use crate::align;
use crate::archive::freelist;
use crate::archive::model::{EntryModel, LayoutModel, P4kFreelistBlock, P4kVersion};
use crate::archive::reader;
use crate::archive::v1_install;
use crate::bytes;
use crate::error::Fault;
use crate::path;
use crate::writer::builder::BuilderModel;
use crate::writer::directory_v1;
use crate::writer::fresh;
use crate::writer::image_v1;
use crate::writer::options::P4kWriteStats;
use crate::writer::read_back_v1;
use crate::writer::read_v1;
use crate::writer::staged::StagedModel;

verus! {

pub proof fn lemma_progress_length(entries: Seq<StagedModel>, k: int)
    requires
        0 <= k,
    ensures
        image_v1::progress_bytes(entries, k).len() == 12 * k,
    decreases k,
{
    if k > 0 {
        lemma_progress_length(entries, k - 1);
        bytes::lemma_number_lengths(0, 0, entries[k - 1].payload.len() as u64);
    }
}

proof fn lemma_progress_at(data: Seq<u8>, at: int, entries: Seq<StagedModel>, n: int, i: int)
    requires
        bytes::holds_at(data, at, image_v1::progress_bytes(entries, n)),
        0 <= i < n,
    ensures
        bytes::le64(data, at + 12 * i) == entries[i].payload.len() as u64,
        bytes::le32(data, at + 12 * i + 8) == 0,
    decreases n,
{
    let size = bytes::u64_bytes(entries[n - 1].payload.len() as u64);
    let reserved = bytes::u32_bytes(0);
    lemma_progress_length(entries, n - 1);
    bytes::lemma_holds_split(
        data,
        at,
        image_v1::progress_bytes(entries, n - 1),
        size + reserved,
    );
    if i < n - 1 {
        lemma_progress_at(data, at, entries, n - 1, i);
    } else {
        bytes::lemma_number_lengths(0, 0, entries[i].payload.len() as u64);
        bytes::lemma_holds_split(data, at + 12 * i, size, reserved);
        bytes::lemma_le64_of_bytes(data, at + 12 * i, entries[i].payload.len() as u64);
        bytes::lemma_le32_of_bytes(data, at + 12 * i + 8, 0);
    }
}

/// Whether no two names stand for the same entry.
pub open spec fn distinct_names(entries: Seq<StagedModel>) -> bool {
    forall|i: int, j: int|
        0 <= i < j < entries.len() ==> path::name_key(#[trigger] entries[i].name)
            != path::name_key(#[trigger] entries[j].name)
}

proof fn lemma_installed(
    data: Seq<u8>,
    entries: Seq<StagedModel>,
    start: int,
    sector: int,
    payload_end: int,
)
    requires
        bytes::holds_at(
            data,
            payload_end,
            image_v1::progress_bytes(entries, entries.len() as int),
        ),
        0 <= payload_end,
        data.len() <= isize::MAX,
    ensures
        v1_install::installed_outcome(
            data,
            (payload_end + 12 * entries.len()) as u64,
            0,
            directory_v1::v1_entries(entries, start, sector),
        ) == Ok::<(Seq<EntryModel>, Seq<P4kFreelistBlock>), Fault>(
            (directory_v1::v1_entries(entries, start, sector), Seq::empty()),
        ),
{
    let n = entries.len();
    let records = directory_v1::v1_entries(entries, start, sector);
    lemma_progress_length(entries, n as int);
    assert(isize::MAX < usize::MAX);
    assert forall|i: int| 0 <= i < n implies #[trigger] v1_install::progress_fault(
        data,
        payload_end,
        records[i],
        i,
    ) is None by {
        lemma_progress_at(data, payload_end, entries, n as int, i);
    }
    v1_install::lemma_progress_listed(data, payload_end, records, n);
    let done = Seq::new(n, |i: int| v1_install::with_progress(data, payload_end, records[i], i));
    assert(done =~= records) by {
        assert forall|i: int| 0 <= i < n implies done[i] == records[i] by {
            lemma_progress_at(data, payload_end, entries, n as int, i);
        }
    }
}

proof fn lemma_nothing_repeated(
    data: Seq<u8>,
    sector: u64,
    records: Seq<EntryModel>,
    count: nat,
)
    requires
        count <= records.len(),
        forall|i: int|
            0 <= i < records.len() ==> (#[trigger] records[i]).local_header_offset % sector == 0,
        forall|i: int, j: int|
            0 <= i < j < records.len() ==> path::name_key(#[trigger] records[i].name)
                != path::name_key(#[trigger] records[j].name),
    ensures
        v1_install::deduplicated(data, sector, records, Seq::empty(), count) == Ok::<
            (Seq<EntryModel>, Seq<P4kFreelistBlock>),
            Fault,
        >((records.take(count as int), Seq::empty())),
    decreases count,
{
    if count > 0 {
        lemma_nothing_repeated(data, sector, records, (count - 1) as nat);
        assert(records[count - 1].local_header_offset % sector == 0);
        assert(!v1_install::is_repeated(records, count - 1));
        assert(records.take(count as int) =~= records.take(count - 1).push(records[count - 1]));
    } else {
        assert(records.take(0) =~= Seq::empty());
    }
}

/// The first `count` entries without those that have the name of an earlier one.
pub open spec fn first_of_each(entries: Seq<EntryModel>, count: nat) -> Seq<EntryModel>
    decreases count,
{
    if count == 0 {
        Seq::empty()
    } else {
        let short = first_of_each(entries, (count - 1) as nat);
        if v1_install::is_repeated(entries, count - 1) {
            short
        } else {
            short.push(entries[count - 1])
        }
    }
}

proof fn lemma_first_ones_stay(
    data: Seq<u8>,
    sector: u64,
    records: Seq<EntryModel>,
    count: nat,
)
    requires
        count <= records.len(),
        forall|i: int|
            0 <= i < records.len() ==> (#[trigger] records[i]).local_header_offset % sector == 0,
        forall|i: int|
            0 <= i < records.len() ==> {
                let freed = #[trigger] v1_install::freed_range(data, sector, records[i]);
                &&& freed is Ok
                &&& freed->Ok_0.offset + freed->Ok_0.size <= u64::MAX
            },
    ensures
        ({
            let done = v1_install::deduplicated(data, sector, records, Seq::empty(), count);
            &&& done is Ok
            &&& done->Ok_0.0 == first_of_each(records, count)
            &&& done->Ok_0.1.len() <= count
            &&& forall|i: int|
                0 <= i < done->Ok_0.1.len() ==> (#[trigger] done->Ok_0.1[i]).offset
                    + done->Ok_0.1[i].size <= u64::MAX
        }),
    decreases count,
{
    if count > 0 {
        let e = records[count - 1];
        let short = v1_install::deduplicated(
            data,
            sector,
            records,
            Seq::empty(),
            (count - 1) as nat,
        );
        let done = v1_install::deduplicated(data, sector, records, Seq::empty(), count);
        lemma_first_ones_stay(data, sector, records, (count - 1) as nat);
        assert(e.local_header_offset % sector == 0);
        assert(v1_install::freed_range(data, sector, e) is Ok);
        assert forall|i: int| 0 <= i < done->Ok_0.1.len() implies (
        #[trigger] done->Ok_0.1[i]).offset + done->Ok_0.1[i].size <= u64::MAX by {
            if i < short->Ok_0.1.len() {
                assert(done->Ok_0.1[i] == short->Ok_0.1[i]);
            }
        }
    }
}

proof fn lemma_settled(data: Seq<u8>, sector: u64, records: Seq<EntryModel>)
    requires
        records.len() <= usize::MAX,
        forall|i: int|
            0 <= i < records.len() ==> (#[trigger] records[i]).local_header_offset % sector == 0,
        forall|i: int|
            0 <= i < records.len() ==> {
                let freed = #[trigger] v1_install::freed_range(data, sector, records[i]);
                &&& freed is Ok
                &&& freed->Ok_0.offset + freed->Ok_0.size <= u64::MAX
            },
    ensures
        ({
            let settled = v1_install::settled_outcome(data, Some(sector), records, Seq::empty());
            &&& settled is Ok
            &&& settled->Ok_0.0 == first_of_each(records, records.len())
        }),
{
    let done = v1_install::deduplicated(data, sector, records, Seq::empty(), records.len());
    lemma_first_ones_stay(data, sector, records, records.len());
    freelist::law_merged_blocks(done->Ok_0.1, 0);
}

proof fn lemma_settled_distinct(data: Seq<u8>, sector: u64, records: Seq<EntryModel>)
    requires
        forall|i: int|
            0 <= i < records.len() ==> (#[trigger] records[i]).local_header_offset % sector == 0,
        forall|i: int, j: int|
            0 <= i < j < records.len() ==> path::name_key(#[trigger] records[i].name)
                != path::name_key(#[trigger] records[j].name),
    ensures
        v1_install::settled_outcome(data, Some(sector), records, Seq::empty()) == Ok::<
            (Seq<EntryModel>, Seq<P4kFreelistBlock>),
            Fault,
        >((records, Seq::empty())),
{
    lemma_nothing_repeated(data, sector, records, records.len());
    assert(records.take(records.len() as int) =~= records);
    let none = Seq::<P4kFreelistBlock>::empty();
    assert(freelist::nonempty_blocks(none) =~= none);
    assert(freelist::sorted_blocks(none) =~= none);
    assert(freelist::merged_blocks(none) == Some(none));
}

proof fn lemma_comment_reads_back(
    data: Seq<u8>,
    trailer: int,
    count: int,
    cdr_size: int,
    cdr_offset: int,
    sector_size: u16,
)
    requires
        read_back_v1::trailer_stands(data, trailer, count, cdr_size, cdr_offset, sector_size),
        0 <= trailer,
        align::is_pow2(sector_size as nat),
        data.len() as int % sector_size as int == 0,
        bytes::zero_between(data, trailer + 114, data.len() as int),
        data.len() <= isize::MAX,
    ensures
        v1_install::comment_outcome(data, trailer + 76, 16) == Ok::<(u64, Option<u64>), Fault>(
            (0, Some(sector_size as u64)),
        ),
{
    let at = trailer + 98;
    let a = seq![0x43u8, 0x49u8];
    let b = bytes::u32_bytes(v1_install::CI_MARKER);
    let c = bytes::u16_bytes(sector_size);
    let d = bytes::u64_bytes(0);
    bytes::lemma_number_lengths(sector_size, v1_install::CI_MARKER, 0);
    bytes::lemma_holds_split(data, at, a + b + c, d);
    bytes::lemma_holds_split(data, at, a + b, c);
    bytes::lemma_holds_split(data, at, a, b);
    bytes::lemma_le32_of_bytes(data, at + 2, v1_install::CI_MARKER);
    bytes::lemma_le16_of_bytes(data, at + 6, sector_size);
    bytes::lemma_le64_of_bytes(data, at + 8, 0);
    let sig = data.subrange(at, at + 2);
    assert(sig[0] == data[at] && sig[1] == data[at + 1]);
    assert(isize::MAX < usize::MAX);
}

/// What a v1 archive that was written from `start` on says of its entries.
pub open spec fn written_v1_entries(model: BuilderModel, start: int) -> Seq<EntryModel> {
    directory_v1::v1_entries(
        fresh::fresh_entries(model.entries),
        start,
        model.options.sector_size as int,
    )
}

/// What a v1 archive that was written from `start` on lists: of entries with
/// the same name, but for case and separators, the first.
pub open spec fn listed_v1_entries(model: BuilderModel, start: int) -> Seq<EntryModel> {
    first_of_each(written_v1_entries(model, start), model.entries.len())
}

/// Where the ZIP64 EOCD record of a v1 archive stands that was written from
/// `start` on.
pub open spec fn written_zip64_offset(model: BuilderModel, start: int) -> int {
    let plan = image_v1::v1_plan(
        fresh::fresh_entries(model.entries),
        start,
        model.options.sector_size as int,
    );
    plan.cdr_offset + plan.cdr_size
}

/// What a file holds that held `before` when a v1 archive was written behind it.
pub open spec fn v1_file(model: BuilderModel, before: Seq<u8>) -> Seq<u8> {
    before + image_v1::v1_image_outcome(model, before.len() as int)->Ok_0.0
}

proof fn lemma_fresh(model: BuilderModel)
    requires
        model.is_formed(),
        model.entries.len() <= usize::MAX,
    ensures
        forall|i: int|
            0 <= i < model.entries.len() ==> (#[trigger] fresh::fresh_entries(
                model.entries,
            )[i]).is_formed(),
{
    let staged = fresh::fresh_entries(model.entries);
    let sorted = fresh::fresh_order_of(model.entries);
    fresh::law_fresh_order_exists(model.entries);
    assert forall|i: int| 0 <= i < staged.len() implies (#[trigger] staged[i]).is_formed() by {
        assert(sorted[i] < model.entries.len());
        assert(model.entries[sorted[i] as int].is_formed());
    }
}

proof fn lemma_fresh_distinct(model: BuilderModel)
    requires
        model.entries.len() <= usize::MAX,
        distinct_names(model.entries),
    ensures
        distinct_names(fresh::fresh_entries(model.entries)),
{
    let staged = fresh::fresh_entries(model.entries);
    let sorted = fresh::fresh_order_of(model.entries);
    fresh::law_fresh_order_exists(model.entries);
    assert forall|i: int, j: int| 0 <= i < j < staged.len() implies path::name_key(
        #[trigger] staged[i].name,
    ) != path::name_key(#[trigger] staged[j].name) by {
        let a = sorted[i] as int;
        let b = sorted[j] as int;
        assert(sorted[i] < model.entries.len() && sorted[j] < model.entries.len());
        assert(fresh::fresh_precedes(model.entries, sorted[i] as int, sorted[j] as int));
        crate::order::lemma_bytes_below_order(
            path::name_key(model.entries[a].name),
            path::name_key(model.entries[a].name),
        );
        if a < b {
            assert(path::name_key(model.entries[a].name) != path::name_key(
                model.entries[b].name,
            ));
        } else if b < a {
            assert(path::name_key(model.entries[b].name) != path::name_key(
                model.entries[a].name,
            ));
        }
    }
}

proof fn lemma_written_settled(model: BuilderModel, before: Seq<u8>)
    requires
        model.is_formed(),
        model.entries.len() <= usize::MAX,
        before.len() as int % model.options.sector_size as int == 0,
        image_v1::v1_image_outcome(model, before.len() as int) is Ok,
        v1_file(model, before).len() <= isize::MAX,
    ensures
        ({
            let records = written_v1_entries(model, before.len() as int);
            let settled = v1_install::settled_outcome(
                v1_file(model, before),
                Some(model.options.sector_size),
                records,
                Seq::empty(),
            );
            &&& settled is Ok
            &&& settled->Ok_0.0 == first_of_each(records, records.len())
            &&& distinct_names(model.entries) ==> settled->Ok_0.0 == records
                && settled->Ok_0.1.len() == 0
        }),
{
    let start = before.len() as int;
    let staged = fresh::fresh_entries(model.entries);
    let n = staged.len() as int;
    let sector = model.options.sector_size;
    let data = v1_file(model, before);
    let records = written_v1_entries(model, start);
    assert forall|i: int| 0 <= i < n implies (#[trigger] records[i]).local_header_offset % sector
        == 0 by {
        read_back_v1::lemma_record_positions(staged, start, sector, i, n);
        image_v1::lemma_body_good(staged, start, sector, i, n);
    }
    assert forall|i: int| 0 <= i < n implies {
        let freed = #[trigger] v1_install::freed_range(data, sector, records[i]);
        &&& freed is Ok
        &&& freed->Ok_0.offset + freed->Ok_0.size <= u64::MAX
    } by {
        read_v1::lemma_freed_range(model, before, i);
    }
    lemma_settled(data, sector, records);
    if distinct_names(model.entries) {
        lemma_fresh_distinct(model);
        assert forall|i: int, j: int| 0 <= i < j < n implies path::name_key(
            #[trigger] records[i].name,
        ) != path::name_key(#[trigger] records[j].name) by {
            assert(staged[i].name == records[i].name && staged[j].name == records[j].name);
        }
        lemma_settled_distinct(data, sector, records);
    }
}

/// Whether what was reported of writing a v1 archive is what it says of itself.
pub open spec fn tells_layout(stats: P4kWriteStats, count: nat, layout: LayoutModel) -> bool {
    &&& stats.entry_count == count
    &&& stats.file_size == layout.file_size
    &&& layout.end_of_payload == if count == 0 {
        None
    } else {
        Some(stats.payload_end)
    }
    &&& count == 0 ==> stats.payload_end == stats.cdr_offset
    &&& stats.cdr_offset == layout.cdr_offset
    &&& stats.cdr_size == layout.cdr_size
    &&& stats.name_table_size == 0
}

/// A file to which a v1 archive was written, empty before or full up to a
/// sector boundary, opens as a v1 archive with the metadata of every staged
/// entry and no free ranges, where the names differ in more than case and
/// separators. Of entries with the same name the first is listed.
///
/// The offset of the ZIP64 EOCD record must not hold the signature of the
/// locator that names it, which would be taken for the locator itself.
pub proof fn law_v1_write_then_open(model: BuilderModel, before: Seq<u8>)
    requires
        model.is_formed(),
        model.entries.len() <= usize::MAX,
        before.len() as int % model.options.sector_size as int == 0,
        image_v1::v1_image_outcome(model, before.len() as int) is Ok,
        v1_file(model, before).len() <= isize::MAX,
        !read_back_v1::looks_like_locator(
            written_zip64_offset(model, before.len() as int) as u64,
        ),
    ensures
        ({
            let start = before.len() as int;
            let file = v1_file(model, before);
            let opened = reader::archive_outcome(file);
            &&& opened is Ok
            &&& opened->Ok_0.0 == P4kVersion::V1
            &&& opened->Ok_0.1.entries == listed_v1_entries(model, start)
            &&& distinct_names(model.entries) ==> {
                &&& opened->Ok_0.1.entries == written_v1_entries(model, start)
                &&& opened->Ok_0.1.freelist_blocks.len() == 0
            }
            &&& opened->Ok_0.1.layout.physical_sector_size == Some(model.options.sector_size)
            &&& file.len() == image_v1::v1_image_outcome(model, start)->Ok_0.1.file_size
        }),
{
    let start = before.len() as int;
    let staged = fresh::fresh_entries(model.entries);
    let n = staged.len() as int;
    let sector = model.options.sector_size;
    let plan = image_v1::v1_plan(staged, start, sector as int);
    let data = v1_file(model, before);
    let records = written_v1_entries(model, start);
    let at = plan.cdr_offset + plan.cdr_size;
    let end = read_back_v1::content_stop(at, sector as u16);
    lemma_fresh(model);
    read_back_v1::lemma_image_stands(before, staged, sector);
    read_back_v1::lemma_record_positions(staged, start, sector, n, n);
    read_back_v1::lemma_trailer_stands(
        data,
        at,
        n,
        plan.cdr_size,
        plan.cdr_offset,
        sector as u16,
    );
    read_back_v1::lemma_trailer_length(n, plan.cdr_size, plan.cdr_offset, sector as u16);
    lemma_progress_length(staged, n);
    align::lemma_aligned_up(plan.content_size, sector as int);
    assert(isize::MAX < usize::MAX);
    read_back_v1::lemma_content_stop(
        data,
        at,
        n,
        plan.cdr_size,
        plan.cdr_offset,
        sector as u16,
    );
    read_back_v1::lemma_summary_reads_back(
        data,
        n,
        plan.cdr_size,
        plan.cdr_offset,
        sector as u16,
    );
    let s = read_back_v1::written_summary(n, plan.cdr_size, plan.cdr_offset);
    let cd = image_v1::central_bytes(staged, start, sector as int, n);
    assert(data.subrange(s.cdr_offset as int, s.cdr_offset + s.cdr_size) == cd);
    assert forall|i: int| 0 <= i < n implies (#[trigger] staged[i]).is_formed()
        && image_v1::name_len(staged[i]) <= u16::MAX by {
        image_v1::lemma_body_good(staged, start, sector, i, n);
    }
    directory_v1::lemma_central_reads_back(staged, start, sector as int, n);
    assert(records.take(n) =~= records);
    lemma_comment_reads_back(data, at, n, plan.cdr_size, plan.cdr_offset, sector as u16);
    lemma_installed(data, staged, start, sector as int, plan.payload_end);
    lemma_written_settled(model, before);
}

/// What is reported of writing a v1 archive is what the archive says of itself when it
/// is opened.
#[verifier::spinoff_prover]
#[verifier::rlimit(40)]
pub proof fn law_v1_write_is_told(model: BuilderModel, before: Seq<u8>)
    requires
        model.is_formed(),
        model.entries.len() <= usize::MAX,
        before.len() as int % model.options.sector_size as int == 0,
        image_v1::v1_image_outcome(model, before.len() as int) is Ok,
        v1_file(model, before).len() <= isize::MAX,
        !read_back_v1::looks_like_locator(
            written_zip64_offset(model, before.len() as int) as u64,
        ),
    ensures
        reader::archive_outcome(v1_file(model, before)) is Ok,
        tells_layout(
            image_v1::v1_image_outcome(model, before.len() as int)->Ok_0.1,
            model.entries.len(),
            reader::archive_outcome(v1_file(model, before))->Ok_0.1.layout,
        ),
{
    let start = before.len() as int;
    let staged = fresh::fresh_entries(model.entries);
    let n = staged.len() as int;
    let sector = model.options.sector_size;
    let plan = image_v1::v1_plan(staged, start, sector as int);
    let data = v1_file(model, before);
    let records = written_v1_entries(model, start);
    let at = plan.cdr_offset + plan.cdr_size;
    let end = read_back_v1::content_stop(at, sector as u16);
    lemma_fresh(model);
    read_back_v1::lemma_image_stands(before, staged, sector);
    read_back_v1::lemma_record_positions(staged, start, sector, n, n);
    read_back_v1::lemma_trailer_stands(
        data,
        at,
        n,
        plan.cdr_size,
        plan.cdr_offset,
        sector as u16,
    );
    read_back_v1::lemma_trailer_length(n, plan.cdr_size, plan.cdr_offset, sector as u16);
    lemma_progress_length(staged, n);
    align::lemma_aligned_up(plan.content_size, sector as int);
    assert(isize::MAX < usize::MAX);
    read_back_v1::lemma_content_stop(
        data,
        at,
        n,
        plan.cdr_size,
        plan.cdr_offset,
        sector as u16,
    );
    read_back_v1::lemma_summary_reads_back(
        data,
        n,
        plan.cdr_size,
        plan.cdr_offset,
        sector as u16,
    );
    let s = read_back_v1::written_summary(n, plan.cdr_size, plan.cdr_offset);
    let cd = image_v1::central_bytes(staged, start, sector as int, n);
    assert(data.subrange(s.cdr_offset as int, s.cdr_offset + s.cdr_size) == cd);
    assert forall|i: int| 0 <= i < n implies (#[trigger] staged[i]).is_formed()
        && image_v1::name_len(staged[i]) <= u16::MAX by {
        image_v1::lemma_body_good(staged, start, sector, i, n);
    }
    directory_v1::lemma_central_reads_back(staged, start, sector as int, n);
    assert(records.take(n) =~= records);
    lemma_comment_reads_back(data, at, n, plan.cdr_size, plan.cdr_offset, sector as u16);
    lemma_installed(data, staged, start, sector as int, plan.payload_end);
    lemma_written_settled(model, before);
}

} // verus!
