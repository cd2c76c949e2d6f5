//! What stands where in a written archive, also where no reader looks.
use vstd::prelude::*;
use vstd::seq::*;
use vstd::seq_lib::*;
use vstd::utf8::*;

use crate::align;
use crate::archive::model::{EntryModel, P4kFreelistBlock};
use crate::archive::v2_laws;
use crate::bytes;
use crate::writer::builder::BuilderModel;
use crate::writer::fresh;
use crate::writer::image_v1;
use crate::writer::options::P4kWriterOptions;
use crate::writer::read_back_v1;
use crate::writer::read_back_v2;
use crate::writer::read_v1;
use crate::writer::round_trip_v1;
use crate::writer::staged::StagedModel;
use crate::writer::tail;
use crate::writer::tail::V2Plan;
use crate::writer::write_laws;

verus! {

/// The local record of an entry holds, field by field, its method, time, date and
/// checksum, its name, its sizes and its own place, is filled up with zeroes to the
/// end of the sector, and reaches up to the payload.
pub proof fn law_local_record_written(data: Seq<u8>, at: int, e: StagedModel, sector: u64)
    requires
        0 < sector <= u16::MAX,
        0 <= at <= u64::MAX,
        e.payload.len() <= u64::MAX,
        image_v1::record_fault(e, sector) is None,
        bytes::holds_at(data, at, image_v1::local_record_bytes(e, at, sector as int)),
        bytes::holds_at(data, at + image_v1::record_len(e, sector as int), e.payload),
    ensures
        ({
            let name = encode_utf8(e.name);
            let x = at + 30 + name.len();
            let behind = at + align::aligned_up(name.len() + sector + 61, sector as int);
            &&& bytes::le32(data, at) == 0x0403_4B50
            &&& bytes::le16(data, at + 4) == 45
            &&& bytes::le16(data, at + 6) == 0
            &&& bytes::le16(data, at + 8) == v2_laws::method_number(e.compression_method)
            &&& bytes::le32(data, at + 10) == e.last_mod_file_date * 0x1_0000 + e.last_mod_file_time
            &&& bytes::le32(data, at + 14) == e.crc32
            &&& bytes::le32(data, at + 18) == 0xFFFF_FFFF
            &&& bytes::le32(data, at + 22) == 0xFFFF_FFFF
            &&& bytes::le16(data, at + 26) == name.len()
            &&& bytes::le16(data, at + 28) == sector - 30 - name.len()
            &&& data.subrange(at + 30, x) == name
            &&& bytes::le16(data, x) == 1
            &&& bytes::le16(data, x + 2) == 0x20
            &&& bytes::le64(data, x + 4) == e.uncompressed_size
            &&& bytes::le64(data, x + 12) == e.payload.len()
            &&& bytes::le64(data, x + 20) == at
            &&& bytes::le32(data, x + 28) == 0
            &&& bytes::le16(data, x + 32) == 0x666
            &&& bytes::le16(data, x + 34) == sector - 62 - name.len()
            &&& forall|j: int| x + 36 <= j < behind ==> data[j] == 0
            &&& data.subrange(behind, behind + e.payload.len() as int) == e.payload
        }),
{
    let name = encode_utf8(e.name);
    let x = at + 30 + name.len();
    let record = image_v1::local_record_bytes(e, at, sector as int);
    let size = image_v1::record_len(e, sector as int);
    read_v1::lemma_local_record_stands(data, at, e, sector);
    image_v1::lemma_local_record_length(e, at, sector);
    let filler = image_v1::extra_len(e, sector as int) - 0x20;
    let zeros = bytes::zeros((filler - 4 + size - sector) as nat);
    assert forall|j: int| x + 36 <= j < at + size implies data[j] == 0 by {
        assert(data.subrange(at, at + record.len())[j - at] == data[j]);
        let k = j - at - (record.len() - zeros.len());
        assert(record[record.len() - zeros.len() + k] == zeros[k]);
    }
}

/// The end of a written v2 archive marks it as complete, and holds an empty name cache
/// for as many entries behind the names.
pub proof fn law_tail_written(
    prefix: Seq<u8>,
    plan: V2Plan,
    entries: Seq<EntryModel>,
    blocks: Seq<P4kFreelistBlock>,
    options: P4kWriterOptions,
)
    requires
        prefix.len() <= plan.end_of_payload,
        plan.fits(entries, blocks.len() as int, options.sector_size),
        forall|i: int|
            0 <= i < entries.len() ==> (#[trigger] entries[i]).signature.len() == 128
                && entries[i].sha256.len() == 32,
    ensures
        ({
            let data = prefix + tail::tail_bytes(
                prefix.len() as u64,
                plan,
                entries,
                blocks,
                options,
            );
            let cache = plan.cdr_offset + plan.cdr_size + plan.names_size;
            let n = entries.len() as int;
            &&& data.len() == plan.cdr_offset + plan.eof_size
            &&& forall|j: int| 0 <= j < prefix.len() ==> data[j] == prefix[j]
            &&& forall|j: int| prefix.len() <= j < plan.end_of_payload ==> data[j] == 0
            &&& data[data.len() - 175 + 0x68] == 0
            &&& bytes::le64(data, data.len() - 175 + 0x50) == cache
            &&& bytes::le64(data, data.len() - 175 + 0x58) == 56 + 4 * n
            &&& bytes::le32(data, cache) == 24
            &&& bytes::le32(data, cache + 4) == n % 0x1_0000_0000
            &&& bytes::le32(data, cache + 8) == 16
            &&& bytes::le32(data, cache + 12) == 0
            &&& forall|j: int| cache + 16 <= j < cache + 56 + 4 * n ==> data[j] == 0
        }),
{
    let data = prefix + tail::tail_bytes(prefix.len() as u64, plan, entries, blocks, options);
    let n = entries.len() as int;
    let at = data.len() - 175;
    let cache = plan.cdr_offset + plan.cdr_size + plan.names_size;
    read_back_v2::lemma_tail_stands(prefix, plan, entries, blocks, options);
    plan.record(n, blocks.len() as int, options).law_read_back(data, at);
    lemma_cache(data, cache, n);
    assert forall|j: int| prefix.len() <= j < plan.end_of_payload implies data[j] == 0 by {
        let gap = bytes::zeros((plan.end_of_payload - prefix.len()) as nat);
        assert(gap[j - prefix.len()] == 0);
    }
}

proof fn lemma_cache(data: Seq<u8>, cache: int, n: int)
    requires
        0 <= n,
        bytes::holds_at(data, cache, tail::cache_bytes(n)),
    ensures
        bytes::le32(data, cache) == 24,
        bytes::le32(data, cache + 4) == n % 0x1_0000_0000,
        bytes::le32(data, cache + 8) == 16,
        bytes::le32(data, cache + 12) == 0,
        forall|j: int| cache + 16 <= j < cache + 56 + 4 * n ==> data[j] == 0,
{
    let part = tail::cache_bytes(n);
    bytes::lemma_number_lengths(0, 24, 0);
    bytes::lemma_number_lengths(0, 16, 0);
    bytes::lemma_number_lengths(0, 0, 0);
    bytes::lemma_number_lengths(0, (n % 0x1_0000_0000) as u32, 0);
    assert(part.len() == 56 + 4 * n);
    assert(data.subrange(cache, cache + part.len() as int) == part);
    assert(data.subrange(cache, cache + 4) =~= part.subrange(0, 4));
    assert(data.subrange(cache + 4, cache + 8) =~= part.subrange(4, 8));
    assert(data.subrange(cache + 8, cache + 12) =~= part.subrange(8, 12));
    assert(data.subrange(cache + 12, cache + 16) =~= part.subrange(12, 16));
    assert(part.subrange(0, 4) =~= bytes::u32_bytes(24));
    assert(part.subrange(4, 8) =~= bytes::u32_bytes((n % 0x1_0000_0000) as u32));
    assert(part.subrange(8, 12) =~= bytes::u32_bytes(16));
    assert(part.subrange(12, 16) =~= bytes::u32_bytes(0));
    bytes::lemma_le32_of_bytes(data, cache, 24);
    bytes::lemma_le32_of_bytes(data, cache + 4, (n % 0x1_0000_0000) as u32);
    bytes::lemma_le32_of_bytes(data, cache + 8, 16);
    bytes::lemma_le32_of_bytes(data, cache + 12, 0);
    assert forall|j: int| cache + 16 <= j < cache + 56 + 4 * n implies data[j] == 0 by {
        assert(data.subrange(cache, cache + part.len() as int)[j - cache] == data[j]);
        assert(part[j - cache] == 0);
    }
}

/// The parts of a v2 archive behind its payloads stand as close as they may: the
/// progress and the free ranges start where the payloads end, on a sector boundary
/// where that was asked for; the directory starts on the first multiple of 65536
/// behind them and what fills their sectors; and the file ends with the first sector
/// that holds the records, the names, the cache and the trailer.
pub proof fn law_v2_plan(
    position: u64,
    entries: Seq<EntryModel>,
    free: int,
    payload_end: u64,
    sector: u64,
    align_end: bool,
)
    requires
        0 < sector,
        0 <= free,
        tail::plan_outcome(position, entries, free, payload_end, sector, align_end) is Ok,
    ensures
        ({
            let plan = tail::plan_outcome(
                position,
                entries,
                free,
                payload_end,
                sector,
                align_end,
            )->Ok_0;
            let n = entries.len() as int;
            let used = 8 * n + 16 * free;
            let room = align::aligned_up(used, sector as int);
            let held = 204 * n + plan.names_size + 56 + 4 * n + 175;
            let stats = plan.stats(entries.len() as usize);
            &&& position <= payload_end
            &&& !align_end ==> plan.end_of_payload == payload_end
            &&& align_end ==> {
                &&& plan.end_of_payload % sector == 0
                &&& payload_end <= plan.end_of_payload < payload_end + sector
            }
            &&& plan.cdr_offset % 0x1_0000 == 0
            &&& plan.end_of_payload + room <= plan.cdr_offset < plan.end_of_payload + room
                + 0x1_0000
            &&& plan.cdr_size == 204 * n
            &&& plan.names_size == tail::names_length(entries, n)
            &&& plan.eof_size % sector == 0
            &&& held <= plan.eof_size < held + sector
            &&& stats.payload_end == plan.end_of_payload
            &&& stats.cdr_offset == plan.cdr_offset
            &&& stats.cdr_size == plan.cdr_size
            &&& stats.name_table_size == plan.names_size
            &&& stats.file_size == plan.cdr_offset + plan.eof_size
        }),
{
    let n = entries.len() as int;
    let used = tail::install_used(n, free);
    tail::lemma_plan_fits(position, entries, free, payload_end, sector, align_end);
    let plan = tail::plan_outcome(position, entries, free, payload_end, sector, align_end)->Ok_0;
    align::lemma_aligned_up(payload_end as int, sector as int);
    align::lemma_aligned_up(used, sector as int);
    align::lemma_aligned_up(
        plan.end_of_payload + align::aligned_up(used, sector as int),
        0x1_0000,
    );
    align::lemma_aligned_up(plan.eof_used(), sector as int);
}

/// The name table takes a byte more than each name, one behind the other.
pub proof fn law_names_length(entries: Seq<EntryModel>, e: EntryModel)
    ensures
        tail::names_length(Seq::empty(), 0) == 0,
        tail::names_length(entries.push(e), entries.len() as int + 1) == tail::names_length(
            entries,
            entries.len() as int,
        ) + encode_utf8(e.name).len() + 1,
{
    lemma_names_kept(entries, e, entries.len() as int);
}

proof fn lemma_names_kept(entries: Seq<EntryModel>, e: EntryModel, k: int)
    requires
        0 <= k <= entries.len(),
    ensures
        tail::names_length(entries.push(e), k) == tail::names_length(entries, k),
    decreases k,
{
    if k > 0 {
        lemma_names_kept(entries, e, k - 1);
    }
}

/// The parts of a v1 archive behind its payloads stand as close as they may: the
/// progress takes twelve bytes for each entry, the directory follows at once, and the
/// file ends with the first sector that holds the end records behind the directory.
pub proof fn law_v1_plan(model: BuilderModel, start: int)
    requires
        model.entries.len() <= usize::MAX,
        0 <= start,
        image_v1::v1_image_outcome(model, start) is Ok,
    ensures
        ({
            let (image, stats) = image_v1::v1_image_outcome(model, start)->Ok_0;
            let sector = model.options.sector_size;
            let content = stats.cdr_offset + stats.cdr_size + 114;
            &&& stats.entry_count == model.entries.len()
            &&& stats.cdr_offset == stats.payload_end + 12 * model.entries.len()
            &&& stats.name_table_size == 0
            &&& stats.file_size % sector == 0
            &&& content <= stats.file_size < content + sector
        }),
{
    let staged = fresh::fresh_entries(model.entries);
    let sector = model.options.sector_size;
    let n = staged.len() as int;
    let plan = image_v1::v1_plan(staged, start, sector as int);
    round_trip_v1::lemma_progress_length(staged, n);
    read_back_v1::lemma_trailer_length(n, plan.cdr_size, plan.cdr_offset, sector as u16);
    write_laws::lemma_record_above(staged, start, sector, n);
    align::lemma_aligned_up(plan.content_size, sector as int);
}


} // verus!
