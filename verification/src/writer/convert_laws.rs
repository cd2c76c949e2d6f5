//! When an archive is converted, and what is kept free.
use vstd::prelude::*;
use vstd::utf8::*;

use crate::align;
use crate::archive::freelist;
use crate::archive::model::{P4kFreelistBlock, P4kVersion};
use crate::archive::reader;
use crate::archive::reader::RawEntryModel;
use crate::error::Fault;
use crate::writer::convert;
use crate::writer::convert::ConversionModel;
use crate::writer::options::P4kWriterOptions;
use crate::writer::round_trip_convert;
use crate::writer::write_laws;

verus! {

/// The payloads end where the last of those that are not empty ends, and at the start
/// of the file where all are empty.
pub proof fn law_payloads_end(raw: Seq<RawEntryModel>, k: int, end: u64)
    requires
        0 <= k <= raw.len(),
    ensures
        convert::max_end_outcome(raw, k) == Ok::<u64, Fault>(end) <==> {
            &&& forall|i: int|
                0 <= i < k && (#[trigger] raw[i]).entry.compressed_size > 0 ==> raw[i].payload_offset
                    + raw[i].entry.compressed_size <= end
            &&& end == 0 || exists|i: int|
                0 <= i < k && (#[trigger] raw[i]).entry.compressed_size > 0 && raw[i].payload_offset
                    + raw[i].entry.compressed_size == end
        },
    decreases k,
{
    if k > 0 {
        let r = raw[k - 1];
        let behind = r.payload_offset + r.entry.compressed_size;
        law_payloads_end(raw, k - 1, end);
        if convert::max_end_outcome(raw, k - 1) is Ok {
            law_payloads_end(raw, k - 1, convert::max_end_outcome(raw, k - 1)->Ok_0);
        } else {
            lemma_end_overflows(raw, k - 1);
        }
        if forall|i: int|
            0 <= i < k && (#[trigger] raw[i]).entry.compressed_size > 0 ==> raw[i].payload_offset
                + raw[i].entry.compressed_size <= end {
            assert(r.entry.compressed_size > 0 ==> raw[k - 1].payload_offset
                + raw[k - 1].entry.compressed_size <= end);
        }
    }
}

proof fn lemma_end_overflows(raw: Seq<RawEntryModel>, k: int)
    requires
        0 <= k <= raw.len(),
    ensures
        convert::max_end_outcome(raw, k) is Err ==> exists|i: int|
            0 <= i < k && (#[trigger] raw[i]).entry.compressed_size > 0 && raw[i].payload_offset
                + raw[i].entry.compressed_size > u64::MAX,
    decreases k,
{
    if k > 0 {
        lemma_end_overflows(raw, k - 1);
        assert(raw[k - 1] == raw[k - 1]);
    }
}

/// Free ranges that reach up to the end one behind the other are taken off, the last
/// first, and no other.
pub proof fn law_trimmed(blocks: Seq<P4kFreelistBlock>, end: u64)
    requires
        forall|i: int|
            0 <= i < blocks.len() ==> (#[trigger] blocks[i]).offset + blocks[i].size <= u64::MAX,
    ensures
        ({
            let (kept, stop, failed) = convert::trimmed(blocks, end);
            let n = kept.len() as int;
            &&& !failed
            &&& kept.len() <= blocks.len()
            &&& kept == blocks.take(n)
            &&& n == blocks.len() ==> stop == end
            &&& n < blocks.len() ==> stop == blocks[n].offset
            &&& forall|i: int|
                n <= i < blocks.len() ==> (#[trigger] reach_of(blocks, i)) == if i + 1
                    == blocks.len() {
                    end as int
                } else {
                    blocks[i + 1].offset as int
                }
            &&& n > 0 ==> reach_of(blocks, n - 1) != stop
        }),
    decreases blocks.len(),
{
    if blocks.len() > 0 && reach_of(blocks, blocks.len() - 1) == end {
        let short = blocks.drop_last();
        let last = blocks.last();
        assert forall|i: int| 0 <= i < short.len() implies (#[trigger] short[i]).offset
            + short[i].size <= u64::MAX by {
            assert(blocks[i].offset + blocks[i].size <= u64::MAX);
        }
        law_trimmed(short, last.offset);
        let (kept, stop, failed) = convert::trimmed(short, last.offset);
        let n = kept.len() as int;
        assert(short.take(n) =~= blocks.take(n));
        assert forall|i: int| n <= i < blocks.len() implies (#[trigger] reach_of(blocks, i))
            == if i + 1 == blocks.len() {
            end as int
        } else {
            blocks[i + 1].offset as int
        } by {
            if i + 1 < blocks.len() {
                assert(reach_of(short, i) == reach_of(blocks, i));
            }
        }
        if n > 0 {
            assert(reach_of(short, n - 1) == reach_of(blocks, n - 1));
        }
    } else {
        assert(blocks.take(blocks.len() as int) =~= blocks);
        if blocks.len() > 0 {
            assert(blocks[blocks.len() - 1].offset + blocks[blocks.len() - 1].size <= u64::MAX);
        }
    }
}

/// Where the range with the given index ends.
pub open spec fn reach_of(blocks: Seq<P4kFreelistBlock>, i: int) -> int {
    blocks[i].offset + blocks[i].size
}

/// Every payload that is not empty lies in the source and starts on a sector boundary.
pub open spec fn are_placed(raw: Seq<RawEntryModel>, length: u64, sector: u64) -> bool {
    forall|i: int|
        0 <= i < raw.len() && (#[trigger] raw[i]).entry.compressed_size > 0 ==> {
            &&& raw[i].payload_offset + raw[i].entry.compressed_size <= length
            &&& raw[i].payload_offset % sector == 0
        }
}

proof fn lemma_on_sector(raw: Seq<RawEntryModel>, sector: u64, k: int)
    requires
        0 <= k <= raw.len(),
    ensures
        convert::sector_fault(raw, sector, k) is None <==> forall|i: int|
            0 <= i < k && (#[trigger] raw[i]).entry.compressed_size > 0 ==> raw[i].payload_offset
                % sector == 0,
    decreases k,
{
    if k > 0 {
        lemma_on_sector(raw, sector, k - 1);
        if forall|i: int|
            0 <= i < k && (#[trigger] raw[i]).entry.compressed_size > 0 ==> raw[i].payload_offset
                % sector == 0 {
            assert(raw[k - 1].entry.compressed_size > 0 ==> raw[k - 1].payload_offset % sector
                == 0);
        }
    }
}

/// Entries can be taken over where they are if and only if every payload that is not
/// empty lies in the source and starts on a sector boundary. Each is then taken over
/// as it is, but for its offset, which is that of its payload, or the start of the
/// file where it has none.
pub proof fn law_taken_over(
    raw: Seq<RawEntryModel>,
    blocks: Seq<P4kFreelistBlock>,
    length: u64,
    sector: u64,
)
    requires
        0 < sector,
        length + sector <= u64::MAX,
        blocks.len() + raw.len() <= usize::MAX,
        forall|i: int|
            0 <= i < raw.len() ==> (#[trigger] raw[i]).entry.local_header_offset
                + raw[i].local_record_size <= u64::MAX,
        forall|i: int|
            0 <= i < blocks.len() ==> (#[trigger] blocks[i]).offset + blocks[i].size <= u64::MAX,
    ensures
        convert::conversion_outcome(raw, blocks, length, sector) is Ok <==> are_placed(
            raw,
            length,
            sector,
        ),
        convert::conversion_outcome(raw, blocks, length, sector) is Ok ==> {
            let c = convert::conversion_outcome(raw, blocks, length, sector)->Ok_0;
            &&& c.entries.len() == raw.len()
            &&& forall|i: int|
                0 <= i < raw.len() ==> #[trigger] c.entries[i]
                    == crate::archive::model::EntryModel {
                    local_header_offset: if raw[i].entry.compressed_size == 0 {
                        0
                    } else {
                        raw[i].payload_offset
                    },
                    ..raw[i].entry
                }
        },
{
    let n = raw.len() as int;
    let all = blocks + convert::record_blocks(raw);
    lemma_on_sector(raw, sector, n);
    assert forall|i: int| 0 <= i < all.len() implies (#[trigger] all[i]).offset + all[i].size
        <= u64::MAX by {
        if i < blocks.len() {
            assert(blocks[i].offset + blocks[i].size <= u64::MAX);
        } else {
            let r = raw[i - blocks.len()];
            assert(r.entry.local_header_offset + r.local_record_size <= u64::MAX);
        }
    }
    freelist::law_merged_blocks(all, 0);
    let merged = freelist::merged_blocks(all)->Some_0;
    assert forall|i: int| 0 <= i < merged.len() implies (#[trigger] merged[i]).offset
        + merged[i].size <= u64::MAX by {
        assert(freelist::is_free_range(merged[i]));
    }
    if convert::max_end_outcome(raw, n) is Ok {
        let end = convert::max_end_outcome(raw, n)->Ok_0;
        law_payloads_end(raw, n, end);
        if end <= length {
            align::lemma_aligned_up(end as int, sector as int);
            law_trimmed(merged, align::aligned_up(end as int, sector as int) as u64);
        }
        if are_placed(raw, length, sector) {
            assert(end <= length) by {
                if end > 0 {
                    let i = choose|i: int|
                        0 <= i < n && (#[trigger] raw[i]).entry.compressed_size > 0
                            && raw[i].payload_offset + raw[i].entry.compressed_size == end;
                    assert(raw[i].payload_offset + raw[i].entry.compressed_size <= length);
                }
            }
        }
    } else {
        lemma_end_overflows(raw, n);
    }
}

/// A version 1 archive is converted where every entry has its own header, every payload
/// that is not empty starts on a sector boundary of the new archive, what is kept
/// lies in the file, and the numbers in the new archive can hold its size. The new
/// file starts with the payloads of the old, byte by byte.
pub proof fn law_is_converted(
    source: Seq<u8>,
    options: P4kWriterOptions,
    raw: Seq<RawEntryModel>,
    c: ConversionModel,
    most: int,
)
    requires
        align::is_pow2(options.sector_size as nat),
        0 <= most,
        204 * raw.len() <= usize::MAX,
        c.entries.len() == raw.len(),
        forall|i: int|
            0 <= i < c.entries.len() ==> encode_utf8((#[trigger] c.entries[i]).name).len() <= most,
        c.payload_end + raw.len() * (most + 1) + 216 * raw.len() + 16 * c.freelist_blocks.len() + 4
            * options.sector_size + 0x1_1000 <= u64::MAX,
        c.payload_end <= source.len(),
    ensures
        ({
            let opened = reader::archive_outcome(source);
            &&& opened is Ok
            &&& opened->Ok_0.0 == P4kVersion::V1
            &&& convert::opened(source, P4kVersion::V1, opened->Ok_0.1).raw_entries(
                opened->Ok_0.1.entries.len(),
            ) == Ok::<Seq<RawEntryModel>, Fault>(raw)
            &&& convert::conversion_outcome(
                raw,
                opened->Ok_0.1.freelist_blocks,
                source.len() as u64,
                options.sector_size,
            ) == Ok::<ConversionModel, Fault>(c)
        }) ==> {
            &&& convert::convert_outcome(source, options) is Ok
            &&& forall|j: int|
                0 <= j < c.payload_end
                    ==> #[trigger] convert::convert_outcome(source, options)->Ok_0.0[j]
                    == source[j]
        },
{
    write_laws::lemma_plan_found(
        c.entries,
        c.freelist_blocks.len() as int,
        c.payload_end,
        options.sector_size,
        false,
        most,
    );
}

/// An archive of version 2 is not converted, and neither is any with options that have
/// another sector size than a power of two.
pub proof fn law_is_not_converted(source: Seq<u8>, options: P4kWriterOptions)
    ensures
        reader::archive_outcome(source) is Err || reader::archive_outcome(source)->Ok_0.0
            == P4kVersion::V2 || !align::is_pow2(options.sector_size as nat)
            ==> convert::convert_outcome(source, options) is Err,
{
}

/// What is free in front of the new directory of a converted archive is what was free
/// before, and what the local records took, from the offset of each entry on and as
/// far as its record reached.
pub proof fn law_records_are_freed(
    raw: Seq<RawEntryModel>,
    blocks: Seq<P4kFreelistBlock>,
    length: u64,
    sector: u64,
    c: ConversionModel,
    x: int,
)
    requires
        convert::conversion_outcome(raw, blocks, length, sector) == Ok::<ConversionModel, Fault>(c),
        blocks.len() + raw.len() <= usize::MAX,
        forall|i: int|
            0 <= i < raw.len() ==> (#[trigger] raw[i]).entry.local_header_offset
                + raw[i].local_record_size <= u64::MAX,
        forall|i: int|
            0 <= i < blocks.len() ==> (#[trigger] blocks[i]).offset + blocks[i].size <= u64::MAX,
        x < c.payload_end,
    ensures
        freelist::covers(c.freelist_blocks, x) <==> {
            ||| exists|i: int|
                0 <= i < blocks.len() && (#[trigger] blocks[i]).offset <= x < reach_of(blocks, i)
            ||| exists|i: int|
                0 <= i < raw.len() && (#[trigger] raw[i]).entry.local_header_offset <= x
                    < raw[i].entry.local_header_offset + raw[i].local_record_size
        },
{
    let records = convert::record_blocks(raw);
    round_trip_convert::law_convert_keeps_free_ranges(raw, blocks, length, sector, c, x);
    if freelist::covers(blocks, x) {
        let i = choose|i: int|
            0 <= i < blocks.len() && (#[trigger] blocks[i]).offset <= x < blocks[i].offset
                + blocks[i].size;
        assert(x < reach_of(blocks, i));
    }
    if freelist::covers(records, x) {
        let i = choose|i: int|
            0 <= i < records.len() && (#[trigger] records[i]).offset <= x < records[i].offset
                + records[i].size;
        assert(raw[i].entry.local_header_offset <= x);
    }
    if exists|i: int|
        0 <= i < raw.len() && (#[trigger] raw[i]).entry.local_header_offset <= x
            < raw[i].entry.local_header_offset + raw[i].local_record_size {
        let i = choose|i: int|
            0 <= i < raw.len() && (#[trigger] raw[i]).entry.local_header_offset <= x
                < raw[i].entry.local_header_offset + raw[i].local_record_size;
        assert(records[i].offset <= x);
    }
    if exists|i: int|
        0 <= i < blocks.len() && (#[trigger] blocks[i]).offset <= x < reach_of(blocks, i) {
        let i = choose|i: int|
            0 <= i < blocks.len() && (#[trigger] blocks[i]).offset <= x < reach_of(blocks, i);
        assert(x < blocks[i].offset + blocks[i].size);
    }
}

/// The payloads of a converted archive end at the first sector boundary behind the last
/// of them, less the free ranges that reach up to there.
pub proof fn law_kept_up_to(
    raw: Seq<RawEntryModel>,
    blocks: Seq<P4kFreelistBlock>,
    length: u64,
    sector: u64,
    c: ConversionModel,
    end: u64,
)
    requires
        0 < sector,
        convert::conversion_outcome(raw, blocks, length, sector) == Ok::<ConversionModel, Fault>(c),
        convert::max_end_outcome(raw, raw.len() as int) == Ok::<u64, Fault>(end),
    ensures
        ({
            let merged = freelist::merged_blocks(blocks + convert::record_blocks(raw))->Some_0;
            let stop = align::aligned_up(end as int, sector as int);
            &&& freelist::merged_blocks(blocks + convert::record_blocks(raw)) is Some
            &&& end <= stop < end + sector
            &&& stop % sector as int == 0
            &&& end <= length
            &&& c.freelist_blocks == convert::trimmed(merged, stop as u64).0
            &&& c.payload_end == convert::trimmed(merged, stop as u64).1
        }),
{
    align::lemma_aligned_up(end as int, sector as int);
}


} // verus!
