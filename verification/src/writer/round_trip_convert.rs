//! What is in a v1 archive is in the v2 archive that is made of it.

use vstd::prelude::*;
use vstd::seq::*;
use vstd::seq_lib::*;

use crate::align;
use crate::archive::freelist;
use crate::archive::model::{DirectoryModel, EntryModel, P4kFreelistBlock, P4kVersion};
use crate::archive::reader;
use crate::archive::reader::{ArchiveModel, RawEntryModel};
use crate::archive::v1_install;
use crate::archive::v2;
use crate::bytes;
use crate::error::Fault;
use crate::scan;
use crate::writer::convert;
use crate::writer::convert::ConversionModel;
use crate::writer::options;
use crate::writer::options::{P4kWriteStats, P4kWriterOptions};
use crate::writer::read_back_v2;
use crate::writer::round_trip_v2;
use crate::writer::staged;
use crate::writer::tail;

verus! {

proof fn lemma_trimmed(blocks: Seq<P4kFreelistBlock>, end: u64)
    ensures
        ({
            let left = convert::trimmed(blocks, end);
            &&& left.0.len() <= blocks.len()
            &&& left.0 == blocks.take(left.0.len() as int)
            &&& left.1 <= end
        }),
    decreases blocks.len(),
{
    if blocks.len() > 0 && blocks.last().offset + blocks.last().size == end {
        lemma_trimmed(blocks.drop_last(), blocks.last().offset);
        let left = convert::trimmed(blocks.drop_last(), blocks.last().offset);
        assert(blocks.drop_last().take(left.0.len() as int) =~= blocks.take(left.0.len() as int));
    } else {
        assert(blocks.take(blocks.len() as int) =~= blocks);
    }
}

proof fn lemma_on_sectors(raw: Seq<RawEntryModel>, sector_size: u64, k: int, i: int)
    requires
        0 <= i < k,
        convert::sector_fault(raw, sector_size, k) is None,
    ensures
        raw[i].entry.compressed_size != 0 ==> raw[i].payload_offset % sector_size == 0,
    decreases k,
{
    if i < k - 1 {
        lemma_on_sectors(raw, sector_size, k - 1, i);
    }
}

/// Whether the v1 entries of a conversion can stand in a v2 archive: they have
/// proper names, their payloads share no bytes with each other and end before
/// the new directory starts, and no free range ends too high.
pub open spec fn can_convert(
    raw: Seq<RawEntryModel>,
    blocks: Seq<P4kFreelistBlock>,
    c: ConversionModel,
) -> bool {
    &&& forall|i: int|
        0 <= i < raw.len() ==> {
            &&& staged::is_entry_name((#[trigger] raw[i]).entry.name)
            &&& raw[i].entry.compressed_size != 0 ==> raw[i].payload_offset
                + raw[i].entry.compressed_size <= c.payload_end
        }
    &&& forall|i: int|
        0 <= i < blocks.len() ==> (#[trigger] blocks[i]).offset + blocks[i].size <= u64::MAX
    &&& v2::all_apart(convert::converted_entries(raw))
    &&& blocks.len() + raw.len() <= usize::MAX
}

/// Whether a v2 archive ends on a sector boundary, which it does where its
/// directory starts on one. Sectors that are not larger than the alignment of
/// the directory leave no choice.
pub open spec fn ends_on_sector(stats: P4kWriteStats, options: P4kWriterOptions) -> bool {
    options.sector_size <= tail::CDR_ALIGNMENT || stats.cdr_offset % options.sector_size == 0
}

proof fn lemma_converted_directory(
    raw: Seq<RawEntryModel>,
    blocks: Seq<P4kFreelistBlock>,
    source_len: u64,
    sector_size: u64,
    c: ConversionModel,
)
    requires
        sector_size > 0,
        convert::conversion_outcome(raw, blocks, source_len, sector_size) == Ok::<
            ConversionModel,
            Fault,
        >(c),
        can_convert(raw, blocks, c),
        forall|i: int|
            0 <= i < raw.len() ==> {
                &&& (#[trigger] raw[i]).entry.is_sized()
                &&& raw[i].entry.local_header_offset + raw[i].local_record_size <= u64::MAX
            },
    ensures
        c.entries == convert::converted_entries(raw),
        read_back_v2::is_v2_directory(
            c.entries,
            c.freelist_blocks,
            c.payload_end,
            sector_size,
        ),
{
    let n = raw.len() as int;
    let all = blocks + convert::record_blocks(raw);
    let merged = freelist::merged_blocks(all)->Some_0;
    let end = convert::max_end_outcome(raw, n)->Ok_0;
    let aligned = align::align_up_outcome(end, sector_size)->Ok_0;
    assert forall|i: int| 0 <= i < all.len() implies (#[trigger] all[i]).offset + all[i].size
        <= u64::MAX by {
        if i < blocks.len() {
            assert(all[i] == blocks[i]);
        } else {
            assert(raw[i - blocks.len()].entry.is_sized());
        }
    }
    freelist::law_merged_blocks(all, 0);
    lemma_trimmed(merged, aligned);
    assert forall|i: int| 0 <= i < c.freelist_blocks.len() implies freelist::is_free_range(
        #[trigger] c.freelist_blocks[i],
    ) by {
        assert(c.freelist_blocks[i] == merged[i]);
    }
    assert forall|i: int| 0 <= i < c.entries.len() implies read_back_v2::is_v2_entry(
        #[trigger] c.entries[i],
        c.payload_end,
        sector_size,
    ) by {
        assert(raw[i].entry.is_sized());
        assert(staged::is_entry_name(raw[i].entry.name));
        lemma_on_sectors(raw, sector_size, n, i);
        vstd::arithmetic::div_mod::lemma_small_mod(0nat, sector_size as nat);
    }
}

proof fn lemma_payload_kept(
    source: Seq<u8>,
    c: ConversionModel,
    options: P4kWriterOptions,
    at: int,
    size: int,
)
    requires
        convert::converted_outcome(source, c, options) is Ok,
        0 <= at,
        0 <= size,
        at + size <= c.payload_end,
    ensures
        bytes::holds_at(
            convert::converted_outcome(source, c, options)->Ok_0.0,
            at,
            source.subrange(at, at + size),
        ),
{
    let image = convert::converted_outcome(source, c, options)->Ok_0.0;
    assert(image.subrange(at, at + size) =~= source.subrange(at, at + size));
}

proof fn lemma_converted_opens(
    source: Seq<u8>,
    raw: Seq<RawEntryModel>,
    blocks: Seq<P4kFreelistBlock>,
    options: P4kWriterOptions,
    c: ConversionModel,
)
    requires
        options::options_fault(options) is None,
        convert::conversion_outcome(raw, blocks, source.len() as u64, options.sector_size) == Ok::<
            ConversionModel,
            Fault,
        >(c),
        can_convert(raw, blocks, c),
        forall|i: int|
            0 <= i < raw.len() ==> {
                &&& (#[trigger] raw[i]).entry.is_sized()
                &&& raw[i].entry.local_header_offset + raw[i].local_record_size <= u64::MAX
            },
        convert::converted_outcome(source, c, options) is Ok,
        convert::converted_outcome(source, c, options)->Ok_0.0.len() <= isize::MAX,
        ends_on_sector(convert::converted_outcome(source, c, options)->Ok_0.1, options),
    ensures
        ({
            let image = convert::converted_outcome(source, c, options)->Ok_0.0;
            let opened = reader::archive_outcome(image);
            &&& opened is Ok
            &&& opened->Ok_0.0 == P4kVersion::V2
            &&& opened->Ok_0.1.entries == convert::converted_entries(raw)
            &&& opened->Ok_0.1.freelist_blocks == c.freelist_blocks
            &&& opened->Ok_0.1.layout.physical_sector_size == Some(options.sector_size)
            &&& opened->Ok_0.1.layout.manifest_sha256 == Some(options.manifest_sha256@)
            &&& image.len() == convert::converted_outcome(source, c, options)->Ok_0.1.file_size
            &&& round_trip_v2::tells_layout(
                convert::converted_outcome(source, c, options)->Ok_0.1,
                raw.len(),
                opened->Ok_0.1.layout,
            )
        }),
{
    let sector = options.sector_size;
    let prefix = source.take(c.payload_end as int);
    let plan = tail::plan_outcome(
        c.payload_end,
        c.entries,
        c.freelist_blocks.len() as int,
        c.payload_end,
        sector,
        false,
    )->Ok_0;
    lemma_converted_directory(raw, blocks, source.len() as u64, sector, c);
    tail::lemma_plan_fits(
        c.payload_end,
        c.entries,
        c.freelist_blocks.len() as int,
        c.payload_end,
        sector,
        false,
    );
    assert forall|j: int| 0 <= j < c.entries.len() implies (#[trigger] c.entries[j]).signature.len()
        == 128 && c.entries[j].sha256.len() == 32 by {
        assert(read_back_v2::is_v2_entry(c.entries[j], c.payload_end, sector));
    }
    read_back_v2::lemma_tail_stands(prefix, plan, c.entries, c.freelist_blocks, options);
    if sector <= tail::CDR_ALIGNMENT {
        read_back_v2::lemma_sectors_match(
            plan,
            c.entries,
            c.freelist_blocks.len() as int,
            sector,
        );
    }
    read_back_v2::law_v2_tail_reads_back(
        prefix,
        c.entries,
        c.freelist_blocks,
        c.payload_end,
        options,
        false,
    );
}

/// Whether a file holds a v1 archive with this directory, whose entries stand
/// where `raw` says, from which the v2 archive `image` is made as planned in `c`.
pub open spec fn is_conversion(
    source: Seq<u8>,
    options: P4kWriterOptions,
    directory: DirectoryModel,
    raw: Seq<RawEntryModel>,
    c: ConversionModel,
    image: Seq<u8>,
) -> bool {
    &&& reader::archive_outcome(source) == Ok::<(P4kVersion, DirectoryModel), Fault>(
        (P4kVersion::V1, directory),
    )
    &&& convert::opened(source, P4kVersion::V1, directory).raw_entries(directory.entries.len())
        == Ok::<Seq<RawEntryModel>, Fault>(raw)
    &&& convert::conversion_outcome(
        raw,
        directory.freelist_blocks,
        source.len() as u64,
        options.sector_size,
    ) == Ok::<ConversionModel, Fault>(c)
    &&& convert::convert_outcome(source, options) is Ok
    &&& convert::convert_outcome(source, options)->Ok_0.0 == image
    &&& image.len() <= isize::MAX
    &&& can_convert(raw, directory.freelist_blocks, c)
    &&& ends_on_sector(convert::convert_outcome(source, options)->Ok_0.1, options)
}

proof fn lemma_raw_entries(a: ArchiveModel, count: nat, i: int)
    requires
        0 <= i < count,
        a.raw_entries(count) is Ok,
    ensures
        a.raw_entries(count)->Ok_0.len() == count,
        a.raw_entry(a.directory.entries[i]) == Ok::<RawEntryModel, Fault>(
            a.raw_entries(count)->Ok_0[i],
        ),
    decreases count,
{
    if count > 1 {
        lemma_raw_entries(a, (count - 1) as nat, if i < count - 1 { i } else { 0 });
    } else {
        assert(a.raw_entries(0) == Ok::<Seq<RawEntryModel>, Fault>(Seq::empty()));
    }
}

proof fn lemma_conversion(
    source: Seq<u8>,
    options: P4kWriterOptions,
    directory: DirectoryModel,
    raw: Seq<RawEntryModel>,
    c: ConversionModel,
    image: Seq<u8>,
)
    requires
        is_conversion(source, options, directory, raw, c, image),
    ensures
        raw.len() == directory.entries.len(),
        forall|i: int|
            0 <= i < raw.len() ==> {
                &&& (#[trigger] raw[i]).entry == directory.entries[i]
                &&& raw[i].entry.is_sized()
                &&& raw[i].entry.local_header_offset + raw[i].local_record_size <= u64::MAX
                &&& convert::opened(source, P4kVersion::V1, directory).raw_entry(
                    directory.entries[i],
                ) == Ok::<RawEntryModel, Fault>(raw[i])
            },
{
    let a = convert::opened(source, P4kVersion::V1, directory);
    let n = directory.entries.len();
    v1_install::law_v1_entries_sized(source, scan::content_end(source));
    if n > 0 {
        lemma_raw_entries(a, n, 0);
    } else {
        assert(a.raw_entries(0) == Ok::<Seq<RawEntryModel>, Fault>(Seq::empty()));
    }
    assert forall|i: int| 0 <= i < raw.len() implies {
        &&& (#[trigger] raw[i]).entry == directory.entries[i]
        &&& raw[i].entry.is_sized()
        &&& raw[i].entry.local_header_offset + raw[i].local_record_size <= u64::MAX
        &&& a.raw_entry(directory.entries[i]) == Ok::<RawEntryModel, Fault>(raw[i])
    } by {
        lemma_raw_entries(a, n, i);
        assert(directory.entries[i].is_sized());
    }
}

/// A v2 archive that is made of a v1 archive opens as a v2 archive with every
/// entry of the v1 archive, in the same order: its name, sizes, method,
/// checksum, times, signature, digest and install progress are kept, and the
/// payload stands at the same place with the same bytes. The sector size and
/// the manifest digest are those of the options.
pub proof fn law_convert_then_open(
    source: Seq<u8>,
    options: P4kWriterOptions,
    directory: DirectoryModel,
    raw: Seq<RawEntryModel>,
    c: ConversionModel,
    image: Seq<u8>,
)
    ensures
        is_conversion(source, options, directory, raw, c, image) ==> {
            let opened = reader::archive_outcome(image);
            &&& opened is Ok
            &&& opened->Ok_0.0 == P4kVersion::V2
            &&& opened->Ok_0.1.freelist_blocks == c.freelist_blocks
            &&& opened->Ok_0.1.layout.physical_sector_size == Some(options.sector_size)
            &&& opened->Ok_0.1.layout.manifest_sha256 == Some(options.manifest_sha256@)
            &&& image.len() == convert::convert_outcome(source, options)->Ok_0.1.file_size
            &&& round_trip_v2::tells_layout(
                convert::convert_outcome(source, options)->Ok_0.1,
                directory.entries.len(),
                opened->Ok_0.1.layout,
            )
            &&& opened->Ok_0.1.entries.len() == directory.entries.len()
            &&& forall|i: int|
                0 <= i < directory.entries.len() ==> (#[trigger] opened->Ok_0.1.entries[i])
                    == (EntryModel {
                    local_header_offset: if raw[i].entry.compressed_size == 0 {
                        0
                    } else {
                        raw[i].payload_offset
                    },
                    ..directory.entries[i]
                })
            &&& forall|i: int|
                0 <= i < raw.len() && (#[trigger] raw[i]).entry.compressed_size != 0
                    ==> bytes::holds_at(
                    image,
                    raw[i].payload_offset as int,
                    source.subrange(
                        raw[i].payload_offset as int,
                        raw[i].payload_offset + raw[i].entry.compressed_size,
                    ),
                )
        },
{
    if is_conversion(source, options, directory, raw, c, image) {
        lemma_conversion(source, options, directory, raw, c, image);
        lemma_converted_opens(source, raw, directory.freelist_blocks, options, c);
        assert forall|i: int|
            0 <= i < raw.len() && (#[trigger] raw[i]).entry.compressed_size != 0 implies bytes::holds_at(
            image,
            raw[i].payload_offset as int,
            source.subrange(
                raw[i].payload_offset as int,
                raw[i].payload_offset + raw[i].entry.compressed_size,
            ),
        ) by {
            lemma_payload_kept(
                source,
                c,
                options,
                raw[i].payload_offset as int,
                raw[i].entry.compressed_size as int,
            );
        }
    }
}

/// Extracting an entry of a v2 archive that is made of a v1 archive gives what
/// extracting the entry of the v1 archive gives.
pub proof fn law_convert_then_extract(
    source: Seq<u8>,
    options: P4kWriterOptions,
    directory: DirectoryModel,
    raw: Seq<RawEntryModel>,
    c: ConversionModel,
    image: Seq<u8>,
    archive: ArchiveModel,
    i: int,
)
    ensures
        is_conversion(source, options, directory, raw, c, image) && archive.data == image
            && archive.is_read() && 0 <= i < directory.entries.len() ==> archive.extracted(
            archive.directory.entries[i],
        ) == convert::opened(source, P4kVersion::V1, directory).extracted(directory.entries[i]),
{
    if is_conversion(source, options, directory, raw, c, image) && archive.data == image
        && archive.is_read() && 0 <= i < directory.entries.len() {
        let e = directory.entries[i];
        let kept = archive.directory.entries[i];
        let a = convert::opened(source, P4kVersion::V1, directory);
        let at = raw[i].payload_offset as int;
        law_convert_then_open(source, options, directory, raw, c, image);
        lemma_conversion(source, options, directory, raw, c, image);
        assert(raw[i].entry == e);
        assert(a.location(e) is Ok);
        assert(isize::MAX < usize::MAX);
        if e.compressed_size == 0 {
            assert(image.subrange(0, 0) =~= source.subrange(at, at));
        } else {
            assert(image.subrange(at, at + e.compressed_size) =~= source.subrange(
                at,
                at + e.compressed_size,
            ));
        }
        assert(archive.stored(kept) is Ok);
        assert(archive.stored(kept)->Ok_0.0 == a.stored(e)->Ok_0.0);
    }
}

/// The v1 archive in a file.
pub open spec fn v1_archive(source: Seq<u8>) -> ArchiveModel {
    convert::opened(source, P4kVersion::V1, reader::archive_outcome(source)->Ok_0.1)
}

/// The v2 archive in a file.
pub open spec fn v2_archive(image: Seq<u8>) -> ArchiveModel {
    convert::opened(image, P4kVersion::V2, reader::archive_outcome(image)->Ok_0.1)
}

/// Whether the archive that a v1 archive is converted to is one that opens: its
/// entries can stand in a v2 archive, its length is one that a file can have,
/// and it ends on a sector boundary.
pub open spec fn is_convertible(source: Seq<u8>, options: P4kWriterOptions) -> bool {
    let a = v1_archive(source);
    let c = convert::archive_conversion(a, options.sector_size)->Ok_0;
    &&& can_convert(
        a.raw_entries(a.directory.entries.len())->Ok_0,
        a.directory.freelist_blocks,
        c,
    )
    &&& ends_on_sector(convert::convert_outcome(source, options)->Ok_0.1, options)
    &&& convert::convert_outcome(source, options)->Ok_0.0.len() <= isize::MAX
}

/// Whether an entry of a v2 archive is an entry of a v1 archive: nothing but its
/// offset differs, which is that of the payload, or zero for an empty one, the
/// same bytes stand there, and the same comes out of them.
pub open spec fn keeps_entry(
    a: ArchiveModel,
    e: EntryModel,
    b: ArchiveModel,
    kept: EntryModel,
) -> bool {
    let at = a.raw_entry(e)->Ok_0.payload_offset;
    &&& a.raw_entry(e) is Ok
    &&& kept == (EntryModel {
        local_header_offset: if e.compressed_size == 0 {
            0
        } else {
            at
        },
        ..e
    })
    &&& e.compressed_size != 0 ==> bytes::holds_at(
        b.data,
        at as int,
        a.data.subrange(at as int, at + e.compressed_size),
    )
    &&& b.extracted(kept) == a.extracted(e)
}

/// Converting a v1 archive keeps everything that is in it: where it succeeds,
/// the new file opens as a v2 archive with as many entries, in the same order,
/// each with the same name, sizes, method, checksum, times, flags, signature
/// and digest, and with the same payload bytes at the same place.
pub proof fn law_conversion_keeps_entries(source: Seq<u8>, options: P4kWriterOptions)
    ensures
        convert::convert_outcome(source, options) is Ok ==> {
            &&& reader::archive_outcome(source) is Ok
            &&& reader::archive_outcome(source)->Ok_0.0 == P4kVersion::V1
        },
        convert::convert_outcome(source, options) is Ok && is_convertible(source, options) ==> {
            let image = convert::convert_outcome(source, options)->Ok_0.0;
            let a = v1_archive(source);
            let b = v2_archive(image);
            &&& reader::archive_outcome(image) is Ok
            &&& reader::archive_outcome(image)->Ok_0.0 == P4kVersion::V2
            &&& b.directory.layout.physical_sector_size == Some(options.sector_size)
            &&& b.directory.layout.manifest_sha256 == Some(options.manifest_sha256@)
            &&& b.directory.entries.len() == a.directory.entries.len()
            &&& forall|i: int|
                0 <= i < a.directory.entries.len() ==> keeps_entry(
                    a,
                    #[trigger] a.directory.entries[i],
                    b,
                    b.directory.entries[i],
                )
        },
{
    if convert::convert_outcome(source, options) is Ok && is_convertible(source, options) {
        let image = convert::convert_outcome(source, options)->Ok_0.0;
        let a = v1_archive(source);
        let b = v2_archive(image);
        let directory = a.directory;
        let raw = a.raw_entries(directory.entries.len())->Ok_0;
        let c = convert::archive_conversion(a, options.sector_size)->Ok_0;
        assert(is_conversion(source, options, directory, raw, c, image));
        law_convert_then_open(source, options, directory, raw, c, image);
        lemma_conversion(source, options, directory, raw, c, image);
        assert forall|i: int| 0 <= i < directory.entries.len() implies keeps_entry(
            a,
            #[trigger] directory.entries[i],
            b,
            b.directory.entries[i],
        ) by {
            assert(raw[i].entry == directory.entries[i]);
            assert(b.is_read());
            law_convert_then_extract(source, options, directory, raw, c, image, b, i);
        }
    }
}

proof fn lemma_trimmed_covers(blocks: Seq<P4kFreelistBlock>, end: u64, x: int)
    requires
        x < convert::trimmed(blocks, end).1,
    ensures
        freelist::covers(convert::trimmed(blocks, end).0, x) <==> freelist::covers(blocks, x),
    decreases blocks.len(),
{
    if blocks.len() > 0 && blocks.last().offset + blocks.last().size == end {
        let short = blocks.drop_last();
        lemma_trimmed(short, blocks.last().offset);
        lemma_trimmed_covers(short, blocks.last().offset, x);
        if freelist::covers(short, x) {
            let i = choose|i: int|
                0 <= i < short.len() && (#[trigger] short[i]).offset <= x < short[i].offset
                    + short[i].size;
            assert(blocks[i] == short[i]);
        }
        if freelist::covers(blocks, x) {
            let i = choose|i: int|
                0 <= i < blocks.len() && (#[trigger] blocks[i]).offset <= x < blocks[i].offset
                    + blocks[i].size;
            assert(short[i] == blocks[i]);
        }
    }
}

/// What is free in front of the new directory of a converted archive is what
/// was free before and what the local records took, which a v2 archive does
/// without.
pub proof fn law_convert_keeps_free_ranges(
    raw: Seq<RawEntryModel>,
    blocks: Seq<P4kFreelistBlock>,
    source_len: u64,
    sector_size: u64,
    c: ConversionModel,
    x: int,
)
    requires
        convert::conversion_outcome(raw, blocks, source_len, sector_size) == Ok::<
            ConversionModel,
            Fault,
        >(c),
        blocks.len() + raw.len() <= usize::MAX,
        forall|i: int|
            0 <= i < raw.len() ==> (#[trigger] raw[i]).entry.local_header_offset
                + raw[i].local_record_size <= u64::MAX,
        forall|i: int|
            0 <= i < blocks.len() ==> (#[trigger] blocks[i]).offset + blocks[i].size <= u64::MAX,
        x < c.payload_end,
    ensures
        freelist::covers(c.freelist_blocks, x) <==> {
            ||| freelist::covers(blocks, x)
            ||| freelist::covers(convert::record_blocks(raw), x)
        },
{
    let records = convert::record_blocks(raw);
    let all = blocks + records;
    let merged = freelist::merged_blocks(all)->Some_0;
    let end = convert::max_end_outcome(raw, raw.len() as int)->Ok_0;
    let aligned = align::align_up_outcome(end, sector_size)->Ok_0;
    assert forall|i: int| 0 <= i < all.len() implies (#[trigger] all[i]).offset + all[i].size
        <= u64::MAX by {
        if i < blocks.len() {
            assert(all[i] == blocks[i]);
        } else {
            assert(raw[i - blocks.len()].entry.local_header_offset == all[i].offset);
        }
    }
    freelist::law_merged_blocks(all, x);
    lemma_trimmed_covers(merged, aligned, x);
    if freelist::covers(blocks, x) {
        let i = choose|i: int|
            0 <= i < blocks.len() && (#[trigger] blocks[i]).offset <= x < blocks[i].offset
                + blocks[i].size;
        assert(all[i] == blocks[i]);
    }
    if freelist::covers(records, x) {
        let i = choose|i: int|
            0 <= i < records.len() && (#[trigger] records[i]).offset <= x < records[i].offset
                + records[i].size;
        assert(all[blocks.len() + i] == records[i]);
    }
    if freelist::covers(all, x) {
        let i = choose|i: int|
            0 <= i < all.len() && (#[trigger] all[i]).offset <= x < all[i].offset + all[i].size;
        if i < blocks.len() {
            assert(blocks[i] == all[i]);
        } else {
            assert(records[i - blocks.len()] == all[i]);
        }
    }
}

} // verus!
