//! A written v2 archive reads back as what was written.

use vstd::prelude::*;
use vstd::seq::*;
use vstd::seq_lib::*;
use vstd::utf8::*;

use crate::align;
use crate::archive::freelist;
use crate::archive::model::{
    DirectoryModel, EntryModel, LayoutModel, P4kFreelistBlock, P4kVersion,
};
use crate::archive::reader;
use crate::archive::v2;
use crate::archive::v2::V2Trailer;
use crate::bytes;
use crate::error::Fault;
use crate::scan;
use crate::writer::options::P4kWriterOptions;
use crate::writer::staged;
use crate::writer::tail;
use crate::writer::tail::V2Plan;
use crate::zip;
use crate::zip::{CDR_V2_ENTRY_SIZE, EOCD_V2_SIZE};

verus! {

/// Whether an entry can stand in the directory of a v2 archive whose payloads
/// end at `end`.
pub open spec fn is_v2_entry(e: EntryModel, end: u64, sector_size: u64) -> bool {
    &&& staged::is_entry_name(e.name)
    &&& e.signature.len() == 128
    &&& e.sha256.len() == 32
    &&& e.local_header_offset % sector_size == 0
    &&& e.local_header_offset + e.compressed_size <= end
    &&& e.bytes_already_written <= e.compressed_size
}

/// Whether a directory can be written behind payloads that end at `end`.
pub open spec fn is_v2_directory(
    entries: Seq<EntryModel>,
    blocks: Seq<P4kFreelistBlock>,
    end: u64,
    sector_size: u64,
) -> bool {
    &&& forall|i: int| 0 <= i < entries.len() ==> is_v2_entry(#[trigger] entries[i], end, sector_size)
    &&& forall|i: int| 0 <= i < blocks.len() ==> freelist::is_free_range(#[trigger] blocks[i])
    &&& v2::all_apart(entries)
}

/// What the parts of a written tail are in the file.
pub open spec fn tail_stands(
    data: Seq<u8>,
    plan: V2Plan,
    entries: Seq<EntryModel>,
    blocks: Seq<P4kFreelistBlock>,
    options: P4kWriterOptions,
) -> bool {
    let n = entries.len() as int;
    let m = blocks.len() as int;
    let end = plan.end_of_payload as int;
    let cdr = plan.cdr_offset as int;
    let names = cdr + plan.cdr_size;
    &&& data.len() == cdr + plan.eof_size
    &&& bytes::holds_at(data, end, tail::install_bytes(entries, n))
    &&& bytes::holds_at(data, end + 8 * n, tail::freelist_bytes(blocks, m))
    &&& bytes::zero_between(data, end + tail::install_used(n, m), cdr)
    &&& bytes::holds_at(data, cdr, tail::directory_bytes(entries, n))
    &&& bytes::holds_at(data, names, tail::name_bytes(entries, n))
    &&& bytes::holds_at(data, names + plan.names_size, tail::cache_bytes(n))
    &&& bytes::zero_between(data, cdr + plan.eof_used() - EOCD_V2_SIZE, data.len() - EOCD_V2_SIZE)
    &&& bytes::holds_at(data, data.len() - EOCD_V2_SIZE, plan.record(n, m, options).bytes())
}

proof fn lemma_install_length(entries: Seq<EntryModel>, k: int)
    requires
        0 <= k,
    ensures
        tail::install_bytes(entries, k).len() == 8 * k,
    decreases k,
{
    if k > 0 {
        lemma_install_length(entries, k - 1);
    }
}

proof fn lemma_freelist_length(blocks: Seq<P4kFreelistBlock>, k: int)
    requires
        0 <= k,
    ensures
        tail::freelist_bytes(blocks, k).len() == 16 * k,
    decreases k,
{
    if k > 0 {
        lemma_freelist_length(blocks, k - 1);
    }
}

proof fn lemma_record_length(e: EntryModel, name_offset: u64)
    requires
        e.signature.len() == 128,
        e.sha256.len() == 32,
    ensures
        tail::record_bytes(e, name_offset).len() == CDR_V2_ENTRY_SIZE,
{
    reveal(tail::record_bytes);
    let flag: u16 = if e.is_encrypted {
        1
    } else {
        0
    };
    let p0 = bytes::u16_bytes(e.compression_method.id());
    assert(p0.len() == 0x2) by {
        bytes::lemma_number_lengths(e.compression_method.id(), 0, 0);
    }
    let p1 = p0 + bytes::u16_bytes(e.last_mod_file_time);
    assert(p1.len() == 0x4) by {
        bytes::lemma_number_lengths(e.last_mod_file_time, 0, 0);
    }
    let p2 = p1 + bytes::u16_bytes(e.last_mod_file_date);
    assert(p2.len() == 0x6) by {
        bytes::lemma_number_lengths(e.last_mod_file_date, 0, 0);
    }
    let p3 = p2 + bytes::u32_bytes(e.crc32);
    assert(p3.len() == 0xa) by {
        bytes::lemma_number_lengths(0, e.crc32, 0);
    }
    let p4 = p3 + bytes::u64_bytes(e.compressed_size);
    assert(p4.len() == 0x12) by {
        bytes::lemma_number_lengths(0, 0, e.compressed_size);
    }
    let p5 = p4 + bytes::u64_bytes(e.uncompressed_size);
    assert(p5.len() == 0x1a) by {
        bytes::lemma_number_lengths(0, 0, e.uncompressed_size);
    }
    let p6 = p5 + bytes::u64_bytes(e.local_header_offset);
    assert(p6.len() == 0x22) by {
        bytes::lemma_number_lengths(0, 0, e.local_header_offset);
    }
    let p7 = p6 + bytes::u64_bytes(name_offset);
    assert(p7.len() == 0x2a) by {
        bytes::lemma_number_lengths(0, 0, name_offset);
    }
    let p8 = p7 + e.signature;
    assert(p8.len() == 0xaa);
    let p9 = p8 + bytes::u16_bytes(flag);
    assert(p9.len() == 0xac) by {
        bytes::lemma_number_lengths(flag, 0, 0);
    }
    let p10 = p9 + e.sha256;
    assert(p10.len() == 0xcc);
}

proof fn lemma_directory_length(entries: Seq<EntryModel>, k: int)
    requires
        0 <= k <= entries.len(),
        forall|i: int|
            0 <= i < k ==> (#[trigger] entries[i]).signature.len() == 128
                && entries[i].sha256.len() == 32,
    ensures
        tail::directory_bytes(entries, k).len() == k * CDR_V2_ENTRY_SIZE,
    decreases k,
{
    if k > 0 {
        lemma_directory_length(entries, k - 1);
        assert(entries[k - 1].signature.len() == 128);
        lemma_record_length(entries[k - 1], tail::names_length(entries, k - 1) as u64);
    }
}

proof fn lemma_names_bytes_length(entries: Seq<EntryModel>, k: int)
    requires
        0 <= k,
    ensures
        tail::name_bytes(entries, k).len() == tail::names_length(entries, k),
    decreases k,
{
    if k > 0 {
        lemma_names_bytes_length(entries, k - 1);
    }
}

proof fn lemma_cache_length(count: int)
    requires
        0 <= count,
    ensures
        tail::cache_bytes(count).len() == tail::cache_length(count),
{
    bytes::lemma_number_lengths(0, tail::TRIE_NODES_SIZE, 0);
    bytes::lemma_number_lengths(0, tail::TRIE_END_SIZE, 0);
    bytes::lemma_number_lengths(0, (count % 0x1_0000_0000) as u32, 0);
    bytes::lemma_number_lengths(0, 0, 0);
}

proof fn lemma_zeros_stand(s: Seq<u8>, at: int, n: nat)
    requires
        bytes::holds_at(s, at, bytes::zeros(n)),
    ensures
        bytes::zero_between(s, at, at + n),
{
    let p = s.subrange(at, at + n);
    assert forall|i: int| at <= i < at + n implies s[i] == 0 by {
        assert(p[i - at] == s[i]);
    }
}

proof fn lemma_install_stands(
    data: Seq<u8>,
    plan: V2Plan,
    entries: Seq<EntryModel>,
    blocks: Seq<P4kFreelistBlock>,
    sector_size: u64,
)
    requires
        plan.fits(entries, blocks.len() as int, sector_size),
        bytes::holds_at(
            data,
            plan.end_of_payload as int,
            tail::install_block(plan, entries, blocks),
        ),
    ensures
        ({
            let n = entries.len() as int;
            let m = blocks.len() as int;
            let end = plan.end_of_payload as int;
            &&& bytes::holds_at(data, end, tail::install_bytes(entries, n))
            &&& bytes::holds_at(data, end + 8 * n, tail::freelist_bytes(blocks, m))
            &&& bytes::zero_between(
                data,
                end + tail::install_used(n, m),
                plan.cdr_offset as int,
            )
        }),
{
    let n = entries.len() as int;
    let m = blocks.len() as int;
    let end = plan.end_of_payload as int;
    let i1 = tail::install_bytes(entries, n);
    let i2 = tail::freelist_bytes(blocks, m);
    let i3 = bytes::zeros((plan.cdr_offset - end - tail::install_used(n, m)) as nat);
    lemma_install_length(entries, n);
    lemma_freelist_length(blocks, m);
    bytes::lemma_holds_split(data, end, i1 + i2, i3);
    bytes::lemma_holds_split(data, end, i1, i2);
    lemma_zeros_stand(data, end + tail::install_used(n, m), i3.len());
}

proof fn lemma_trailing_stands(
    data: Seq<u8>,
    plan: V2Plan,
    entries: Seq<EntryModel>,
    freelist_count: int,
    options: P4kWriterOptions,
)
    requires
        plan.fits(entries, freelist_count, options.sector_size),
        forall|i: int|
            0 <= i < entries.len() ==> (#[trigger] entries[i]).signature.len() == 128
                && entries[i].sha256.len() == 32,
        bytes::holds_at(
            data,
            plan.cdr_offset as int,
            tail::trailing_block(plan, entries, freelist_count, options),
        ),
        data.len() == plan.cdr_offset + plan.eof_size,
    ensures
        ({
            let n = entries.len() as int;
            let cdr = plan.cdr_offset as int;
            let names = cdr + plan.cdr_size;
            &&& bytes::holds_at(data, cdr, tail::directory_bytes(entries, n))
            &&& bytes::holds_at(data, names, tail::name_bytes(entries, n))
            &&& bytes::holds_at(data, names + plan.names_size, tail::cache_bytes(n))
            &&& bytes::zero_between(
                data,
                cdr + plan.eof_used() - EOCD_V2_SIZE,
                data.len() - EOCD_V2_SIZE,
            )
            &&& bytes::holds_at(
                data,
                data.len() - EOCD_V2_SIZE,
                plan.record(n, freelist_count, options).bytes(),
            )
        }),
{
    let n = entries.len() as int;
    let cdr = plan.cdr_offset as int;
    let t1 = tail::directory_bytes(entries, n);
    let t2 = tail::name_bytes(entries, n);
    let t3 = tail::cache_bytes(n);
    let t4 = bytes::zeros((plan.eof_size - plan.eof_used()) as nat);
    let t5 = plan.record(n, freelist_count, options).bytes();
    plan.record(n, freelist_count, options).lemma_length();
    lemma_directory_length(entries, n);
    lemma_names_bytes_length(entries, n);
    lemma_cache_length(n);
    bytes::lemma_holds_split(data, cdr, t1 + t2 + t3 + t4, t5);
    bytes::lemma_holds_split(data, cdr, t1 + t2 + t3, t4);
    bytes::lemma_holds_split(data, cdr, t1 + t2, t3);
    bytes::lemma_holds_split(data, cdr, t1, t2);
    lemma_zeros_stand(data, cdr + plan.eof_used() - EOCD_V2_SIZE, t4.len());
}

proof fn lemma_tail_length(
    plan: V2Plan,
    entries: Seq<EntryModel>,
    blocks: Seq<P4kFreelistBlock>,
    options: P4kWriterOptions,
)
    requires
        plan.fits(entries, blocks.len() as int, options.sector_size),
        forall|i: int|
            0 <= i < entries.len() ==> (#[trigger] entries[i]).signature.len() == 128
                && entries[i].sha256.len() == 32,
    ensures
        tail::install_block(plan, entries, blocks).len() == plan.cdr_offset - plan.end_of_payload,
        tail::trailing_block(plan, entries, blocks.len() as int, options).len() == plan.eof_size,
{
    let n = entries.len() as int;
    let m = blocks.len() as int;
    lemma_install_length(entries, n);
    lemma_freelist_length(blocks, m);
    lemma_directory_length(entries, n);
    lemma_names_bytes_length(entries, n);
    lemma_cache_length(n);
    plan.record(n, m, options).lemma_length();
}

/// The tail stands behind the payloads.
pub proof fn lemma_tail_stands(
    prefix: Seq<u8>,
    plan: V2Plan,
    entries: Seq<EntryModel>,
    blocks: Seq<P4kFreelistBlock>,
    options: P4kWriterOptions,
)
    requires
        prefix.len() <= plan.end_of_payload,
        plan.fits(entries, blocks.len() as int, options.sector_size),
        forall|i: int|
            0 <= i < entries.len() ==> (#[trigger] entries[i]).signature.len() == 128
                && entries[i].sha256.len() == 32,
    ensures
        tail_stands(
            prefix + tail::tail_bytes(prefix.len() as u64, plan, entries, blocks, options),
            plan,
            entries,
            blocks,
            options,
        ),
{
    let position = prefix.len() as int;
    let gap = bytes::zeros((plan.end_of_payload - position) as nat);
    let install = tail::install_block(plan, entries, blocks);
    let trailing = tail::trailing_block(plan, entries, blocks.len() as int, options);
    let written = tail::tail_bytes(prefix.len() as u64, plan, entries, blocks, options);
    let data = prefix + written;
    lemma_tail_length(plan, entries, blocks, options);
    assert(data.subrange(position, position + written.len()) =~= written);
    bytes::lemma_holds_split(data, position, gap + install, trailing);
    bytes::lemma_holds_split(data, position, gap, install);
    lemma_install_stands(data, plan, entries, blocks, options.sector_size);
    lemma_trailing_stands(data, plan, entries, blocks.len() as int, options);
}

proof fn lemma_record_reads_back(e: EntryModel, name_offset: u64, s: Seq<u8>, at: int)
    requires
        e.signature.len() == 128,
        e.sha256.len() == 32,
        bytes::holds_at(s, at, tail::record_bytes(e, name_offset)),
    ensures
        bytes::le16(s, at) == e.compression_method.id(),
        bytes::le16(s, at + 0x02) == e.last_mod_file_time,
        bytes::le16(s, at + 0x04) == e.last_mod_file_date,
        bytes::le32(s, at + 0x06) == e.crc32,
        bytes::le64(s, at + 0x0A) == e.compressed_size,
        bytes::le64(s, at + 0x12) == e.uncompressed_size,
        bytes::le64(s, at + 0x1A) == e.local_header_offset,
        bytes::le64(s, at + 0x22) == name_offset,
        s.subrange(at + 0x2A, at + 0xAA) == e.signature,
        bytes::le16(s, at + 0xAA) == (if e.is_encrypted {
            1u16
        } else {
            0u16
        }),
        s.subrange(at + 0xAC, at + 0xCC) == e.sha256,
{
    reveal(tail::record_bytes);
    let flag: u16 = if e.is_encrypted {
        1
    } else {
        0
    };
    let p0 = bytes::u16_bytes(e.compression_method.id());
    let p1 = p0 + bytes::u16_bytes(e.last_mod_file_time);
    let p2 = p1 + bytes::u16_bytes(e.last_mod_file_date);
    let p3 = p2 + bytes::u32_bytes(e.crc32);
    let p4 = p3 + bytes::u64_bytes(e.compressed_size);
    let p5 = p4 + bytes::u64_bytes(e.uncompressed_size);
    let p6 = p5 + bytes::u64_bytes(e.local_header_offset);
    let p7 = p6 + bytes::u64_bytes(name_offset);
    let p8 = p7 + e.signature;
    let p9 = p8 + bytes::u16_bytes(flag);
    bytes::lemma_holds_split(s, at, p9, e.sha256);
    bytes::lemma_holds_split(s, at, p8, bytes::u16_bytes(flag));
    bytes::lemma_holds_split(s, at, p7, e.signature);
    bytes::lemma_holds_split(s, at, p6, bytes::u64_bytes(name_offset));
    bytes::lemma_holds_split(s, at, p5, bytes::u64_bytes(e.local_header_offset));
    bytes::lemma_holds_split(s, at, p4, bytes::u64_bytes(e.uncompressed_size));
    bytes::lemma_holds_split(s, at, p3, bytes::u64_bytes(e.compressed_size));
    bytes::lemma_holds_split(s, at, p2, bytes::u32_bytes(e.crc32));
    bytes::lemma_holds_split(s, at, p1, bytes::u16_bytes(e.last_mod_file_date));
    bytes::lemma_holds_split(s, at, p0, bytes::u16_bytes(e.last_mod_file_time));
    bytes::lemma_le16_of_bytes(s, at + 0x0, e.compression_method.id());
    bytes::lemma_le16_of_bytes(s, at + 0x2, e.last_mod_file_time);
    bytes::lemma_le16_of_bytes(s, at + 0x4, e.last_mod_file_date);
    bytes::lemma_le32_of_bytes(s, at + 0x6, e.crc32);
    bytes::lemma_le64_of_bytes(s, at + 0xa, e.compressed_size);
    bytes::lemma_le64_of_bytes(s, at + 0x12, e.uncompressed_size);
    bytes::lemma_le64_of_bytes(s, at + 0x1a, e.local_header_offset);
    bytes::lemma_le64_of_bytes(s, at + 0x22, name_offset);
    bytes::lemma_le16_of_bytes(s, at + 0xaa, flag);
}

proof fn lemma_install_at(data: Seq<u8>, at: int, entries: Seq<EntryModel>, n: int, i: int)
    requires
        bytes::holds_at(data, at, tail::install_bytes(entries, n)),
        0 <= i < n,
    ensures
        bytes::le64(data, at + 8 * i) == entries[i].bytes_already_written,
    decreases n,
{
    lemma_install_length(entries, n - 1);
    bytes::lemma_holds_split(
        data,
        at,
        tail::install_bytes(entries, n - 1),
        bytes::u64_bytes(entries[n - 1].bytes_already_written),
    );
    if i < n - 1 {
        lemma_install_at(data, at, entries, n - 1, i);
    } else {
        bytes::lemma_le64_of_bytes(data, at + 8 * i, entries[i].bytes_already_written);
    }
}

proof fn lemma_freelist_at(
    data: Seq<u8>,
    at: int,
    blocks: Seq<P4kFreelistBlock>,
    n: int,
    i: int,
)
    requires
        bytes::holds_at(data, at, tail::freelist_bytes(blocks, n)),
        0 <= i < n,
    ensures
        freelist::block_at(data, at, i) == blocks[i],
    decreases n,
{
    let offset = bytes::u64_bytes(blocks[n - 1].offset);
    let size = bytes::u64_bytes(blocks[n - 1].size);
    lemma_freelist_length(blocks, n - 1);
    bytes::lemma_holds_split(data, at, tail::freelist_bytes(blocks, n - 1), offset + size);
    if i < n - 1 {
        lemma_freelist_at(data, at, blocks, n - 1, i);
    } else {
        bytes::lemma_number_lengths(0, 0, blocks[i].offset);
        bytes::lemma_holds_split(data, at + 16 * i, offset, size);
        bytes::lemma_le64_of_bytes(data, at + 16 * i, blocks[i].offset);
        bytes::lemma_le64_of_bytes(data, at + 16 * i + 8, blocks[i].size);
    }
}

proof fn lemma_directory_at(data: Seq<u8>, at: int, entries: Seq<EntryModel>, n: int, i: int)
    requires
        bytes::holds_at(data, at, tail::directory_bytes(entries, n)),
        0 <= i < n <= entries.len(),
        forall|j: int|
            0 <= j < n ==> (#[trigger] entries[j]).signature.len() == 128
                && entries[j].sha256.len() == 32,
    ensures
        bytes::holds_at(
            data,
            at + i * CDR_V2_ENTRY_SIZE,
            tail::record_bytes(entries[i], tail::names_length(entries, i) as u64),
        ),
    decreases n,
{
    lemma_directory_length(entries, n - 1);
    bytes::lemma_holds_split(
        data,
        at,
        tail::directory_bytes(entries, n - 1),
        tail::record_bytes(entries[n - 1], tail::names_length(entries, n - 1) as u64),
    );
    if i < n - 1 {
        lemma_directory_at(data, at, entries, n - 1, i);
    }
}

proof fn lemma_name_at(data: Seq<u8>, at: int, entries: Seq<EntryModel>, n: int, i: int)
    requires
        bytes::holds_at(data, at, tail::name_bytes(entries, n)),
        0 <= i < n,
    ensures
        bytes::holds_at(
            data,
            at + tail::names_length(entries, i),
            encode_utf8(entries[i].name) + seq![0u8],
        ),
    decreases n,
{
    lemma_names_bytes_length(entries, n - 1);
    bytes::lemma_holds_split(
        data,
        at,
        tail::name_bytes(entries, n - 1),
        encode_utf8(entries[n - 1].name) + seq![0u8],
    );
    if i < n - 1 {
        lemma_name_at(data, at, entries, n - 1, i);
    }
}

/// The trailer that a plan leads to.
pub open spec fn planned_trailer(
    plan: V2Plan,
    entry_count: int,
    freelist_count: int,
    sector_size: u64,
) -> V2Trailer {
    V2Trailer {
        count: entry_count as u64,
        cdr_offset: plan.cdr_offset,
        cdr_size: plan.cdr_size,
        names_offset: (plan.cdr_offset + plan.cdr_size) as u64,
        names_size: plan.names_size,
        cache_offset: (plan.cdr_offset + plan.cdr_size + plan.names_size) as u64,
        cache_size: plan.cache_size,
        end_of_payload: plan.end_of_payload,
        freelist_count: freelist_count as u64,
        sector_size,
    }
}

/// Whether the directory starts on a sector boundary, so that the file size
/// comes out as whole sectors.
pub open spec fn sectors_match(plan: V2Plan, sector_size: u64) -> bool {
    plan.cdr_offset % sector_size == 0
}

/// The directory starts on a sector boundary where the sectors are not larger
/// than its alignment, and where the payloads end on one.
pub proof fn lemma_sectors_match(
    plan: V2Plan,
    entries: Seq<EntryModel>,
    freelist_count: int,
    sector_size: u64,
)
    requires
        0 <= freelist_count,
        align::is_pow2(sector_size as nat),
        plan.fits(entries, freelist_count, sector_size),
        sector_size <= tail::CDR_ALIGNMENT || plan.end_of_payload % sector_size == 0,
    ensures
        sectors_match(plan, sector_size),
{
    let sector = sector_size as int;
    let big = tail::CDR_ALIGNMENT as int;
    let used = tail::install_used(entries.len() as int, freelist_count);
    let install = align::aligned_up(used, sector);
    let unaligned = plan.end_of_payload + install;
    align::lemma_aligned_up(used, sector);
    align::lemma_aligned_up(unaligned, big);
    assert(align::is_pow2(0x1_0000)) by {
        reveal_with_fuel(align::is_pow2, 18);
    }
    if sector <= big {
        align::lemma_pow2_divides(sector_size as nat, 0x1_0000);
        align::lemma_multiple_chain(plan.cdr_offset as int, big, sector);
    } else {
        align::lemma_pow2_divides(0x1_0000, sector_size as nat);
        align::lemma_multiple_sum(plan.end_of_payload as int, install, sector);
        align::lemma_multiple_chain(unaligned, sector, big);
        assert(plan.cdr_offset == unaligned);
    }
}

proof fn lemma_file_is_sectors(
    plan: V2Plan,
    entries: Seq<EntryModel>,
    freelist_count: int,
    sector_size: u64,
)
    requires
        0 <= freelist_count,
        align::is_pow2(sector_size as nat),
        plan.fits(entries, freelist_count, sector_size),
        sectors_match(plan, sector_size),
    ensures
        (plan.cdr_offset + plan.eof_size) % sector_size as int == 0,
        plan.cdr_offset % tail::CDR_ALIGNMENT == 0,
        sector_size <= plan.eof_size,
{
    let sector = sector_size as int;
    let big = tail::CDR_ALIGNMENT as int;
    let used = tail::install_used(entries.len() as int, freelist_count);
    let install = align::aligned_up(used, sector);
    let eof_used = plan.eof_used();
    let unaligned = plan.end_of_payload + install;
    align::lemma_aligned_up(used, sector);
    align::lemma_aligned_up(eof_used, sector);
    align::lemma_aligned_up(unaligned, big);
    align::lemma_multiple_sum(plan.cdr_offset as int, plan.eof_size as int, sector);
    if plan.eof_size < sector {
        vstd::arithmetic::div_mod::lemma_small_mod(plan.eof_size as nat, sector as nat);
    }
}

proof fn lemma_trailer_reads_back(
    data: Seq<u8>,
    plan: V2Plan,
    entries: Seq<EntryModel>,
    blocks: Seq<P4kFreelistBlock>,
    options: P4kWriterOptions,
)
    requires
        align::is_pow2(options.sector_size as nat),
        plan.fits(entries, blocks.len() as int, options.sector_size),
        sectors_match(plan, options.sector_size),
        tail_stands(data, plan, entries, blocks, options),
        data.len() <= isize::MAX,
    ensures
        v2::trailer_outcome(data, data.len() as int) == Ok::<V2Trailer, Fault>(
            planned_trailer(
                plan,
                entries.len() as int,
                blocks.len() as int,
                options.sector_size,
            ),
        ),
        data.subrange(data.len() - EOCD_V2_SIZE + 0x69, data.len() - EOCD_V2_SIZE + 0xA9)
            == options.manifest_sha256@,
        bytes::le16(data, data.len() - 6) == zip::EOCD_V2_VERSION,
        bytes::le32(data, data.len() - 4) == zip::EOCD_V2_MAGIC,
{
    let n = entries.len() as int;
    let m = blocks.len() as int;
    let at = data.len() - EOCD_V2_SIZE;
    let record = plan.record(n, m, options);
    let t = planned_trailer(plan, n, m, options.sector_size);
    record.law_read_back(data, at);
    lemma_file_is_sectors(plan, entries, m, options.sector_size);
    align::lemma_aligned_up(plan.eof_used(), options.sector_size as int);
    assert(2 * isize::MAX < usize::MAX);
    assert(V2Trailer::at(data, at) == t);
    assert(v2::trailer_field_fault(data, data.len() as int) is None);
    assert(v2::trailer_range_fault(data, data.len() as int, t) is None);
}

proof fn lemma_name_reads_back(
    data: Seq<u8>,
    plan: V2Plan,
    entries: Seq<EntryModel>,
    blocks: Seq<P4kFreelistBlock>,
    options: P4kWriterOptions,
    index: int,
)
    requires
        plan.fits(entries, blocks.len() as int, options.sector_size),
        tail_stands(data, plan, entries, blocks, options),
        forall|i: int|
            0 <= i < entries.len() ==> is_v2_entry(
                #[trigger] entries[i],
                plan.end_of_payload,
                options.sector_size,
            ),
        0 <= index < entries.len(),
    ensures
        ({
            let t = planned_trailer(
                plan,
                entries.len() as int,
                blocks.len() as int,
                options.sector_size,
            );
            &&& t.name_offset(data, index) == tail::names_length(entries, index)
            &&& t.name_stop(data, index) == t.names_offset + tail::names_length(
                entries,
                index + 1,
            ) - 1
            &&& t.raw_name(data, index) == encode_utf8(entries[index].name)
        }),
{
    let n = entries.len() as int;
    let t = planned_trailer(plan, n, blocks.len() as int, options.sector_size);
    let e = entries[index];
    let name = encode_utf8(e.name);
    let from = tail::names_length(entries, index);
    let start = t.names_offset + from;
    assert(is_v2_entry(e, plan.end_of_payload, options.sector_size));
    assert forall|j: int| 0 <= j < n implies (#[trigger] entries[j]).signature.len() == 128
        && entries[j].sha256.len() == 32 by {
        assert(is_v2_entry(entries[j], plan.end_of_payload, options.sector_size));
    }
    tail::lemma_names_grow(entries, 0, index);
    tail::lemma_names_grow(entries, index + 1, n);
    lemma_directory_at(data, plan.cdr_offset as int, entries, n, index);
    lemma_record_reads_back(e, from as u64, data, t.record_at(index));
    lemma_name_at(data, t.names_offset as int, entries, n, index);
    bytes::lemma_holds_split(data, start, name, seq![0u8]);
    let stop = start + name.len();
    assert(data[stop] == data.subrange(stop, stop + 1)[0]);
    assert forall|i: int| start <= i < stop implies data[i] != 0 by {
        assert(data.subrange(start, stop)[i - start] == data[i]);
        assert(name.contains(name[i - start]));
    }
    v2::lemma_first_zero(data, start, t.names_end(), stop);
}

proof fn lemma_entry_reads_back(
    data: Seq<u8>,
    plan: V2Plan,
    entries: Seq<EntryModel>,
    blocks: Seq<P4kFreelistBlock>,
    options: P4kWriterOptions,
    index: int,
)
    requires
        options.sector_size > 0,
        plan.fits(entries, blocks.len() as int, options.sector_size),
        tail_stands(data, plan, entries, blocks, options),
        forall|i: int|
            0 <= i < entries.len() ==> is_v2_entry(
                #[trigger] entries[i],
                plan.end_of_payload,
                options.sector_size,
            ),
        0 <= index < entries.len(),
        data.len() <= isize::MAX,
    ensures
        v2::entry_outcome(
            data,
            planned_trailer(
                plan,
                entries.len() as int,
                blocks.len() as int,
                options.sector_size,
            ),
            index,
        ) == Ok::<EntryModel, Fault>(entries[index]),
{
    let n = entries.len() as int;
    let t = planned_trailer(plan, n, blocks.len() as int, options.sector_size);
    let e = entries[index];
    let from = tail::names_length(entries, index);
    assert(is_v2_entry(e, plan.end_of_payload, options.sector_size));
    assert forall|j: int| 0 <= j < n implies (#[trigger] entries[j]).signature.len() == 128
        && entries[j].sha256.len() == 32 by {
        assert(is_v2_entry(entries[j], plan.end_of_payload, options.sector_size));
    }
    assert(isize::MAX < usize::MAX);
    tail::lemma_names_grow(entries, 0, index);
    tail::lemma_names_grow(entries, index + 1, n);
    lemma_name_reads_back(data, plan, entries, blocks, options, index);
    if index > 0 {
        lemma_name_reads_back(data, plan, entries, blocks, options, index - 1);
    }
    assert(t.names_taken(data, index) == from);
    encode_utf8_valid_utf8(e.name);
    encode_utf8_decode_utf8(e.name);
    assert(v2::name_fault(data, t, index) is None);
    lemma_directory_at(data, plan.cdr_offset as int, entries, n, index);
    lemma_record_reads_back(e, from as u64, data, t.record_at(index));
    lemma_install_at(data, plan.end_of_payload as int, entries, n, index);
    e.compression_method.law_method_of_id();
    assert(v2::record_fault(data, t, index) is None);
    assert(v2::entry_at(data, t, index) == e);
}

/// The directory that a written tail holds.
pub open spec fn written_directory(
    file_size: u64,
    plan: V2Plan,
    entries: Seq<EntryModel>,
    blocks: Seq<P4kFreelistBlock>,
    options: P4kWriterOptions,
) -> DirectoryModel {
    DirectoryModel {
        entries,
        freelist_blocks: blocks,
        layout: LayoutModel {
            file_size,
            actual_content_end: file_size,
            physical_sector_size: Some(options.sector_size),
            cdr_offset: plan.cdr_offset,
            cdr_size: plan.cdr_size,
            name_table_offset: Some((plan.cdr_offset + plan.cdr_size) as u64),
            name_table_size: plan.names_size,
            end_of_payload: Some(plan.end_of_payload),
            install_block_offset: Some(plan.end_of_payload),
            install_block_size: Some((plan.cdr_offset - plan.end_of_payload) as u64),
            eocd_offset: (file_size - EOCD_V2_SIZE) as u64,
            manifest_sha256: Some(options.manifest_sha256@),
        },
    }
}

proof fn lemma_blocks_read_back(data: Seq<u8>, at: int, blocks: Seq<P4kFreelistBlock>)
    requires
        bytes::holds_at(data, at, tail::freelist_bytes(blocks, blocks.len() as int)),
        forall|i: int| 0 <= i < blocks.len() ==> freelist::is_free_range(#[trigger] blocks[i]),
    ensures
        freelist::blocks_outcome(data, at, blocks.len()) == Ok::<
            Seq<P4kFreelistBlock>,
            Seq<char>,
        >(blocks),
{
    let m = blocks.len() as int;
    assert forall|i: int| 0 <= i < m implies #[trigger] freelist::block_fault(data, at, i) is None by {
        lemma_freelist_at(data, at, blocks, m, i);
        assert(freelist::is_free_range(blocks[i]));
    }
    freelist::lemma_blocks_listed(data, at, m as nat);
    let read = Seq::new(m as nat, |i: int| freelist::block_at(data, at, i));
    assert(read =~= blocks) by {
        assert forall|i: int| 0 <= i < m implies read[i] == blocks[i] by {
            lemma_freelist_at(data, at, blocks, m, i);
        }
    }
}

proof fn lemma_directory_reads_back(
    data: Seq<u8>,
    plan: V2Plan,
    entries: Seq<EntryModel>,
    blocks: Seq<P4kFreelistBlock>,
    options: P4kWriterOptions,
)
    requires
        align::is_pow2(options.sector_size as nat),
        plan.fits(entries, blocks.len() as int, options.sector_size),
        sectors_match(plan, options.sector_size),
        tail_stands(data, plan, entries, blocks, options),
        is_v2_directory(entries, blocks, plan.end_of_payload, options.sector_size),
        data.len() <= isize::MAX,
    ensures
        v2::v2_outcome(data, data.len() as int) == Ok::<DirectoryModel, Fault>(
            written_directory(data.len() as u64, plan, entries, blocks, options),
        ),
{
    let n = entries.len() as int;
    let m = blocks.len() as int;
    let t = planned_trailer(plan, n, m, options.sector_size);
    lemma_trailer_reads_back(data, plan, entries, blocks, options);
    lemma_blocks_read_back(data, t.install_end(), blocks);
    assert forall|i: int| 0 <= i < n implies #[trigger] v2::entry_outcome(data, t, i) == Ok::<
        EntryModel,
        Fault,
    >(entries[i]) by {
        lemma_entry_reads_back(data, plan, entries, blocks, options, i);
    }
    v2::lemma_entries_listed(data, t, entries);
    v2::law_overlap(entries);
}

proof fn lemma_tail_reads_back(
    data: Seq<u8>,
    plan: V2Plan,
    entries: Seq<EntryModel>,
    blocks: Seq<P4kFreelistBlock>,
    options: P4kWriterOptions,
)
    requires
        align::is_pow2(options.sector_size as nat),
        plan.fits(entries, blocks.len() as int, options.sector_size),
        sectors_match(plan, options.sector_size),
        tail_stands(data, plan, entries, blocks, options),
        is_v2_directory(entries, blocks, plan.end_of_payload, options.sector_size),
        data.len() <= isize::MAX,
    ensures
        reader::archive_outcome(data) == Ok::<(P4kVersion, DirectoryModel), Fault>(
            (
                P4kVersion::V2,
                written_directory(data.len() as u64, plan, entries, blocks, options),
            ),
        ),
{
    let end = data.len() as int;
    lemma_trailer_reads_back(data, plan, entries, blocks, options);
    assert(data[end - 1] != 0) by {
        reveal(bytes::le32);
    }
    assert(scan::content_end(data) == end);
    lemma_directory_reads_back(data, plan, entries, blocks, options);
}

/// A file that a v2 tail was written behind opens as a v2 archive with the
/// entries, free ranges and layout that were written.
///
/// The directory must start on a sector boundary: otherwise the file does not
/// end on one.
pub proof fn law_v2_tail_reads_back(
    prefix: Seq<u8>,
    entries: Seq<EntryModel>,
    blocks: Seq<P4kFreelistBlock>,
    payload_end: u64,
    options: P4kWriterOptions,
    align_payload_end: bool,
)
    requires
        align::is_pow2(options.sector_size as nat),
        prefix.len() <= payload_end,
        tail::plan_outcome(
            prefix.len() as u64,
            entries,
            blocks.len() as int,
            payload_end,
            options.sector_size,
            align_payload_end,
        ) is Ok,
        ({
            let plan = tail::plan_outcome(
                prefix.len() as u64,
                entries,
                blocks.len() as int,
                payload_end,
                options.sector_size,
                align_payload_end,
            )->Ok_0;
            &&& sectors_match(plan, options.sector_size)
            &&& is_v2_directory(entries, blocks, plan.end_of_payload, options.sector_size)
            &&& plan.cdr_offset + plan.eof_size <= isize::MAX
        }),
    ensures
        ({
            let plan = tail::plan_outcome(
                prefix.len() as u64,
                entries,
                blocks.len() as int,
                payload_end,
                options.sector_size,
                align_payload_end,
            )->Ok_0;
            let data = prefix + tail::tail_bytes(
                prefix.len() as u64,
                plan,
                entries,
                blocks,
                options,
            );
            &&& data.len() == plan.cdr_offset + plan.eof_size
            &&& reader::archive_outcome(data) == Ok::<(P4kVersion, DirectoryModel), Fault>(
                (
                    P4kVersion::V2,
                    written_directory(data.len() as u64, plan, entries, blocks, options),
                ),
            )
        }),
{
    let plan = tail::plan_outcome(
        prefix.len() as u64,
        entries,
        blocks.len() as int,
        payload_end,
        options.sector_size,
        align_payload_end,
    )->Ok_0;
    let data = prefix + tail::tail_bytes(prefix.len() as u64, plan, entries, blocks, options);
    tail::lemma_plan_fits(
        prefix.len() as u64,
        entries,
        blocks.len() as int,
        payload_end,
        options.sector_size,
        align_payload_end,
    );
    assert forall|j: int| 0 <= j < entries.len() implies (#[trigger] entries[j]).signature.len()
        == 128 && entries[j].sha256.len() == 32 by {
        assert(is_v2_entry(entries[j], plan.end_of_payload, options.sector_size));
    }
    lemma_tail_stands(prefix, plan, entries, blocks, options);
    lemma_tail_reads_back(data, plan, entries, blocks, options);
}

} // verus!
