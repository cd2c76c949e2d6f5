//! What the directory of a version 2 file says, byte by byte.
use vstd::prelude::*;
use vstd::utf8::*;

use crate::align;
use crate::archive::freelist;
use crate::archive::model::{DirectoryModel, EntryModel};
use crate::archive::v2;
use crate::archive::v2::V2Trailer;
use crate::archive::v2_names;
use crate::bytes;
use crate::error::Fault;
use crate::path;
use crate::zip::CompressionMethod;

verus! {

/// The number that stands for a method in a record.
pub open spec fn method_number(method: CompressionMethod) -> u16 {
    match method {
        CompressionMethod::Store => 0,
        CompressionMethod::Deflate => 8,
        CompressionMethod::ZstdDeprecated => 93,
        CompressionMethod::Zstd => 100,
        CompressionMethod::DeflateZlib => 101,
    }
}

/// The bytes `raw` stand at `start`, hold no zero, and a zero below `limit` ends them.
pub open spec fn ends_in_zero(data: Seq<u8>, start: int, limit: int, raw: Seq<u8>) -> bool {
    &&& start + raw.len() < limit
    &&& data.subrange(start, start + raw.len() as int) == raw
    &&& data[start + raw.len()] == 0
    &&& forall|j: int| 0 <= j < raw.len() ==> raw[j] != 0
}

/// The bytes are a relative path as the directory holds it: no backslash, no slash
/// in front or behind another or behind a dot, and no space at the end.
pub open spec fn is_plain_name(raw: Seq<u8>) -> bool {
    &&& raw.len() > 0
    &&& raw[0] != 0x2F
    &&& raw.last() != 0x20
    &&& forall|j: int| 0 <= j < raw.len() ==> raw[j] != 0x5C
    &&& forall|j: int|
        0 < j < raw.len() && #[trigger] raw[j] == 0x2F ==> raw[j - 1] != 0x2F && raw[j - 1] != 0x2E
}

/// The entry is what the record with the given index says, for a trailer at `at`.
pub open spec fn is_entry_of(data: Seq<u8>, at: int, index: int, e: EntryModel) -> bool {
    let r = bytes::le64(data, at + 0x10) + 204 * index;
    let names = bytes::le64(data, at + 0x28);
    let payload_end = bytes::le64(data, at + 0x40);
    &&& method_number(e.compression_method) == bytes::le16(data, r)
    &&& e.last_mod_file_time == bytes::le16(data, r + 0x02)
    &&& e.last_mod_file_date == bytes::le16(data, r + 0x04)
    &&& e.crc32 == bytes::le32(data, r + 0x06)
    &&& e.compressed_size == bytes::le64(data, r + 0x0A)
    &&& e.uncompressed_size == bytes::le64(data, r + 0x12)
    &&& e.local_header_offset == bytes::le64(data, r + 0x1A)
    &&& ends_in_zero(
        data,
        names + bytes::le64(data, r + 0x22),
        names + bytes::le64(data, at + 0x30),
        encode_utf8(e.name),
    )
    &&& is_plain_name(encode_utf8(e.name))
    &&& e.signature == data.subrange(r + 0x2A, r + 0xAA)
    &&& bytes::le16(data, r + 0xAA) == if e.is_encrypted {
        1u16
    } else {
        0u16
    }
    &&& e.sha256 == data.subrange(r + 0xAC, r + 0xCC)
    &&& e.bytes_already_written == bytes::le64(data, payload_end + 8 * index)
    &&& e.bytes_already_written <= e.compressed_size
    &&& e.local_header_offset % bytes::le64(data, at + 0x60) == 0
    &&& e.local_header_offset + e.compressed_size <= payload_end
}

/// The name of a record starts behind the zero of the one before.
pub open spec fn follows_name(data: Seq<u8>, at: int, entries: Seq<EntryModel>, index: int) -> bool {
    let r = bytes::le64(data, at + 0x10) + 204 * index;
    bytes::le64(data, r + 0x22) > bytes::le64(data, r - 204 + 0x22) + encode_utf8(
        entries[index - 1].name,
    ).len()
}

/// The two payloads share no byte.
pub open spec fn share_nothing(a: EntryModel, b: EntryModel) -> bool {
    ||| a.compressed_size == 0
    ||| b.compressed_size == 0
    ||| a.local_header_offset + a.compressed_size <= b.local_header_offset
    ||| b.local_header_offset + b.compressed_size <= a.local_header_offset
}

/// The fields of the trailer that ends at `end` agree with each other and with the
/// bytes around them.
pub open spec fn has_sound_trailer(data: Seq<u8>, end: int) -> bool {
    let at = end - 175;
    let count = bytes::le64(data, at);
    let records = bytes::le64(data, at + 0x10);
    let names = bytes::le64(data, at + 0x28);
    let names_end = names + bytes::le64(data, at + 0x30);
    let payload_end = bytes::le64(data, at + 0x40);
    let cache = bytes::le64(data, at + 0x50);
    let cache_size = bytes::le64(data, at + 0x58);
    let sector = bytes::le64(data, at + 0x60);
    let free_end = payload_end + 8 * count + 16 * bytes::le64(data, at + 0x48);
    let used = names_end + cache_size + 175 - records;
    &&& bytes::le64(data, at + 0x08) == 0
    &&& bytes::le64(data, at + 0x20) == 0
    &&& bytes::le64(data, at + 0x38) == 0
    &&& data[at + 0x68] % 2 == 0
    &&& exists|k: nat| sector == #[trigger] vstd::arithmetic::power2::pow2(k)
    &&& data.len() as int % sector as int == 0
    &&& records % 0x1_0000 == 0
    &&& bytes::le64(data, at + 0x18) == 204 * count
    &&& names == records + 204 * count
    &&& (cache == 0 && cache_size == 0) || cache == names_end
    &&& (end - records) % sector as int == 0
    &&& used <= end - records < used + sector
    &&& used + sector - 1 <= usize::MAX
    &&& forall|j: int| names_end + cache_size <= j < at ==> data[j] == 0
    &&& free_end <= records
    &&& forall|j: int| free_end <= j < records ==> data[j] == 0
}

/// The block is what the freelist record with the given index says.
pub open spec fn is_block_of(
    data: Seq<u8>,
    at: int,
    index: int,
    block: crate::archive::model::P4kFreelistBlock,
) -> bool {
    let r = bytes::le64(data, at + 0x40) + 8 * bytes::le64(data, at) + 16 * index;
    &&& block.offset == bytes::le64(data, r)
    &&& block.size == bytes::le64(data, r + 8)
    &&& block.size > 0
    &&& block.offset + block.size <= u64::MAX
}

/// The directory is what a file with a sound trailer at `end` holds.
pub open spec fn is_directory_of(data: Seq<u8>, end: int, d: DirectoryModel) -> bool {
    let at = end - 175;
    let records = bytes::le64(data, at + 0x10);
    let payload_end = bytes::le64(data, at + 0x40);
    &&& has_sound_trailer(data, end)
    &&& d.entries.len() == bytes::le64(data, at)
    &&& forall|i: int|
        0 <= i < d.entries.len() ==> is_entry_of(data, at, i, #[trigger] d.entries[i])
    &&& forall|i: int|
        0 < i < d.entries.len() ==> #[trigger] follows_name(data, at, d.entries, i)
    &&& forall|i: int, j: int|
        0 <= i < j < d.entries.len() ==> share_nothing(
            #[trigger] d.entries[i],
            #[trigger] d.entries[j],
        )
    &&& d.freelist_blocks.len() == bytes::le64(data, at + 0x48)
    &&& forall|i: int|
        0 <= i < d.freelist_blocks.len() ==> is_block_of(
            data,
            at,
            i,
            #[trigger] d.freelist_blocks[i],
        )
    &&& d.layout.file_size == data.len()
    &&& d.layout.actual_content_end == end
    &&& d.layout.physical_sector_size == Some(bytes::le64(data, at + 0x60))
    &&& d.layout.cdr_offset == records
    &&& d.layout.cdr_size == 204 * d.entries.len()
    &&& d.layout.name_table_offset == Some(bytes::le64(data, at + 0x28))
    &&& d.layout.name_table_size == bytes::le64(data, at + 0x30)
    &&& d.layout.end_of_payload == Some(payload_end)
    &&& d.layout.install_block_offset == Some(payload_end)
    &&& d.layout.install_block_size == Some((records - payload_end) as u64)
    &&& d.layout.eocd_offset == at
    &&& d.layout.manifest_sha256 == Some(data.subrange(at + 0x69, at + 0xA9))
}

proof fn lemma_plain_name(raw: Seq<u8>)
    ensures
        is_plain_name(raw) <==> raw.len() > 0 && raw[0] != path::SLASH && path::is_normalized(
            raw,
            false,
        ),
{
    if is_plain_name(raw) {
        assert forall|i: int| 0 <= i < raw.len() implies #[trigger] path::settled_at(
            raw,
            i,
            false,
        ) by {
            assert(raw[i] != 0x5C);
        }
    }
    if path::is_normalized(raw, false) {
        assert forall|j: int| 0 <= j < raw.len() implies raw[j] != 0x5C by {
            assert(path::settled_at(raw, j, false));
        }
        assert forall|j: int| 0 < j < raw.len() && #[trigger] raw[j] == 0x2F implies raw[j - 1]
            != 0x2F && raw[j - 1] != 0x2E by {
            assert(path::settled_at(raw, j, false));
        }
    }
}

proof fn lemma_found_zero(s: Seq<u8>, from: int, to: int)
    requires
        from <= to,
    ensures
        from <= v2::first_zero(s, from, to) <= to,
        v2::first_zero(s, from, to) < to ==> s[v2::first_zero(s, from, to)] == 0,
        forall|i: int| from <= i < v2::first_zero(s, from, to) ==> s[i] != 0,
    decreases to - from,
{
    if from < to && s[from] != 0 {
        lemma_found_zero(s, from + 1, to);
    }
}

/// A trailer is taken if and only if it is sound up to the padding of the install
/// block.
proof fn lemma_trailer(data: Seq<u8>, end: int)
    requires
        175 <= end <= data.len() <= usize::MAX,
    ensures
        has_sound_trailer(data, end) <==> {
            let t = V2Trailer::at(data, end - 175);
            &&& v2::trailer_outcome(data, end) == Ok::<V2Trailer, Fault>(t)
            &&& bytes::zero_between(data, t.freelist_end(), t.cdr_offset as int)
        },
{
    let at = end - 175;
    let t = V2Trailer::at(data, at);
    let sector = t.sector_size as int;
    let used = t.eof_used();
    align::law_powers_of_two(t.sector_size as nat);
    if 0 < sector {
        align::lemma_aligned_up(used, sector);
        align::law_aligned_up(used, sector, end - t.cdr_offset);
    }
    if has_sound_trailer(data, end) {
        let k = choose|k: nat| sector == #[trigger] vstd::arithmetic::power2::pow2(k);
        vstd::arithmetic::power2::lemma_pow2_pos(k);
        assert(sector > 0);
        assert(sector <= end - t.cdr_offset) by {
            if end - t.cdr_offset < sector {
                vstd::arithmetic::div_mod::lemma_small_mod(
                    (end - t.cdr_offset) as nat,
                    sector as nat,
                );
            }
        }
        assert(v2::trailer_field_fault(data, end) is None);
        assert(v2::trailer_range_fault(data, end, t) is None);
    }
}

/// A version 2 file opens as the directory `d` if and only if its bytes say so: each
/// field of the trailer, of every record and of every freelist record stands where
/// the format puts it, names end in a zero and follow each other, no two payloads
/// share a byte, and the padding is zero.
pub proof fn law_v2_directory(data: Seq<u8>, end: int, d: DirectoryModel)
    requires
        175 <= end <= data.len() <= usize::MAX,
    ensures
        v2::v2_outcome(data, end) == Ok::<DirectoryModel, Fault>(d) <==> is_directory_of(
            data,
            end,
            d,
        ),
{
    let at = end - 175;
    let t = V2Trailer::at(data, at);
    lemma_trailer(data, end);
    if v2::v2_outcome(data, end) == Ok::<DirectoryModel, Fault>(d) {
        lemma_holds(data, end, d);
    }
    if is_directory_of(data, end, d) {
        lemma_opens(data, end, d);
    }
}

proof fn lemma_entry(data: Seq<u8>, at: int, e: EntryModel, entries: Seq<EntryModel>, index: int)
    requires
        0 <= index < entries.len(),
        index > 0 ==> is_entry_of(data, at, index - 1, entries[index - 1]),
        e == entries[index],
        V2Trailer::at(data, at).end_of_payload <= usize::MAX,
        V2Trailer::at(data, at).names_end() <= usize::MAX,
        0 < V2Trailer::at(data, at).sector_size,
        0 <= V2Trailer::at(data, at).names_end() <= data.len(),
    ensures
        v2::entry_outcome(data, V2Trailer::at(data, at), index) == Ok::<EntryModel, Fault>(e) <==> (
        is_entry_of(data, at, index, e) && (index > 0 ==> follows_name(data, at, entries, index))),
{
    let t = V2Trailer::at(data, at);
    let r = t.record_at(index);
    assert(index * 204 == 204 * index);
    let start = t.name_start(data, index);
    let raw = t.raw_name(data, index);
    let own = encode_utf8(e.name);
    encode_utf8_valid_utf8(e.name);
    encode_utf8_decode_utf8(e.name);
    if index > 0 {
        let before = encode_utf8(entries[index - 1].name);
        let from = t.name_start(data, index - 1);
        assert((index - 1) * 204 == 204 * (index - 1));
        assert(ends_in_zero(data, from, t.names_end(), before));
        assert forall|i: int| from <= i < from + before.len() implies data[i] != 0 by {
            assert(before[i - from] == data[i]);
        }
        v2::lemma_first_zero(data, from, t.names_end(), from + before.len());
    }
    if v2::entry_outcome(data, t, index) == Ok::<EntryModel, Fault>(e) {
        lemma_found_zero(data, start, t.names_end());
        decode_utf8_encode_utf8(raw);
        assert(own == raw);
        lemma_plain_name(raw);
    }
    if is_entry_of(data, at, index, e) && (index > 0 ==> follows_name(data, at, entries, index)) {
        assert forall|i: int| start <= i < start + own.len() implies data[i] != 0 by {
            assert(own[i - start] == data[i]);
        }
        v2::lemma_first_zero(data, start, t.names_end(), start + own.len());
        assert(raw == own);
        lemma_plain_name(raw);
        assert(v2::name_fault(data, t, index) is None);
        assert(v2::record_fault(data, t, index) is None);
        assert(v2::entry_at(data, t, index) == e);
    }
}

proof fn lemma_holds(data: Seq<u8>, end: int, d: DirectoryModel)
    requires
        175 <= end <= data.len() <= usize::MAX,
        has_sound_trailer(data, end),
        v2::v2_outcome(data, end) == Ok::<DirectoryModel, Fault>(d),
    ensures
        is_directory_of(data, end, d),
{
    let at = end - 175;
    let t = V2Trailer::at(data, at);
    let n = d.entries.len();
    lemma_sector(data, end);
    assert(v2::entries_outcome(data, t, t.count as nat) == Ok::<Seq<EntryModel>, Fault>(d.entries));
    lemma_each(data, end, d.entries, t.count as nat);
    v2::law_overlap(d.entries);
    assert forall|i: int, j: int| 0 <= i < j < n implies share_nothing(
        #[trigger] d.entries[i],
        #[trigger] d.entries[j],
    ) by {
        if d.entries[i].compressed_size != 0 && d.entries[j].compressed_size != 0 {
            assert(v2::are_apart(d.entries[i], d.entries[j]));
        }
    }
    lemma_blocks(data, t.install_end(), t.freelist_count as nat);
    assert forall|i: int| 0 <= i < d.freelist_blocks.len() implies is_block_of(
        data,
        at,
        i,
        #[trigger] d.freelist_blocks[i],
    ) by {
        assert(freelist::block_fault(data, t.install_end(), i) is None);
    }
}

proof fn lemma_sector(data: Seq<u8>, end: int)
    requires
        175 <= end <= data.len() <= usize::MAX,
        has_sound_trailer(data, end),
    ensures
        0 < bytes::le64(data, end - 175 + 0x60),
{
    let sector = bytes::le64(data, end - 175 + 0x60);
    let k = choose|k: nat| sector == #[trigger] vstd::arithmetic::power2::pow2(k);
    vstd::arithmetic::power2::lemma_pow2_pos(k);
}

proof fn lemma_each(data: Seq<u8>, end: int, entries: Seq<EntryModel>, count: nat)
    requires
        175 <= end <= data.len() <= usize::MAX,
        has_sound_trailer(data, end),
        v2::entries_outcome(data, V2Trailer::at(data, end - 175), count) == Ok::<
            Seq<EntryModel>,
            Fault,
        >(entries),
    ensures
        entries.len() == count,
        forall|i: int|
            0 <= i < entries.len() ==> is_entry_of(data, end - 175, i, #[trigger] entries[i]),
        forall|i: int|
            0 < i < entries.len() ==> #[trigger] follows_name(data, end - 175, entries, i),
    decreases count,
{
    let at = end - 175;
    let t = V2Trailer::at(data, at);
    if count > 0 {
        let n = (count - 1) as nat;
        let short = v2::entries_outcome(data, t, n)->Ok_0;
        lemma_each(data, end, short, n);
        assert(entries == short.push(entries[n as int]));
        lemma_sector(data, end);
        if n > 0 {
            assert(entries[n - 1] == short[n - 1]);
        }
        lemma_entry(data, at, entries[n as int], entries, n as int);
        assert forall|i: int| 0 <= i < entries.len() implies is_entry_of(
            data,
            at,
            i,
            #[trigger] entries[i],
        ) by {
            if i < n {
                assert(entries[i] == short[i]);
            }
        }
        assert forall|i: int| 0 < i < entries.len() implies #[trigger] follows_name(
            data,
            at,
            entries,
            i,
        ) by {
            if i < n {
                assert(follows_name(data, at, short, i));
                assert(entries[i - 1] == short[i - 1]);
            }
        }
    }
}

proof fn lemma_blocks(data: Seq<u8>, at: int, count: nat)
    ensures
        freelist::blocks_outcome(data, at, count) is Ok ==> {
            let blocks = freelist::blocks_outcome(data, at, count)->Ok_0;
            &&& blocks.len() == count
            &&& forall|i: int|
                0 <= i < count ==> #[trigger] blocks[i] == freelist::block_at(data, at, i)
            &&& forall|i: int| 0 <= i < count ==> #[trigger] freelist::block_fault(
                data,
                at,
                i,
            ) is None
        },
    decreases count,
{
    if count > 0 {
        lemma_blocks(data, at, (count - 1) as nat);
    }
}

proof fn lemma_opens(data: Seq<u8>, end: int, d: DirectoryModel)
    requires
        175 <= end <= data.len() <= usize::MAX,
        is_directory_of(data, end, d),
        v2::trailer_outcome(data, end) == Ok::<V2Trailer, Fault>(V2Trailer::at(data, end - 175)),
    ensures
        v2::v2_outcome(data, end) == Ok::<DirectoryModel, Fault>(d),
{
    let at = end - 175;
    let t = V2Trailer::at(data, at);
    let n = d.entries.len();
    lemma_sector(data, end);
    assert forall|i: int| 0 <= i < n implies #[trigger] v2::entry_outcome(data, t, i) == Ok::<
        EntryModel,
        Fault,
    >(d.entries[i]) by {
        if i > 0 {
            assert(is_entry_of(data, at, i - 1, d.entries[i - 1]));
            assert(follows_name(data, at, d.entries, i));
        }
        lemma_entry(data, at, d.entries[i], d.entries, i);
    }
    v2::lemma_entries_listed(data, t, d.entries);
    v2::law_overlap(d.entries);
    assert forall|i: int, j: int|
        0 <= i < n && 0 <= j < n && i != j && d.entries[i].compressed_size != 0
            && d.entries[j].compressed_size != 0 implies #[trigger] v2::are_apart(
        d.entries[i],
        d.entries[j],
    ) by {
        if i < j {
            assert(share_nothing(d.entries[i], d.entries[j]));
        } else {
            assert(share_nothing(d.entries[j], d.entries[i]));
        }
    }
    let m = d.freelist_blocks.len();
    assert forall|i: int| 0 <= i < m implies #[trigger] freelist::block_fault(
        data,
        t.install_end(),
        i,
    ) is None by {
        assert(is_block_of(data, at, i, d.freelist_blocks[i]));
    }
    freelist::lemma_blocks_listed(data, t.install_end(), m);
    assert(d.freelist_blocks =~= Seq::new(
        m,
        |i: int| freelist::block_at(data, t.install_end(), i),
    )) by {
        assert forall|i: int| 0 <= i < m implies d.freelist_blocks[i] == freelist::block_at(
            data,
            t.install_end(),
            i,
        ) by {
            assert(is_block_of(data, at, i, d.freelist_blocks[i]));
        }
    }
    assert(d.layout == v2::v2_layout(data, end, t));
}

/// Where the name of a record starts in the name table stands 34 bytes into the record,
/// in a directory that holds that much of it.
pub proof fn law_name_offset(cdr: Seq<u8>, index: int, offset: u64)
    requires
        0 <= index,
        cdr.len() <= usize::MAX,
    ensures
        v2_names::name_offset_outcome(cdr, index) == Ok::<u64, Fault>(offset) <==> {
            &&& 204 * index + 42 <= cdr.len()
            &&& offset == bytes::le64(cdr, 204 * index + 34)
        },
{
    assert(index * 204 == 204 * index);
}


} // verus!
