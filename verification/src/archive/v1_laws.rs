//! What the directory of a version 1 file says, byte by byte.
use vstd::prelude::*;

use crate::align;
use crate::archive::freelist;
use crate::archive::local;
use crate::archive::local_laws;
use crate::archive::model::{DirectoryModel, EntryModel, P4kFreelistBlock};
use crate::archive::v1;
use crate::archive::v1::V1Summary;
use crate::archive::v1_install;
use crate::archive::v2_laws;
use crate::bytes;
use crate::error::Fault;
use crate::path;
use crate::scan;
use crate::text;

verus! {

/// The entry is what the record of a ZIP64 directory at `at` says, and the record
/// ends at `next`.
pub open spec fn is_zip64_record(cd: Seq<u8>, at: int, e: EntryModel, next: int) -> bool {
    let x = at + 46 + bytes::le16(cd, at + 28);
    &&& next == x + 0xCE
    &&& next <= cd.len()
    &&& bytes::le32(cd, at) == 0x0201_4B50
    &&& bytes::le16(cd, at + 4) == 46
    &&& bytes::le16(cd, at + 6) == 45
    &&& bytes::le16(cd, at + 8) == 0
    &&& v2_laws::method_number(e.compression_method) == bytes::le16(cd, at + 10)
    &&& e.last_mod_file_time == bytes::le16(cd, at + 12)
    &&& e.last_mod_file_date == bytes::le16(cd, at + 14)
    &&& e.crc32 == bytes::le32(cd, at + 16)
    &&& bytes::le32(cd, at + 20) == 0xFFFF_FFFF
    &&& bytes::le32(cd, at + 24) == 0xFFFF_FFFF
    &&& bytes::le16(cd, at + 28) > 0
    &&& bytes::le16(cd, at + 30) == 0xCE
    &&& bytes::le16(cd, at + 32) == 0
    &&& bytes::le16(cd, at + 34) == 0xFFFF
    &&& bytes::le16(cd, at + 36) == 0
    &&& bytes::le32(cd, at + 38) == 0
    &&& bytes::le32(cd, at + 42) == 0xFFFF_FFFF
    &&& e.name == text::lossy_text(path::normalized(cd.subrange(at + 46, x), false))
    &&& bytes::le16(cd, x) == 1
    &&& bytes::le16(cd, x + 2) == 0x20
    &&& e.uncompressed_size == bytes::le64(cd, x + 4)
    &&& e.compressed_size == bytes::le64(cd, x + 12)
    &&& e.bytes_already_written == bytes::le64(cd, x + 12)
    &&& e.local_header_offset == bytes::le64(cd, x + 20)
    &&& bytes::le32(cd, x + 28) == 0
    &&& bytes::le16(cd, x + 0x20) == 0x5000
    &&& bytes::le16(cd, x + 0x22) == 0x84
    &&& e.signature == cd.subrange(x + 0x24, x + 0xA4)
    &&& bytes::le16(cd, x + 0xA4) == 0x5002
    &&& bytes::le16(cd, x + 0xA6) == 6
    &&& bytes::le16(cd, x + 0xA8) == if e.is_encrypted {
        1u16
    } else {
        0u16
    }
    &&& bytes::le16(cd, x + 0xAA) == 0x5003
    &&& bytes::le16(cd, x + 0xAC) == 0x24
    &&& e.sha256 == cd.subrange(x + 0xAE, x + 0xCE)
}

/// The entry is what the record of a plain ZIP directory at `at` says, and the record
/// ends at `next`. Such an entry is not encrypted and has no digest.
pub open spec fn is_plain_record(cd: Seq<u8>, at: int, e: EntryModel, next: int) -> bool {
    let x = at + 46 + bytes::le16(cd, at + 28);
    &&& next == x + bytes::le16(cd, at + 30) + bytes::le16(cd, at + 32)
    &&& next <= cd.len()
    &&& bytes::le32(cd, at) == 0x0201_4B50
    &&& v2_laws::method_number(e.compression_method) == bytes::le16(cd, at + 10)
    &&& e.last_mod_file_time == bytes::le16(cd, at + 12)
    &&& e.last_mod_file_date == bytes::le16(cd, at + 14)
    &&& e.crc32 == bytes::le32(cd, at + 16)
    &&& e.compressed_size == bytes::le32(cd, at + 20)
    &&& e.bytes_already_written == bytes::le32(cd, at + 20)
    &&& e.uncompressed_size == bytes::le32(cd, at + 24)
    &&& e.local_header_offset == bytes::le32(cd, at + 42)
    &&& e.name == text::lossy_text(path::normalized(cd.subrange(at + 46, x), false))
    &&& !e.is_encrypted
    &&& e.signature.len() == 128
    &&& forall|j: int| 0 <= j < 128 ==> e.signature[j] == 0
    &&& e.sha256.len() == 32
    &&& forall|j: int| 0 <= j < 32 ==> e.sha256[j] == 0
}

proof fn lemma_halves(s: Seq<u8>, at: int)
    requires
        0 <= at,
        at + 4 <= s.len(),
    ensures
        v1::dos_time(bytes::le32(s, at)) == bytes::le16(s, at),
        v1::dos_date(bytes::le32(s, at)) == bytes::le16(s, at + 2),
{
    reveal(bytes::le16);
    reveal(bytes::le32);
    let a = s[at] as int;
    let b = s[at + 1] as int;
    let c = s[at + 2] as int;
    let d = s[at + 3] as int;
    let low = a + 0x100 * b;
    let high = c + 0x100 * d;
    assert(bytes::le32(s, at) == low + 0x1_0000 * high);
}

/// A record of a ZIP64 directory is read as an entry if and only if the bytes say
/// so, field by field.
pub proof fn law_zip64_record(cd: Seq<u8>, at: int, index: int, e: EntryModel, next: int)
    requires
        0 <= at,
        cd.len() <= usize::MAX,
    ensures
        v1::entry_outcome(cd, true, at, index) == Ok::<(EntryModel, int), Fault>((e, next))
            <==> is_zip64_record(cd, at, e, next),
{
    if at + 46 <= cd.len() {
        lemma_halves(cd, at + 12);
    }
    let x = at + 46 + bytes::le16(cd, at + 28);
    if is_zip64_record(cd, at, e, next) {
        assert(v1::record_bounds_fault(cd, at, index) is None);
        assert(v1::extras_fault(cd, x) is None);
        assert(v1::zip64_entry(cd, at) == e);
    }
}

/// A record of a plain ZIP directory is read as an entry if and only if the bytes
/// say so, field by field.
pub proof fn law_plain_record(cd: Seq<u8>, at: int, index: int, e: EntryModel, next: int)
    requires
        0 <= at,
        cd.len() <= usize::MAX,
    ensures
        v1::entry_outcome(cd, false, at, index) == Ok::<(EntryModel, int), Fault>((e, next))
            <==> is_plain_record(cd, at, e, next),
{
    if at + 46 <= cd.len() {
        lemma_halves(cd, at + 12);
    }
    if is_plain_record(cd, at, e, next) {
        assert(e.signature =~= bytes::zeros(128));
        assert(e.sha256 =~= bytes::zeros(32));
    }
}

/// The entry is what the record at `at` says, in a directory of the given kind.
pub open spec fn is_record(cd: Seq<u8>, zip64: bool, at: int, e: EntryModel, next: int) -> bool {
    if zip64 {
        is_zip64_record(cd, at, e, next)
    } else {
        is_plain_record(cd, at, e, next)
    }
}

/// The records of a directory stand one behind the other, the first at its start,
/// and each says what the entry at its place in the list says.
pub open spec fn is_listed(
    cd: Seq<u8>,
    zip64: bool,
    entries: Seq<EntryModel>,
    starts: Seq<int>,
) -> bool {
    &&& starts.len() == entries.len() + 1
    &&& starts[0] == 0
    &&& forall|i: int|
        0 <= i < entries.len() ==> is_record(
            cd,
            zip64,
            starts[i],
            #[trigger] entries[i],
            starts[i + 1],
        )
}

/// A list of records is read as the entries that stand in it, in their order, all of
/// them.
pub proof fn law_records_in_order(
    cd: Seq<u8>,
    zip64: bool,
    entries: Seq<EntryModel>,
    used: int,
)
    requires
        cd.len() <= usize::MAX,
    ensures
        v1::entries_outcome(cd, zip64, entries.len()) == Ok::<(Seq<EntryModel>, int), Fault>(
            (entries, used),
        ) <==> exists|starts: Seq<int>| #[trigger]
            is_listed(cd, zip64, entries, starts) && starts.last() == used,
    decreases entries.len(),
{
    if v1::entries_outcome(cd, zip64, entries.len()) == Ok::<(Seq<EntryModel>, int), Fault>(
        (entries, used),
    ) {
        let starts = lemma_starts(cd, zip64, entries, used);
        assert(is_listed(cd, zip64, entries, starts) && starts.last() == used);
    }
    if exists|starts: Seq<int>| #[trigger]
        is_listed(cd, zip64, entries, starts) && starts.last() == used {
        let starts = choose|starts: Seq<int>| #[trigger]
            is_listed(cd, zip64, entries, starts) && starts.last() == used;
        lemma_listed(cd, zip64, entries, starts);
    }
}

proof fn lemma_starts(cd: Seq<u8>, zip64: bool, entries: Seq<EntryModel>, used: int) -> (starts: Seq<
    int,
>)
    requires
        cd.len() <= usize::MAX,
        v1::entries_outcome(cd, zip64, entries.len()) == Ok::<(Seq<EntryModel>, int), Fault>(
            (entries, used),
        ),
    ensures
        is_listed(cd, zip64, entries, starts),
        starts.last() == used,
        0 <= used,
    decreases entries.len(),
{
    if entries.len() == 0 {
        seq![0]
    } else {
        let n = (entries.len() - 1) as nat;
        let (short, at) = v1::entries_outcome(cd, zip64, n)->Ok_0;
        v1::lemma_entries_sized(cd, zip64, n);
        lemma_count(cd, zip64, n);
        let before = lemma_starts(cd, zip64, short, at);
        let e = entries[n as int];
        assert(entries == short.push(e));
        if zip64 {
            law_zip64_record(cd, at, n as int, e, used);
        } else {
            law_plain_record(cd, at, n as int, e, used);
        }
        let starts = before.push(used);
        assert forall|i: int| 0 <= i < entries.len() implies is_record(
            cd,
            zip64,
            starts[i],
            #[trigger] entries[i],
            starts[i + 1],
        ) by {
            if i < n {
                assert(entries[i] == short[i]);
                assert(is_record(cd, zip64, before[i], short[i], before[i + 1]));
            }
        }
        starts
    }
}

proof fn lemma_count(cd: Seq<u8>, zip64: bool, count: nat)
    ensures
        v1::entries_outcome(cd, zip64, count) is Ok ==> v1::entries_outcome(
            cd,
            zip64,
            count,
        )->Ok_0.0.len() == count,
    decreases count,
{
    if count > 0 {
        lemma_count(cd, zip64, (count - 1) as nat);
    }
}

proof fn lemma_listed(cd: Seq<u8>, zip64: bool, entries: Seq<EntryModel>, starts: Seq<int>)
    requires
        cd.len() <= usize::MAX,
        is_listed(cd, zip64, entries, starts),
    ensures
        0 <= starts.last(),
        v1::entries_outcome(cd, zip64, entries.len()) == Ok::<(Seq<EntryModel>, int), Fault>(
            (entries, starts.last()),
        ),
    decreases entries.len(),
{
    if entries.len() == 0 {
        assert(entries =~= Seq::empty());
    } else {
        let n = (entries.len() - 1) as nat;
        let short = entries.drop_last();
        let before = starts.drop_last();
        assert forall|i: int| 0 <= i < short.len() implies is_record(
            cd,
            zip64,
            before[i],
            #[trigger] short[i],
            before[i + 1],
        ) by {
            assert(is_record(cd, zip64, starts[i], entries[i], starts[i + 1]));
        }
        lemma_listed(cd, zip64, short, before);
        let e = entries[n as int];
        let at = before.last();
        assert(is_record(cd, zip64, starts[n as int], e, starts[n as int + 1]));
        if zip64 {
            law_zip64_record(cd, at, n as int, e, starts.last());
        } else {
            law_plain_record(cd, at, n as int, e, starts.last());
        }
        assert(entries =~= short.push(e));
    }
}

/// `at` is the last place up to `to` where the four bytes stand, and not below `from`.
pub open spec fn is_last_mark(data: Seq<u8>, mark: Seq<u8>, from: int, to: int, at: int) -> bool {
    &&& 0 <= at
    &&& from <= at <= to
    &&& at + 4 <= data.len()
    &&& data.subrange(at, at + 4) == mark
    &&& forall|j: int|
        at < j <= to && j + 4 <= data.len() ==> #[trigger] data.subrange(j, j + 4) != mark
}

/// The summary is what the end records of a file whose contents end at `end` say:
/// the plain one where it holds no placeholder, and the ZIP64 one otherwise.
pub open spec fn is_summary_of(data: Seq<u8>, end: int, s: V1Summary) -> bool {
    let at = s.eocd_offset as int;
    let z = bytes::le64(data, at - 12);
    &&& is_last_mark(data, seq![0x50u8, 0x4Bu8, 5u8, 6u8], end - 65557, end - 4, at)
    &&& at + 22 <= data.len()
    &&& s.comment_length == bytes::le16(data, at + 20)
    &&& s.is_zip64 == (bytes::le16(data, at + 10) == 0xFFFF || bytes::le32(data, at + 12)
        == 0xFFFF_FFFF || bytes::le32(data, at + 16) == 0xFFFF_FFFF)
    &&& s.cdr_offset + s.cdr_size <= at
    &&& !s.is_zip64 ==> {
        &&& s.count == bytes::le16(data, at + 10)
        &&& s.cdr_size == bytes::le32(data, at + 12)
        &&& s.cdr_offset == bytes::le32(data, at + 16)
    }
    &&& s.is_zip64 ==> {
        &&& bytes::le16(data, at + 4) == 0xFFFF
        &&& bytes::le16(data, at + 6) == 0xFFFF
        &&& bytes::le16(data, at + 8) == 0xFFFF
        &&& bytes::le16(data, at + 10) == 0xFFFF
        &&& bytes::le32(data, at + 12) == 0xFFFF_FFFF
        &&& bytes::le32(data, at + 16) == 0xFFFF_FFFF
        &&& s.comment_length == 16
        &&& is_last_mark(data, seq![0x50u8, 0x4Bu8, 6u8, 7u8], at - 20, at - 1, at - 20)
        &&& bytes::le32(data, at - 16) == 0
        &&& bytes::le32(data, at - 4) == 1
        &&& z + 56 == at - 20
        &&& bytes::le32(data, z as int) == 0x0606_4B50
        &&& bytes::le64(data, z + 4) == 44
        &&& bytes::le16(data, z + 12) == 46
        &&& bytes::le16(data, z + 14) == 45
        &&& bytes::le32(data, z + 16) == 0
        &&& bytes::le32(data, z + 20) == 0
        &&& bytes::le64(data, z + 24) == s.count
        &&& bytes::le64(data, z + 32) == s.count
        &&& s.count <= 0xFFFF_FFFF
        &&& s.cdr_size == bytes::le64(data, z + 40)
        &&& s.cdr_offset == bytes::le64(data, z + 48)
        &&& s.cdr_offset + s.cdr_size == z
    }
}

proof fn lemma_mark(data: Seq<u8>, mark: Seq<u8>, from: int, to: int, least: int, at: int)
    requires
        mark.len() == 4,
        least == if from > 0 {
            from
        } else {
            0
        },
        0 <= at ==> from <= at || from > 0,
    ensures
        scan::last_position(data, mark, least, to) == Some(at) <==> is_last_mark(
            data,
            mark,
            from,
            to,
            at,
        ),
{
    lemma_position(data, mark, least, to);
    if is_last_mark(data, mark, from, to, at) {
        assert forall|j: int| at < j <= to implies !scan::occurs_at(data, mark, j) by {
            if j + 4 <= data.len() {
                assert(data.subrange(j, j + 4) != mark);
            }
        }
        scan::lemma_last_position(data, mark, least, to, Some(at));
    }
    if scan::last_position(data, mark, least, to) == Some(at) {
        assert forall|j: int| at < j <= to && j + 4 <= data.len() implies #[trigger] data.subrange(
            j,
            j + 4,
        ) != mark by {
            assert(!scan::occurs_at(data, mark, j));
        }
    }
}

proof fn lemma_position(data: Seq<u8>, mark: Seq<u8>, from: int, to: int)
    ensures
        match scan::last_position(data, mark, from, to) {
            Some(at) => from <= at <= to && scan::occurs_at(data, mark, at) && forall|j: int|
                at < j <= to ==> !scan::occurs_at(data, mark, j),
            None => forall|j: int| from <= j <= to ==> !scan::occurs_at(data, mark, j),
        },
    decreases to - from + 1,
{
    if to >= from && !scan::occurs_at(data, mark, to) {
        lemma_position(data, mark, from, to - 1);
    }
}

/// The end records of a file are read as a summary if and only if the bytes say so,
/// field by field.
pub proof fn law_v1_summary(data: Seq<u8>, end: int, s: V1Summary)
    requires
        0 <= end <= data.len() <= usize::MAX,
    ensures
        v1::summary_outcome(data, end) == Ok::<V1Summary, Fault>(s) <==> is_summary_of(
            data,
            end,
            s,
        ),
{
    let at = s.eocd_offset as int;
    let mark = seq![0x50u8, 0x4Bu8, 5u8, 6u8];
    let least = if end > 65557 {
        end - 65557
    } else {
        0
    };
    lemma_mark(data, mark, end - 65557, end - 4, least, at);
    let second = seq![0x50u8, 0x4Bu8, 6u8, 7u8];
    let low = if at > 100 {
        at - 100
    } else {
        0
    };
    lemma_mark(data, second, at - 100, at - 1, low, at - 20);
    assert(mark =~= scan::eocd_signature());
    assert(second =~= scan::eocd64_locator_signature());
    if v1::summary_outcome(data, end) == Ok::<V1Summary, Fault>(s) {
        lemma_position(data, mark, least, end - 4);
        assert(v1::eocd_at(data, end) == Some(at));
    }
    if is_summary_of(data, end, s) {
        assert(v1::eocd_at(data, end) == Some(at));
        if s.is_zip64 {
            assert(v1::locator_at(data, at) == Some(at - 20));
            assert(v1::zip64_fault(data, at) is None);
        }
        assert(v1::trailing_fault(data, at) is None);
        assert(v1::unchecked_summary(data, at) == s);
    }
}

/// Whether the comment of the end record at `at` starts with the mark of an install
/// block.
pub open spec fn is_marked(data: Seq<u8>, at: int) -> bool {
    data[at + 22] == 0x43 && data[at + 23] == 0x49
}

/// How many freelist records the comment of the end record at `at` says there are.
pub open spec fn free_count(data: Seq<u8>, at: int) -> u64 {
    if is_marked(data, at) {
        bytes::le64(data, at + 30)
    } else {
        0
    }
}

/// Where the install block starts: right before the directory, with twelve bytes for
/// each record and sixteen for each free range.
pub open spec fn install_start(data: Seq<u8>, s: V1Summary) -> int {
    s.cdr_offset - 12 * s.count - 16 * free_count(data, s.eocd_offset as int)
}

/// The record with the progress that the install block notes for it.
pub open spec fn noted(data: Seq<u8>, start: int, e: EntryModel, index: int) -> EntryModel {
    EntryModel { bytes_already_written: bytes::le64(data, start + 12 * index), ..e }
}

/// The install block and the comment of the end record are sound.
pub open spec fn has_sound_install(data: Seq<u8>, s: V1Summary, records: Seq<EntryModel>) -> bool {
    let at = s.eocd_offset as int;
    let start = install_start(data, s);
    let sector = bytes::le16(data, at + 28);
    &&& at + 38 <= data.len()
    &&& is_marked(data, at) ==> {
        &&& bytes::le32(data, at + 24) == 0x1_0047
        &&& exists|k: nat| sector == #[trigger] vstd::arithmetic::power2::pow2(k)
        &&& data.len() as int % sector as int == 0
        &&& forall|j: int| at + 38 <= j < data.len() ==> data[j] == 0
        &&& forall|i: int|
            0 <= i < records.len() ==> (#[trigger] records[i]).local_header_offset % (sector as u64)
                == 0
    }
    &&& 0 <= start
    &&& forall|i: int|
        0 <= i < records.len() ==> bytes::le64(data, start + 12 * i) <= (
        #[trigger] records[i]).compressed_size && bytes::le32(data, start + 12 * i + 8) == 0
    &&& forall|i: int|
        0 <= i < free_count(data, at) ==> is_free_at(
            data,
            start + 12 * s.count + 16 * i,
            #[trigger] free_at(data, start + 12 * s.count, i),
        )
}

/// The free range of the freelist record with the given index.
pub open spec fn free_at(data: Seq<u8>, start: int, index: int) -> P4kFreelistBlock {
    P4kFreelistBlock {
        offset: bytes::le64(data, start + 16 * index),
        size: bytes::le64(data, start + 16 * index + 8),
    }
}

/// The block is what the freelist record at `at` says.
pub open spec fn is_free_at(data: Seq<u8>, at: int, block: P4kFreelistBlock) -> bool {
    &&& block.offset == bytes::le64(data, at)
    &&& block.size == bytes::le64(data, at + 8)
    &&& block.size > 0
    &&& block.offset + block.size <= u64::MAX
}

/// No earlier record has the name of the record with the given index.
pub open spec fn is_first_of_name(records: Seq<EntryModel>, index: int) -> bool {
    forall|j: int|
        0 <= j < index ==> path::name_key(#[trigger] records[j].name) != path::name_key(
            records[index].name,
        )
}

/// The entries are those records that are the first of their name, in order, with the
/// progress noted for them; `picks` says which.
pub open spec fn are_firsts(
    data: Seq<u8>,
    start: int,
    records: Seq<EntryModel>,
    entries: Seq<EntryModel>,
    picks: Seq<int>,
) -> bool {
    &&& picks.len() == entries.len()
    &&& forall|a: int|
        0 <= a < picks.len() ==> 0 <= #[trigger] picks[a] < records.len() && entries[a] == noted(
            data,
            start,
            records[picks[a]],
            picks[a],
        ) && is_first_of_name(records, picks[a])
    &&& forall|a: int, b: int|
        0 <= a < b < picks.len() ==> #[trigger] picks[a] < #[trigger] picks[b]
    &&& forall|i: int|
        0 <= i < records.len() && #[trigger] is_first_of_name(records, i) ==> picks.contains(i)
}

/// Directory `d` is what a file with the given summary and records holds.
pub open spec fn is_v1_directory(
    data: Seq<u8>,
    end: int,
    s: V1Summary,
    records: Seq<EntryModel>,
    d: DirectoryModel,
) -> bool {
    let at = s.eocd_offset as int;
    let start = install_start(data, s);
    let has_block = s.is_zip64 && start < s.cdr_offset;
    &&& d.layout.file_size == data.len()
    &&& d.layout.actual_content_end == end
    &&& d.layout.physical_sector_size == if s.is_zip64 && is_marked(data, at) {
        Some(bytes::le16(data, at + 28) as u64)
    } else {
        None
    }
    &&& d.layout.cdr_offset == s.cdr_offset
    &&& d.layout.cdr_size == s.cdr_size
    &&& d.layout.name_table_offset is None
    &&& d.layout.name_table_size == 0
    &&& d.layout.end_of_payload == if has_block {
        Some(start as u64)
    } else {
        None
    }
    &&& d.layout.install_block_offset == d.layout.end_of_payload
    &&& d.layout.install_block_size == if has_block {
        Some((s.cdr_offset - start) as u64)
    } else {
        None
    }
    &&& d.layout.eocd_offset == at
    &&& d.layout.manifest_sha256 is None
    &&& !s.is_zip64 ==> d.entries == records && d.freelist_blocks.len() == 0
    &&& s.is_zip64 ==> has_sound_install(data, s, records)
    &&& s.is_zip64 && !is_marked(data, at) ==> {
        &&& d.freelist_blocks.len() == 0
        &&& d.entries.len() == records.len()
        &&& forall|i: int|
            0 <= i < records.len() ==> #[trigger] d.entries[i] == noted(
                data,
                start,
                records[i],
                i,
            )
    }
    &&& s.is_zip64 && is_marked(data, at) ==> exists|picks: Seq<int>| #[trigger]
        are_firsts(data, start, records, d.entries, picks)
    &&& s.is_zip64 && is_marked(data, at) ==> exists|free: Seq<P4kFreelistBlock>, drops: Seq<int>|
        {
            &&& #[trigger] are_free(data, s, records, free, drops)
            &&& freelist::merged_blocks(free) == Some(d.freelist_blocks)
        }
}

/// The free ranges are those of the freelist records, followed by one for each record
/// that is not the first of its name, in order: it starts at the local record and
/// reaches over that and the payload, up to the next sector. `drops` says which
/// records those are.
pub open spec fn are_free(
    data: Seq<u8>,
    s: V1Summary,
    records: Seq<EntryModel>,
    free: Seq<P4kFreelistBlock>,
    drops: Seq<int>,
) -> bool {
    let at = s.eocd_offset as int;
    let count = free_count(data, at);
    let sector = bytes::le16(data, at + 28);
    &&& free.len() == count + drops.len()
    &&& forall|i: int|
        0 <= i < count ==> #[trigger] free[i] == free_at(
            data,
            install_start(data, s) + 12 * s.count,
            i,
        )
    &&& are_drops(records, drops, records.len())
    &&& forall|a: int|
        0 <= a < drops.len() ==> is_freed(
            data,
            sector as u64,
            records[#[trigger] drops[a]],
            free[count + a],
        )
}

/// The positions below `count` are listed, in order, of the records that are not the
/// first of their name.
pub open spec fn are_drops(records: Seq<EntryModel>, drops: Seq<int>, count: nat) -> bool {
    &&& forall|a: int|
        0 <= a < drops.len() ==> 0 <= #[trigger] drops[a] < count && !is_first_of_name(
            records,
            drops[a],
        )
    &&& forall|a: int, b: int|
        0 <= a < b < drops.len() ==> #[trigger] drops[a] < #[trigger] drops[b]
    &&& forall|i: int|
        0 <= i < count && !#[trigger] is_first_of_name(records, i) ==> drops.contains(i)
}

/// The block is the range that an entry takes with its local record, up to the next
/// sector.
pub open spec fn is_freed(
    data: Seq<u8>,
    sector: u64,
    e: EntryModel,
    block: P4kFreelistBlock,
) -> bool {
    let at = e.local_header_offset as int;
    let taken = local_laws::local_record_size(data, at) + e.compressed_size;
    &&& local_laws::has_local_header(data, at)
    &&& block.offset == at
    &&& block.size % sector == 0
    &&& taken <= block.size < taken + sector
}

/// The bytes of the directory.
pub open spec fn directory_bytes(data: Seq<u8>, s: V1Summary) -> Seq<u8> {
    data.subrange(s.cdr_offset as int, s.cdr_offset + s.cdr_size)
}

/// A version 1 file opens as what its end records, its directory records and its
/// install block say: every record is listed in its place, with the progress noted
/// for it, and of records that share a name only the first is.
pub proof fn law_v1_directory(data: Seq<u8>, end: int, d: DirectoryModel)
    requires
        0 <= end <= data.len(),
        data.len() + 0x10_0000 <= usize::MAX,
    ensures
        v1_install::v1_outcome(data, end) == Ok::<DirectoryModel, Fault>(d) ==> exists|
            s: V1Summary,
            records: Seq<EntryModel>,
            starts: Seq<int>,
        |
            {
                &&& is_summary_of(data, end, s)
                &&& records.len() == s.count
                &&& #[trigger] is_listed(directory_bytes(data, s), s.is_zip64, records, starts)
                &&& starts.last() == s.cdr_size
                &&& #[trigger] is_v1_directory(data, end, s, records, d)
            },
{
    if v1_install::v1_outcome(data, end) == Ok::<DirectoryModel, Fault>(d) {
        let s = v1::summary_outcome(data, end)->Ok_0;
        let cd = directory_bytes(data, s);
        law_v1_summary(data, end, s);
        let (records, used) = v1::entries_outcome(cd, s.is_zip64, s.count as nat)->Ok_0;
        lemma_count(cd, s.is_zip64, s.count as nat);
        let starts = lemma_starts(cd, s.is_zip64, records, used);
        if s.is_zip64 {
            lemma_installed(data, end, s, records, d);
        }
        assert(is_listed(cd, s.is_zip64, records, starts));
        assert(is_v1_directory(data, end, s, records, d));
    }
}

proof fn lemma_progress(data: Seq<u8>, at: int, entries: Seq<EntryModel>, count: nat)
    requires
        count <= entries.len(),
    ensures
        v1_install::progress_outcome(data, at, entries, count) is Ok ==> {
            let done = v1_install::progress_outcome(data, at, entries, count)->Ok_0;
            &&& done.len() == count
            &&& forall|i: int|
                0 <= i < count ==> #[trigger] done[i] == noted(data, at, entries[i], i)
            &&& forall|i: int|
                0 <= i < count ==> bytes::le64(data, at + 12 * i) <= (
                #[trigger] entries[i]).compressed_size && bytes::le32(data, at + 12 * i + 8) == 0
        },
    decreases count,
{
    if count > 0 {
        lemma_progress(data, at, entries, (count - 1) as nat);
    }
}

proof fn lemma_free(data: Seq<u8>, at: int, count: nat)
    ensures
        freelist::blocks_outcome(data, at, count) is Ok ==> {
            let blocks = freelist::blocks_outcome(data, at, count)->Ok_0;
            &&& blocks.len() == count
            &&& forall|i: int| 0 <= i < count ==> #[trigger] blocks[i] == free_at(data, at, i)
            &&& forall|i: int|
                0 <= i < count ==> is_free_at(data, at + 16 * i, #[trigger] free_at(data, at, i))
        },
    decreases count,
{
    if count > 0 {
        lemma_free(data, at, (count - 1) as nat);
    }
}

proof fn lemma_installed(
    data: Seq<u8>,
    end: int,
    s: V1Summary,
    records: Seq<EntryModel>,
    d: DirectoryModel,
)
    requires
        0 <= end <= data.len(),
        data.len() + 0x10_0000 <= usize::MAX,
        is_summary_of(data, end, s),
        s.is_zip64,
        records.len() == s.count,
        v1_install::v1_body_outcome(data, end, s, records) == Ok::<DirectoryModel, Fault>(d),
    ensures
        is_v1_directory(data, end, s, records, d),
{
    let at = s.eocd_offset as int;
    let start = install_start(data, s);
    let (free, sector) = v1_install::comment_outcome(data, at, s.comment_length)->Ok_0;
    assert(free == free_count(data, at));
    assert(start == s.cdr_offset - v1_install::install_size(records.len(), free));
    let done = v1_install::progress_outcome(data, start, records, records.len())->Ok_0;
    lemma_progress(data, start, records, records.len());
    lemma_free(data, start + 12 * records.len(), free as nat);
    let (installed, blocks) = v1_install::installed_outcome(
        data,
        s.cdr_offset,
        free,
        records,
    )->Ok_0;
    assert(installed == done);
    if is_marked(data, at) {
        let size = bytes::le16(data, at + 28);
        align::law_powers_of_two(size as nat);
        let picks = lemma_picks(data, start, size as u64, records, done, blocks, done.len());
        assert(are_firsts(data, start, records, d.entries, picks));
        lemma_pow2_positive(size as nat);
        let drops = lemma_drops(data, start, size as u64, records, done, blocks, done.len());
        let freed = v1_install::deduplicated(data, size as u64, done, blocks, done.len())->Ok_0.1;
        assert(are_free(data, s, records, freed, drops));
    }
}

proof fn lemma_pow2_positive(n: nat)
    requires
        align::is_pow2(n),
    ensures
        n > 0,
{
}

proof fn lemma_first_or_repeated(
    data: Seq<u8>,
    start: int,
    records: Seq<EntryModel>,
    done: Seq<EntryModel>,
    n: int,
)
    requires
        done.len() == records.len(),
        0 <= n < done.len(),
        forall|i: int|
            0 <= i < done.len() ==> #[trigger] done[i] == noted(data, start, records[i], i),
    ensures
        is_first_of_name(records, n) <==> !v1_install::is_repeated(done, n),
{
    if !is_first_of_name(records, n) {
        let j = choose|j: int|
            0 <= j < n && path::name_key(#[trigger] records[j].name) == path::name_key(
                records[n].name,
            );
        assert(done[j] == noted(data, start, records[j], j));
        assert(path::name_key(done[j].name) == path::name_key(done[n].name));
        assert(v1_install::is_repeated(done, n));
    }
    if v1_install::is_repeated(done, n) {
        let j = choose|j: int|
            0 <= j < n && path::name_key(#[trigger] done[j].name) == path::name_key(done[n].name);
        assert(records[j].name == done[j].name);
    }
}

proof fn lemma_freed(data: Seq<u8>, sector: u64, e: EntryModel, block: P4kFreelistBlock)
    requires
        data.len() + 0x10_0000 <= usize::MAX,
        sector > 0,
        v1_install::freed_range(data, sector, e) == Ok::<P4kFreelistBlock, Fault>(block),
    ensures
        is_freed(data, sector, e, block),
{
    let size = local::record_size_outcome(data, e.local_header_offset)->Ok_0;
    local_laws::law_local_record_size(data, e.local_header_offset, size);
    align::lemma_aligned_up(size + e.compressed_size, sector as int);
}

proof fn lemma_drops(
    data: Seq<u8>,
    start: int,
    sector: u64,
    records: Seq<EntryModel>,
    done: Seq<EntryModel>,
    blocks: Seq<P4kFreelistBlock>,
    count: nat,
) -> (drops: Seq<int>)
    requires
        data.len() + 0x10_0000 <= usize::MAX,
        sector > 0,
        done.len() == records.len(),
        count <= done.len(),
        forall|i: int|
            0 <= i < done.len() ==> #[trigger] done[i] == noted(data, start, records[i], i),
        v1_install::deduplicated(data, sector, done, blocks, count) is Ok,
    ensures
        are_drops(records, drops, count),
        ({
            let free = v1_install::deduplicated(data, sector, done, blocks, count)->Ok_0.1;
            &&& free.len() == blocks.len() + drops.len()
            &&& forall|i: int| 0 <= i < blocks.len() ==> #[trigger] free[i] == blocks[i]
            &&& forall|a: int|
                0 <= a < drops.len() ==> is_freed(
                    data,
                    sector,
                    records[#[trigger] drops[a]],
                    free[blocks.len() + a],
                )
        }),
    decreases count,
{
    if count == 0 {
        Seq::empty()
    } else {
        let n = (count - 1) as nat;
        let before = lemma_drops(data, start, sector, records, done, blocks, n);
        let short = v1_install::deduplicated(data, sector, done, blocks, n)->Ok_0.1;
        let free = v1_install::deduplicated(data, sector, done, blocks, count)->Ok_0.1;
        assert(done[n as int] == noted(data, start, records[n as int], n as int));
        lemma_first_or_repeated(data, start, records, done, n as int);
        if v1_install::is_repeated(done, n as int) {
            let drops = before.push(n as int);
            lemma_freed(data, sector, done[n as int], free.last());
            assert forall|i: int|
                0 <= i < count && !#[trigger] is_first_of_name(
                    records,
                    i,
                ) implies drops.contains(i) by {
                if i < n {
                    let a = choose|a: int| 0 <= a < before.len() && before[a] == i;
                    assert(drops[a] == i);
                } else {
                    assert(drops[before.len() as int] == i);
                }
            }
            assert forall|a: int| 0 <= a < drops.len() implies is_freed(
                data,
                sector,
                records[#[trigger] drops[a]],
                free[blocks.len() + a],
            ) by {
                if a < before.len() {
                    assert(drops[a] == before[a]);
                    assert(free[blocks.len() + a] == short[blocks.len() + a]);
                }
            }
            drops
        } else {
            before
        }
    }
}

proof fn lemma_picks(
    data: Seq<u8>,
    start: int,
    sector: u64,
    records: Seq<EntryModel>,
    done: Seq<EntryModel>,
    blocks: Seq<P4kFreelistBlock>,
    count: nat,
) -> (picks: Seq<int>)
    requires
        done.len() == records.len(),
        count <= done.len(),
        forall|i: int|
            0 <= i < done.len() ==> #[trigger] done[i] == noted(data, start, records[i], i),
        v1_install::deduplicated(data, sector, done, blocks, count) is Ok,
    ensures
        forall|i: int|
            0 <= i < count ==> (#[trigger] records[i]).local_header_offset % sector == 0,
        ({
            let kept = v1_install::deduplicated(data, sector, done, blocks, count)->Ok_0.0;
            &&& picks.len() == kept.len()
            &&& forall|a: int|
                0 <= a < picks.len() ==> 0 <= #[trigger] picks[a] < count && kept[a] == noted(
                    data,
                    start,
                    records[picks[a]],
                    picks[a],
                ) && is_first_of_name(records, picks[a])
            &&& forall|a: int, b: int|
                0 <= a < b < picks.len() ==> #[trigger] picks[a] < #[trigger] picks[b]
            &&& forall|i: int|
                0 <= i < count && #[trigger] is_first_of_name(records, i) ==> picks.contains(i)
        }),
    decreases count,
{
    if count == 0 {
        Seq::empty()
    } else {
        let n = (count - 1) as nat;
        let before = lemma_picks(data, start, sector, records, done, blocks, n);
        assert(done[n as int] == noted(data, start, records[n as int], n as int));
        lemma_first_or_repeated(data, start, records, done, n as int);
        if v1_install::is_repeated(done, n as int) {
            before
        } else {
            let picks = before.push(n as int);
            assert forall|i: int|
                0 <= i < count && #[trigger] is_first_of_name(
                    records,
                    i,
                ) implies picks.contains(i) by {
                if i < n {
                    let a = choose|a: int| 0 <= a < before.len() && before[a] == i;
                    assert(picks[a] == i);
                } else {
                    assert(picks[before.len() as int] == i);
                }
            }
            picks
        }
    }
}

/// What the entry takes with its local record can be given back.
pub open spec fn can_be_freed(data: Seq<u8>, sector: u64, e: EntryModel) -> bool {
    let at = e.local_header_offset as int;
    &&& local_laws::has_local_header(data, at)
    &&& at + local_laws::local_record_size(data, at) + e.compressed_size + sector <= u64::MAX
}

/// A version 1 file opens where its end records, its directory records and its
/// install block are sound and what repeated records take can be given back.
pub proof fn law_v1_opens(
    data: Seq<u8>,
    end: int,
    s: V1Summary,
    records: Seq<EntryModel>,
    starts: Seq<int>,
)
    requires
        0 <= end <= data.len(),
        data.len() + 0x10_0000 <= usize::MAX,
        is_summary_of(data, end, s),
        records.len() == s.count,
        is_listed(directory_bytes(data, s), s.is_zip64, records, starts),
        starts.last() == s.cdr_size,
        s.is_zip64 ==> has_sound_install(data, s, records),
        s.is_zip64 && is_marked(data, s.eocd_offset as int) ==> forall|i: int|
            0 <= i < records.len() && !#[trigger] is_first_of_name(records, i) ==> can_be_freed(
                data,
                bytes::le16(data, s.eocd_offset + 28) as u64,
                records[i],
            ),
    ensures
        v1_install::v1_outcome(data, end) is Ok,
{
    let cd = directory_bytes(data, s);
    law_v1_summary(data, end, s);
    lemma_listed(cd, s.is_zip64, records, starts);
    if s.is_zip64 {
        let at = s.eocd_offset as int;
        let start = install_start(data, s);
        let free = free_count(data, at);
        let size = bytes::le16(data, at + 28);
        let done = Seq::new(
            records.len(),
            |i: int| v1_install::with_progress(data, start, records[i], i),
        );
        let blocks = Seq::new(
            free as nat,
            |i: int| freelist::block_at(data, start + 12 * records.len(), i),
        );
        align::law_powers_of_two(size as nat);
        assert(start == s.cdr_offset - v1_install::install_size(records.len(), free));
        assert(v1_install::comment_outcome(data, at, s.comment_length) == Ok::<
            (u64, Option<u64>),
            Fault,
        >(
            (
                free,
                if is_marked(data, at) {
                    Some(size as u64)
                } else {
                    None
                },
            ),
        ));
        assert forall|i: int| 0 <= i < records.len() implies #[trigger] v1_install::progress_fault(
            data,
            start,
            records[i],
            i,
        ) is None by {
            assert(records[i] == records[i]);
        }
        v1_install::lemma_progress_listed(data, start, records, records.len());
        assert forall|i: int| 0 <= i < free implies #[trigger] freelist::block_fault(
            data,
            start + 12 * records.len(),
            i,
        ) is None by {
            assert(is_free_at(
                data,
                start + 12 * s.count + 16 * i,
                free_at(data, start + 12 * s.count, i),
            ));
        }
        freelist::lemma_blocks_listed(data, start + 12 * records.len(), free as nat);
        assert(v1_install::installed_outcome(data, s.cdr_offset, free, records) == Ok::<
            (Seq<EntryModel>, Seq<P4kFreelistBlock>),
            Fault,
        >((done, blocks)));
        if is_marked(data, at) {
            assert forall|i: int| 0 <= i < done.len() implies #[trigger] done[i] == noted(
                data,
                start,
                records[i],
                i,
            ) by {}
            assert forall|i: int| 0 <= i < blocks.len() implies (#[trigger] blocks[i]).offset
                + blocks[i].size <= u64::MAX by {
                assert(is_free_at(
                    data,
                    start + 12 * s.count + 16 * i,
                    free_at(data, start + 12 * s.count, i),
                ));
            }
            lemma_settles(data, start, size as u64, records, done, blocks, done.len());
            let kept = v1_install::deduplicated(
                data,
                size as u64,
                done,
                blocks,
                done.len(),
            )->Ok_0.1;
            freelist::law_merged_blocks(kept, 0);
        }
    }
}

proof fn lemma_settles(
    data: Seq<u8>,
    start: int,
    sector: u64,
    records: Seq<EntryModel>,
    done: Seq<EntryModel>,
    blocks: Seq<P4kFreelistBlock>,
    count: nat,
)
    requires
        data.len() + 0x10_0000 <= usize::MAX,
        sector > 0,
        done.len() == records.len(),
        count <= done.len(),
        forall|i: int|
            0 <= i < done.len() ==> #[trigger] done[i] == noted(data, start, records[i], i),
        forall|i: int|
            0 <= i < records.len() ==> (#[trigger] records[i]).local_header_offset % sector == 0,
        forall|i: int|
            0 <= i < records.len() && !#[trigger] is_first_of_name(records, i) ==> can_be_freed(
                data,
                sector,
                records[i],
            ),
        forall|i: int|
            0 <= i < blocks.len() ==> (#[trigger] blocks[i]).offset + blocks[i].size <= u64::MAX,
    ensures
        v1_install::deduplicated(data, sector, done, blocks, count) is Ok,
        v1_install::deduplicated(data, sector, done, blocks, count)->Ok_0.1.len() <= blocks.len()
            + count,
        forall|i: int|
            0 <= i < v1_install::deduplicated(data, sector, done, blocks, count)->Ok_0.1.len()
                ==> (#[trigger] v1_install::deduplicated(
                data,
                sector,
                done,
                blocks,
                count,
            )->Ok_0.1[i]).offset + v1_install::deduplicated(
                data,
                sector,
                done,
                blocks,
                count,
            )->Ok_0.1[i].size <= u64::MAX,
    decreases count,
{
    if count > 0 {
        let n = (count - 1) as nat;
        lemma_settles(data, start, sector, records, done, blocks, n);
        let e = done[n as int];
        assert(e == noted(data, start, records[n as int], n as int));
        assert(records[n as int].local_header_offset % sector == 0);
        lemma_first_or_repeated(data, start, records, done, n as int);
        if v1_install::is_repeated(done, n as int) {
            assert(can_be_freed(data, sector, records[n as int]));
            let size = local_laws::local_record_size(data, e.local_header_offset as int);
            local_laws::law_local_record_size(data, e.local_header_offset, size as u64);
            align::lemma_aligned_up(size + e.compressed_size, sector as int);
            assert(v1_install::freed_range(data, sector, e) is Ok);
        }
    }
}

/// A record of a method that is not known is refused with the number of the method.
pub proof fn law_unknown_method(cd: Seq<u8>, at: int, index: int)
    requires
        0 <= at,
        cd.len() <= usize::MAX,
        bytes::le16(cd, at + 10) != 0,
        bytes::le16(cd, at + 10) != 8,
        bytes::le16(cd, at + 10) != 93,
        bytes::le16(cd, at + 10) != 100,
        bytes::le16(cd, at + 10) != 101,
        bytes::le32(cd, at) == 0x0201_4B50,
        at + 46 + bytes::le16(cd, at + 28) + bytes::le16(cd, at + 30) + bytes::le16(cd, at + 32)
            <= cd.len(),
    ensures
        v1::entry_outcome(cd, false, at, index) == Err::<(EntryModel, int), Fault>(
            Fault::UnsupportedCompression(bytes::le16(cd, at + 10)),
        ),
{
}


} // verus!
