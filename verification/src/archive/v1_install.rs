//! The install block of a v1 archive, its freelist, and entries that occur twice.

use vstd::prelude::*;
use vstd::seq::*;
use vstd::seq_lib::*;
use vstd::slice::*;
use vstd::string::*;

use crate::align;
use crate::align::{align_up, is_power_of_two};
use crate::archive::freelist;
use crate::archive::freelist::{merge_blocks, read_freelist_blocks};
use crate::archive::local;
use crate::archive::local::v1_local_record_size;
use crate::archive::model;
use crate::archive::model::{
    Directory, DirectoryModel, EntryModel, LayoutModel, P4kArchiveLayout, P4kEntryCompact,
    P4kFreelistBlock,
};
use crate::archive::v1;
use crate::archive::v1::{parse_entries_sequential, read_summary, V1Summary};
use crate::bytes;
use crate::bytes::{all_zero, get_u16, get_u32, get_u64, same_bytes};
use crate::error;
use crate::error::{bad_v1_directory, bad_v1_entry, Fault, Result};
use crate::order;
use crate::order::{sort_positions, Ordered, TextKey};
use crate::path;
use crate::path::filename_handle_bytes;
use crate::text;
use crate::text::{dec, dword};
use crate::zip::EocdRecord;

verus! {

/// The marker in the comment of a P4K archive.
pub const CI_MARKER: u32 = 0x0001_0047;

/// What the comment of a P4K archive says: how many free ranges there are, and
/// the sector size.
pub open spec fn comment_outcome(data: Seq<u8>, eocd: int, length: u16) -> std::result::Result<
    (u64, Option<u64>),
    Fault,
> {
    let at = eocd + 4 + EocdRecord::SIZE;
    let end = at + length;
    let marker = bytes::le32(data, at + 2);
    let sector_size = bytes::le16(data, at + 6);
    if end > usize::MAX {
        Err(Fault::MalformedV1InstallBlock("EOCD comment size overflow"@))
    } else if end > data.len() {
        Err(Fault::MalformedV1InstallBlock("EOCD comment extends past file end"@))
    } else if length < 2 || data[at] != 0x43 || data[at + 1] != 0x49 {
        Ok((0, None))
    } else if length != 16 {
        Err(
            Fault::MalformedV1InstallBlock(
                "P4K CI EOCD comment has "@ + text::dec_text(length as nat)
                    + " bytes, expected 16"@,
            ),
        )
    } else if marker != CI_MARKER {
        Err(
            Fault::MalformedV1InstallBlock(
                "P4K CI EOCD marker "@ + text::dword_text(marker) + ", expected 0x00010047"@,
            ),
        )
    } else if !align::is_pow2(sector_size as nat) {
        Err(
            Fault::MalformedV1InstallBlock(
                "P4K CI EOCD sector size "@ + text::dec_text(sector_size as nat)
                    + ", expected non-zero power of two"@,
            ),
        )
    } else if data.len() as int % sector_size as int != 0 {
        Err(
            Fault::MalformedV1InstallBlock(
                "P4K v1 file size "@ + text::dec_text(data.len())
                    + " is not aligned to CI EOCD sector size "@ + text::dec_text(
                    sector_size as nat,
                ),
            ),
        )
    } else if !bytes::zero_between(data, end, data.len() as int) {
        Err(
            Fault::MalformedV1InstallBlock("non-zero P4K v1 sector padding after EOCD comment"@),
        )
    } else {
        Ok((bytes::le64(data, at + 8), Some(sector_size as u64)))
    }
}

/// Read the comment of a P4K archive.
pub fn read_v1_freelist_metadata(data: &[u8], eocd_offset: usize, comment_length: u16) -> (r:
    Result<(u64, Option<u64>)>)
    requires
        eocd_offset + 4 + EocdRecord::SIZE <= data@.len(),
    ensures
        error::outcome(r) == comment_outcome(data@, eocd_offset as int, comment_length),
        r matches Ok((_, Some(size))) ==> align::is_pow2(size as nat),
{
    assert(data.len() == data@.len());
    let at: usize = eocd_offset + 4 + EocdRecord::SIZE;
    let end: usize = match at.checked_add(comment_length as usize) {
        Some(v) => v,
        None => return bad_v1_directory(String::from_str("EOCD comment size overflow")),
    };
    if end > data.len() {
        return bad_v1_directory(String::from_str("EOCD comment extends past file end"));
    }
    if comment_length < 2 || data[at] != 0x43 || data[at + 1] != 0x49 {
        return Ok((0, None));
    }
    if comment_length != 16 {
        return bad_v1_directory(
            String::from_str("P4K CI EOCD comment has ").concat(
                dec(comment_length as u64).as_str(),
            ).concat(" bytes, expected 16"),
        );
    }
    let marker: u32 = get_u32(data, at + 2);
    if marker != CI_MARKER {
        return bad_v1_directory(
            String::from_str("P4K CI EOCD marker ").concat(dword(marker).as_str()).concat(
                ", expected 0x00010047",
            ),
        );
    }
    let sector_size: u16 = get_u16(data, at + 6);
    if !is_power_of_two(sector_size as u64) {
        return bad_v1_directory(
            String::from_str("P4K CI EOCD sector size ").concat(
                dec(sector_size as u64).as_str(),
            ).concat(", expected non-zero power of two"),
        );
    }
    if data.len() % sector_size as usize != 0 {
        return bad_v1_directory(
            String::from_str("P4K v1 file size ").concat(dec(data.len() as u64).as_str()).concat(
                " is not aligned to CI EOCD sector size ",
            ).concat(dec(sector_size as u64).as_str()),
        );
    }
    if !all_zero(data, end, data.len()) {
        return bad_v1_directory(
            String::from_str("non-zero P4K v1 sector padding after EOCD comment"),
        );
    }
    Ok((get_u64(data, at + 8), Some(sector_size as u64)))
}

/// How many bytes the install block takes.
pub open spec fn install_size(count: nat, freelist_count: u64) -> int {
    12 * count + 16 * freelist_count
}

/// What is wrong with the bounds of the install block.
pub open spec fn install_bounds_fault(count: nat, freelist_count: u64, cdr_offset: u64) -> Option<
    Fault,
> {
    if 12 * count > usize::MAX {
        Some(Fault::MalformedV1InstallBlock("install block size overflow"@))
    } else if freelist_count > usize::MAX {
        Some(Fault::MalformedV1InstallBlock("freelist block count overflows usize"@))
    } else if 16 * freelist_count > usize::MAX {
        Some(Fault::MalformedV1InstallBlock("freelist block size overflow"@))
    } else if install_size(count, freelist_count) > usize::MAX {
        Some(Fault::MalformedV1InstallBlock("install block size overflow"@))
    } else if cdr_offset < install_size(count, freelist_count) {
        Some(
            Fault::MalformedV1InstallBlock(
                "central directory offset "@ + text::dec_text(cdr_offset as nat) + " is before "@
                    + text::dec_text(install_size(count, freelist_count) as nat)
                    + "-byte install block"@,
            ),
        )
    } else {
        None
    }
}

fn check_install_bounds(count: usize, freelist_count: u64, cdr_offset: u64) -> (r: Result<usize>)
    ensures
        match r {
            Ok(size) => {
                &&& install_bounds_fault(count as nat, freelist_count, cdr_offset) is None
                &&& size == install_size(count as nat, freelist_count)
            },
            Err(e) => install_bounds_fault(count as nat, freelist_count, cdr_offset) == Some(e@),
        },
{
    let entry_size: usize = match count.checked_mul(12) {
        Some(v) => v,
        None => return bad_v1_directory(String::from_str("install block size overflow")),
    };
    if freelist_count > usize::MAX as u64 {
        return bad_v1_directory(String::from_str("freelist block count overflows usize"));
    }
    let freelist_size: usize = match (freelist_count as usize).checked_mul(16) {
        Some(v) => v,
        None => return bad_v1_directory(String::from_str("freelist block size overflow")),
    };
    let block_size: usize = match entry_size.checked_add(freelist_size) {
        Some(v) => v,
        None => return bad_v1_directory(String::from_str("install block size overflow")),
    };
    if cdr_offset < block_size as u64 {
        return bad_v1_directory(
            String::from_str("central directory offset ").concat(
                dec(cdr_offset).as_str(),
            ).concat(" is before ").concat(dec(block_size as u64).as_str()).concat(
                "-byte install block",
            ),
        );
    }
    Ok(block_size)
}

/// What is wrong with the install record of an entry.
pub open spec fn progress_fault(data: Seq<u8>, at: int, e: EntryModel, index: int) -> Option<
    Fault,
> {
    let written = bytes::le64(data, at + 12 * index);
    let reserved = bytes::le32(data, at + 12 * index + 8);
    if written > e.compressed_size {
        Some(
            Fault::MalformedV1InstallBlock(
                "entry "@ + text::dec_text(index as nat) + " bytes_already_written "@
                    + text::dec_text(written as nat) + " > compressed_size "@ + text::dec_text(
                    e.compressed_size as nat,
                ),
            ),
        )
    } else if reserved != 0 {
        Some(
            Fault::MalformedV1InstallBlock(
                "entry "@ + text::dec_text(index as nat) + " install reserved word "@
                    + text::dword_text(reserved) + ", expected 0"@,
            ),
        )
    } else {
        None
    }
}

/// An entry with its install record.
pub open spec fn with_progress(data: Seq<u8>, at: int, e: EntryModel, index: int) -> EntryModel {
    EntryModel { bytes_already_written: bytes::le64(data, at + 12 * index), ..e }
}

/// The first `count` entries with their install records, or what is wrong with
/// the first bad one.
pub open spec fn progress_outcome(
    data: Seq<u8>,
    at: int,
    entries: Seq<EntryModel>,
    count: nat,
) -> std::result::Result<Seq<EntryModel>, Fault>
    decreases count,
{
    if count == 0 {
        Ok(Seq::empty())
    } else {
        let index = count - 1;
        match progress_outcome(data, at, entries, index as nat) {
            Err(fault) => Err(fault),
            Ok(done) => match progress_fault(data, at, entries[index], index) {
                Some(fault) => Err(fault),
                None => Ok(done.push(with_progress(data, at, entries[index], index))),
            },
        }
    }
}

proof fn lemma_progress_fault_stays(
    data: Seq<u8>,
    at: int,
    entries: Seq<EntryModel>,
    k: nat,
    count: nat,
)
    requires
        k <= count,
        progress_outcome(data, at, entries, k) is Err,
    ensures
        progress_outcome(data, at, entries, count) == progress_outcome(data, at, entries, k),
    decreases count - k,
{
    if k < count {
        lemma_progress_fault_stays(data, at, entries, k, (count - 1) as nat);
    }
}

/// Good install records are all applied.
pub proof fn lemma_progress_listed(data: Seq<u8>, at: int, entries: Seq<EntryModel>, count: nat)
    requires
        forall|i: int|
            0 <= i < count ==> #[trigger] progress_fault(data, at, entries[i], i) is None,
    ensures
        progress_outcome(data, at, entries, count) == Ok::<Seq<EntryModel>, Fault>(
            Seq::new(count, |i: int| with_progress(data, at, entries[i], i)),
        ),
    decreases count,
{
    let all = Seq::new(count, |i: int| with_progress(data, at, entries[i], i));
    if count > 0 {
        let n = (count - 1) as nat;
        lemma_progress_listed(data, at, entries, n);
        assert(progress_fault(data, at, entries[n as int], n as int) is None);
        assert(all =~= Seq::new(n, |i: int| with_progress(data, at, entries[i], i)).push(
            with_progress(data, at, entries[n as int], n as int),
        ));
    } else {
        assert(all =~= Seq::empty());
    }
}

/// Apply the install records to the entries.
fn apply_progress(data: &[u8], at: usize, entries: &Vec<P4kEntryCompact>) -> (r: Result<
    Vec<P4kEntryCompact>,
>)
    requires
        at + 12 * entries@.len() <= data@.len(),
    ensures
        match r {
            Ok(done) => progress_outcome(
                data@,
                at as int,
                model::entry_models(entries@),
                entries@.len(),
            ) == Ok::<Seq<EntryModel>, Fault>(model::entry_models(done@)),
            Err(e) => progress_outcome(
                data@,
                at as int,
                model::entry_models(entries@),
                entries@.len(),
            ) == Err::<Seq<EntryModel>, Fault>(e@),
        },
{
    assert(data.len() == data@.len());
    let ghost models = model::entry_models(entries@);
    let mut done: Vec<P4kEntryCompact> = Vec::new();
    let mut index: usize = 0;
    assert(model::entry_models(done@) =~= Seq::empty());
    while index < entries.len()
        invariant
            index <= entries@.len(),
            models == model::entry_models(entries@),
            at + 12 * entries@.len() <= data@.len(),
            data@.len() <= usize::MAX,
            progress_outcome(data@, at as int, models, index as nat) == Ok::<
                Seq<EntryModel>,
                Fault,
            >(model::entry_models(done@)),
        decreases entries@.len() - index,
    {
        proof {
            if progress_outcome(data@, at as int, models, (index + 1) as nat) is Err {
                lemma_progress_fault_stays(
                    data@,
                    at as int,
                    models,
                    (index + 1) as nat,
                    entries@.len(),
                );
            }
            assert(entries@[index as int]@ == models[index as int]);
        }
        let written: u64 = get_u64(data, at + 12 * index);
        let limit: u64 = entries[index].compressed_size;
        if written > limit {
            return bad_v1_directory(
                String::from_str("entry ").concat(dec(index as u64).as_str()).concat(
                    " bytes_already_written ",
                ).concat(dec(written).as_str()).concat(" > compressed_size ").concat(
                    dec(limit).as_str(),
                ),
            );
        }
        let reserved: u32 = get_u32(data, at + 12 * index + 8);
        if reserved != 0 {
            return bad_v1_directory(
                String::from_str("entry ").concat(dec(index as u64).as_str()).concat(
                    " install reserved word ",
                ).concat(dword(reserved).as_str()).concat(", expected 0"),
            );
        }
        let ghost before = done@;
        let mut entry = entries[index].duplicate();
        entry.bytes_already_written = written;
        done.push(entry);
        proof {
            assert(model::entry_models(done@) =~= model::entry_models(before).push(entry@));
        }
        index += 1;
    }
    Ok(done)
}

/// Whether an entry before `index` has the same name.
pub open spec fn is_repeated(entries: Seq<EntryModel>, index: int) -> bool {
    exists|j: int|
        0 <= j < index && path::name_key(#[trigger] entries[j].name) == path::name_key(
            entries[index].name,
        )
}

/// The range that an entry leaves free that occurs a second time.
pub open spec fn freed_range(data: Seq<u8>, sector_size: u64, e: EntryModel) -> std::result::Result<
    P4kFreelistBlock,
    Fault,
> {
    match local::record_size_outcome(data, e.local_header_offset) {
        Err(fault) => Err(fault),
        Ok(size) => if size + e.compressed_size > u64::MAX {
            Err(
                Fault::MalformedV1Entry(
                    "duplicate entry "@ + e.name + " free span overflow"@,
                ),
            )
        } else {
            match align::align_up_outcome((size + e.compressed_size) as u64, sector_size) {
                Err(fault) => Err(fault),
                Ok(span) => Ok(P4kFreelistBlock { offset: e.local_header_offset, size: span }),
            }
        },
    }
}

/// The first `count` entries without those that occur a second time, and the
/// free ranges with what those leave free; or what is wrong with the first
/// bad one.
pub open spec fn deduplicated(
    data: Seq<u8>,
    sector_size: u64,
    entries: Seq<EntryModel>,
    blocks: Seq<P4kFreelistBlock>,
    count: nat,
) -> std::result::Result<(Seq<EntryModel>, Seq<P4kFreelistBlock>), Fault>
    decreases count,
{
    if count == 0 {
        Ok((Seq::empty(), blocks))
    } else {
        let e = entries[count - 1];
        match deduplicated(data, sector_size, entries, blocks, (count - 1) as nat) {
            Err(fault) => Err(fault),
            Ok((kept, free)) => if e.local_header_offset % sector_size != 0 {
                Err(
                    Fault::MalformedV1Entry(
                        "entry "@ + e.name + " local header offset "@ + text::dec_text(
                            e.local_header_offset as nat,
                        ) + " is not aligned to physical sector size "@ + text::dec_text(
                            sector_size as nat,
                        ),
                    ),
                )
            } else if !is_repeated(entries, count - 1) {
                Ok((kept.push(e), free))
            } else {
                match freed_range(data, sector_size, e) {
                    Err(fault) => Err(fault),
                    Ok(block) => Ok((kept, free.push(block))),
                }
            },
        }
    }
}

proof fn lemma_deduplicated_fault_stays(
    data: Seq<u8>,
    sector_size: u64,
    entries: Seq<EntryModel>,
    blocks: Seq<P4kFreelistBlock>,
    k: nat,
    count: nat,
)
    requires
        k <= count,
        deduplicated(data, sector_size, entries, blocks, k) is Err,
    ensures
        deduplicated(data, sector_size, entries, blocks, count) == deduplicated(
            data,
            sector_size,
            entries,
            blocks,
            k,
        ),
    decreases count - k,
{
    if k < count {
        lemma_deduplicated_fault_stays(data, sector_size, entries, blocks, k, (count - 1) as nat);
    }
}

/// Whether an entry is listed under the name of `e`.
pub open spec fn has_name_of(kept: Seq<EntryModel>, e: EntryModel) -> bool {
    exists|a: int|
        0 <= a < kept.len() && path::name_key(#[trigger] kept[a].name) == path::name_key(e.name)
}

/// Whether `kept` are entries of the first `count`, no name twice and every name
/// once.
pub open spec fn keeps_names(entries: Seq<EntryModel>, count: nat, kept: Seq<EntryModel>) -> bool {
    &&& forall|a: int, b: int|
        0 <= a < b < kept.len() ==> path::name_key(#[trigger] kept[a].name) != path::name_key(
            #[trigger] kept[b].name,
        )
    &&& forall|i: int| 0 <= i < count ==> has_name_of(kept, #[trigger] entries[i])
    &&& forall|a: int|
        0 <= a < kept.len() ==> exists|i: int| 0 <= i < count && entries[i] == #[trigger] kept[a]
}

proof fn lemma_one_left_out(entries: Seq<EntryModel>, n: nat, short: Seq<EntryModel>)
    requires
        n < entries.len(),
        keeps_names(entries, n, short),
        is_repeated(entries, n as int),
    ensures
        keeps_names(entries, n + 1, short),
{
    let j = choose|j: int|
        0 <= j < n && path::name_key(#[trigger] entries[j].name) == path::name_key(
            entries[n as int].name,
        );
    assert(has_name_of(short, entries[j]));
}

proof fn lemma_one_kept(entries: Seq<EntryModel>, n: nat, short: Seq<EntryModel>)
    requires
        n < entries.len(),
        keeps_names(entries, n, short),
        !is_repeated(entries, n as int),
    ensures
        keeps_names(entries, n + 1, short.push(entries[n as int])),
{
    let e = entries[n as int];
    let kept = short.push(e);
    assert(kept[short.len() as int] == e);
    assert forall|a: int, b: int| 0 <= a < b < kept.len() implies path::name_key(
        #[trigger] kept[a].name,
    ) != path::name_key(#[trigger] kept[b].name) by {
        assert(kept[a] == short[a]);
        if b < short.len() {
            assert(kept[b] == short[b]);
        } else {
            let i = choose|i: int| 0 <= i < n && entries[i] == short[a];
            assert(entries[i].name == short[a].name);
        }
    }
    assert forall|i: int| 0 <= i < n + 1 implies has_name_of(kept, #[trigger] entries[i]) by {
        if i < n {
            assert(has_name_of(short, entries[i]));
            let a = choose|a: int|
                0 <= a < short.len() && path::name_key(#[trigger] short[a].name)
                    == path::name_key(entries[i].name);
            assert(kept[a] == short[a]);
        } else {
            assert(kept[short.len() as int].name == entries[i].name);
        }
    }
    assert forall|a: int| 0 <= a < kept.len() implies exists|i: int|
        0 <= i < n + 1 && entries[i] == #[trigger] kept[a] by {
        if a < short.len() {
            assert(kept[a] == short[a]);
            let i = choose|i: int| 0 <= i < n && entries[i] == short[a];
            assert(entries[i] == kept[a]);
        } else {
            assert(entries[n as int] == kept[a]);
        }
    }
}

/// After duplicates are removed, no name occurs twice and every name occurs.
pub proof fn law_deduplicated_names(
    data: Seq<u8>,
    sector_size: u64,
    entries: Seq<EntryModel>,
    blocks: Seq<P4kFreelistBlock>,
    count: nat,
)
    requires
        count <= entries.len(),
        deduplicated(data, sector_size, entries, blocks, count) is Ok,
    ensures
        keeps_names(
            entries,
            count,
            deduplicated(data, sector_size, entries, blocks, count)->Ok_0.0,
        ),
    decreases count,
{
    if count > 0 {
        let n = (count - 1) as nat;
        let short = deduplicated(data, sector_size, entries, blocks, n)->Ok_0.0;
        law_deduplicated_names(data, sector_size, entries, blocks, n);
        if is_repeated(entries, n as int) {
            lemma_one_left_out(entries, n, short);
        } else {
            lemma_one_kept(entries, n, short);
        }
    }
}

/// In sorted order, a name that occurs a second time follows the same name.
proof fn lemma_repeated_in_order(
    entries: Seq<EntryModel>,
    keys: Seq<TextKey>,
    sorted: Seq<usize>,
    k: int,
)
    requires
        keys.len() == entries.len(),
        entries.len() <= usize::MAX,
        forall|i: int|
            0 <= i < keys.len() ==> (#[trigger] keys[i]).bytes@ == path::name_key(entries[i].name),
        order::is_order(keys, sorted),
        0 <= k < sorted.len(),
    ensures
        is_repeated(entries, sorted[k] as int) <==> k > 0 && keys[sorted[k - 1] as int].bytes@
            == keys[sorted[k] as int].bytes@,
{
    let i = sorted[k] as int;
    assert(sorted[k] < keys.len());
    if k > 0 && keys[sorted[k - 1] as int].bytes@ == keys[i].bytes@ {
        let h = sorted[k - 1] as int;
        assert(sorted[k - 1] < keys.len());
        assert(order::precedes(keys, sorted[k - 1] as int, sorted[k] as int));
        TextKey::law_weak_order(&keys[i], &keys[i], &keys[i]);
        assert(h < i);
        assert(path::name_key(entries[h].name) == path::name_key(entries[i].name));
    }
    if is_repeated(entries, i) {
        let j = choose|j: int|
            0 <= j < i && path::name_key(#[trigger] entries[j].name) == path::name_key(
                entries[i].name,
            );
        assert(keys[j].bytes@ == keys[i].bytes@);
        TextKey::law_weak_order(&keys[i], &keys[i], &keys[i]);
        assert(order::precedes(keys, j, i));
        assert(sorted.contains(j as usize));
        let m = choose|m: int| 0 <= m < sorted.len() && sorted[m] == j as usize;
        order::lemma_precedes(keys, i, j, i);
        if m > k {
            assert(order::precedes(keys, sorted[k] as int, sorted[m] as int));
        }
        assert(m < k);
        let h = sorted[k - 1] as int;
        assert(sorted[k - 1] < keys.len());
        if m < k - 1 {
            assert(order::precedes(keys, sorted[m] as int, sorted[k - 1] as int));
            assert(order::precedes(keys, sorted[k - 1] as int, sorted[k] as int));
            TextKey::law_weak_order(&keys[j], &keys[h], &keys[i]);
            TextKey::law_weak_order(&keys[h], &keys[i], &keys[j]);
            TextKey::law_weak_order(&keys[h], &keys[j], &keys[i]);
            order::lemma_bytes_below_total(keys[h].bytes@, keys[i].bytes@);
        }
    }
}

/// Mark the entries that occur a second time.
fn mark_repeated(entries: &Vec<P4kEntryCompact>) -> (r: Vec<bool>)
    ensures
        r@.len() == entries@.len(),
        forall|i: int|
            0 <= i < entries@.len() ==> #[trigger] r@[i] == is_repeated(
                model::entry_models(entries@),
                i,
            ),
{
    let ghost models = model::entry_models(entries@);
    let mut keys: Vec<TextKey> = Vec::new();
    let mut flags: Vec<bool> = Vec::new();
    let mut i: usize = 0;
    while i < entries.len()
        invariant
            i <= entries@.len(),
            models == model::entry_models(entries@),
            keys@.len() == i,
            flags@.len() == i,
            forall|j: int|
                0 <= j < i ==> (#[trigger] keys@[j]).bytes@ == path::name_key(models[j].name),
            forall|j: int| 0 <= j < i ==> !(#[trigger] flags@[j]),
        decreases entries@.len() - i,
    {
        assert(models[i as int] == entries@[i as int]@);
        keys.push(TextKey { bytes: filename_handle_bytes(entries[i].name.as_str()) });
        flags.push(false);
        i += 1;
    }
    let sorted: Vec<usize> = sort_positions(keys.as_slice());
    let mut k: usize = 0;
    assert(entries.len() == entries@.len());
    while k < sorted.len()
        invariant
            k <= sorted@.len(),
            models == model::entry_models(entries@),
            entries@.len() <= usize::MAX,
            keys@.len() == entries@.len(),
            flags@.len() == entries@.len(),
            order::is_order(keys@, sorted@),
            forall|j: int|
                0 <= j < keys@.len() ==> (#[trigger] keys@[j]).bytes@ == path::name_key(
                    models[j].name,
                ),
            forall|a: int|
                0 <= a < k ==> flags@[#[trigger] sorted@[a] as int] == is_repeated(
                    models,
                    sorted@[a] as int,
                ),
            forall|a: int| k <= a < sorted@.len() ==> !flags@[#[trigger] sorted@[a] as int],
        decreases sorted@.len() - k,
    {
        let here: usize = sorted[k];
        assert(sorted@[k as int] < keys@.len());
        proof {
            lemma_repeated_in_order(models, keys@, sorted@, k as int);
            if k > 0 {
                assert(sorted@[k - 1] < keys@.len());
            }
        }
        if k > 0 && same_bytes(keys[sorted[k - 1]].bytes.as_slice(), keys[here].bytes.as_slice()) {
            let ghost before = flags@;
            flags.set(here, true);
            proof {
                assert forall|a: int| 0 <= a < sorted@.len() && a != k implies flags@[#[trigger] sorted@[a] as int]
                    == before[sorted@[a] as int] by {
                    assert(sorted@[a] < keys@.len());
                    if a < k {
                        assert(order::precedes(keys@, sorted@[a] as int, sorted@[k as int] as int));
                    } else {
                        assert(order::precedes(keys@, sorted@[k as int] as int, sorted@[a] as int));
                    }
                    order::lemma_precedes(
                        keys@,
                        sorted@[a] as int,
                        sorted@[k as int] as int,
                        sorted@[a] as int,
                    );
                }
            }
        }
        k += 1;
    }
    proof {
        assert forall|i: int| 0 <= i < entries@.len() implies #[trigger] flags@[i] == is_repeated(
            models,
            i,
        ) by {
            assert(sorted@.contains(i as usize));
            let a = choose|a: int| 0 <= a < sorted@.len() && sorted@[a] == i as usize;
            assert(flags@[sorted@[a] as int] == is_repeated(models, sorted@[a] as int));
        }
    }
    flags
}

/// The range that an entry leaves free that occurs a second time.
fn free_repeated(data: &[u8], sector_size: u64, entry: &P4kEntryCompact) -> (r: Result<
    P4kFreelistBlock,
>)
    requires
        sector_size > 0,
    ensures
        error::outcome(r) == freed_range(data@, sector_size, entry@),
{
    let size: u64 = v1_local_record_size(data, entry.local_header_offset)?;
    let span: u64 = match size.checked_add(entry.compressed_size) {
        Some(v) => v,
        None => return bad_v1_entry(
            String::from_str("duplicate entry ").concat(entry.name.as_str()).concat(
                " free span overflow",
            ),
        ),
    };
    let aligned: u64 = align_up(span, sector_size)?;
    Ok(P4kFreelistBlock { offset: entry.local_header_offset, size: aligned })
}

/// Entries without those that occur a second time, and the merged free ranges.
pub open spec fn settled_outcome(
    data: Seq<u8>,
    sector_size: Option<u64>,
    entries: Seq<EntryModel>,
    blocks: Seq<P4kFreelistBlock>,
) -> std::result::Result<(Seq<EntryModel>, Seq<P4kFreelistBlock>), Fault> {
    match sector_size {
        None => Ok((entries, blocks)),
        Some(size) => match deduplicated(data, size, entries, blocks, entries.len()) {
            Err(fault) => Err(fault),
            Ok((kept, free)) => match freelist::merged_blocks(free) {
                None => Err(Fault::MalformedV1Entry("merged freelist block size overflow"@)),
                Some(merged) => Ok((kept, merged)),
            },
        },
    }
}

/// Merge free ranges, and report where a merged size does not fit.
///
/// A merge that fails leaves the ranges in order, those in front merged.
pub fn merge_freelist_blocks(blocks: &mut Vec<P4kFreelistBlock>) -> (r: Result<()>)
    ensures
        match r {
            Ok(_) => freelist::merged_blocks(old(blocks)@) == Some(final(blocks)@),
            Err(e) => {
                &&& freelist::merged_blocks(old(blocks)@) is None
                &&& e@ == Fault::MalformedV1Entry("merged freelist block size overflow"@)
                &&& final(blocks)@ == freelist::partly_merged(old(blocks)@)
            },
        },
{
    if merge_blocks(blocks) {
        Ok(())
    } else {
        bad_v1_entry(String::from_str("merged freelist block size overflow"))
    }
}

/// Remove entries that occur a second time, and add what they leave free.
fn deduplicate_v1_entries(
    data: &[u8],
    sector_size: u64,
    entries: &Vec<P4kEntryCompact>,
    blocks: &Vec<P4kFreelistBlock>,
) -> (r: Result<(Vec<P4kEntryCompact>, Vec<P4kFreelistBlock>)>)
    requires
        sector_size > 0,
    ensures
        match r {
            Ok((kept, free)) => settled_outcome(
                data@,
                Some(sector_size),
                model::entry_models(entries@),
                blocks@,
            ) == Ok::<(Seq<EntryModel>, Seq<P4kFreelistBlock>), Fault>(
                (model::entry_models(kept@), free@),
            ),
            Err(e) => settled_outcome(
                data@,
                Some(sector_size),
                model::entry_models(entries@),
                blocks@,
            ) == Err::<(Seq<EntryModel>, Seq<P4kFreelistBlock>), Fault>(e@),
        },
{
    let ghost models = model::entry_models(entries@);
    let repeated: Vec<bool> = mark_repeated(entries);
    let mut kept: Vec<P4kEntryCompact> = Vec::new();
    let mut free: Vec<P4kFreelistBlock> = Vec::new();
    let mut b: usize = 0;
    while b < blocks.len()
        invariant
            b <= blocks@.len(),
            free@ == blocks@.take(b as int),
        decreases blocks@.len() - b,
    {
        free.push(blocks[b]);
        b += 1;
        assert(free@ =~= blocks@.take(b as int));
    }
    assert(free@ =~= blocks@);
    let mut index: usize = 0;
    assert(model::entry_models(kept@) =~= Seq::empty());
    while index < entries.len()
        invariant
            index <= entries@.len(),
            sector_size > 0,
            models == model::entry_models(entries@),
            repeated@.len() == entries@.len(),
            forall|i: int|
                0 <= i < entries@.len() ==> #[trigger] repeated@[i] == is_repeated(models, i),
            deduplicated(data@, sector_size, models, blocks@, index as nat) == Ok::<
                (Seq<EntryModel>, Seq<P4kFreelistBlock>),
                Fault,
            >((model::entry_models(kept@), free@)),
        decreases entries@.len() - index,
    {
        proof {
            if deduplicated(data@, sector_size, models, blocks@, (index + 1) as nat) is Err {
                lemma_deduplicated_fault_stays(
                    data@,
                    sector_size,
                    models,
                    blocks@,
                    (index + 1) as nat,
                    models.len(),
                );
            }
            assert(models[index as int] == entries@[index as int]@);
        }
        let entry = &entries[index];
        if entry.local_header_offset % sector_size != 0 {
            return bad_v1_entry(
                String::from_str("entry ").concat(entry.name.as_str()).concat(
                    " local header offset ",
                ).concat(dec(entry.local_header_offset).as_str()).concat(
                    " is not aligned to physical sector size ",
                ).concat(dec(sector_size).as_str()),
            );
        }
        if repeated[index] {
            let block: P4kFreelistBlock = free_repeated(data, sector_size, entry)?;
            free.push(block);
        } else {
            let ghost before = kept@;
            let copy = entry.duplicate();
            kept.push(copy);
            assert(model::entry_models(kept@) =~= model::entry_models(before).push(copy@));
        }
        index += 1;
    }
    merge_freelist_blocks(&mut free)?;
    Ok((kept, free))
}

/// The install block of a v1 archive: entries with their progress, and free ranges.
pub open spec fn installed_outcome(
    data: Seq<u8>,
    cdr_offset: u64,
    freelist_count: u64,
    entries: Seq<EntryModel>,
) -> std::result::Result<(Seq<EntryModel>, Seq<P4kFreelistBlock>), Fault> {
    let at = cdr_offset - install_size(entries.len(), freelist_count);
    match install_bounds_fault(entries.len(), freelist_count, cdr_offset) {
        Some(fault) => Err(fault),
        None => match progress_outcome(data, at, entries, entries.len()) {
            Err(fault) => Err(fault),
            Ok(done) => match freelist::blocks_outcome(
                data,
                at + 12 * entries.len(),
                freelist_count as nat,
            ) {
                Err(message) => Err(Fault::MalformedV1InstallBlock(message)),
                Ok(blocks) => Ok((done, blocks)),
            },
        },
    }
}

/// Apply the install block of a v1 archive.
fn apply_v1_install_block(
    data: &[u8],
    cdr_offset: u64,
    freelist_count: u64,
    entries: &Vec<P4kEntryCompact>,
) -> (r: Result<(Vec<P4kEntryCompact>, Vec<P4kFreelistBlock>)>)
    requires
        cdr_offset <= data@.len(),
    ensures
        match r {
            Ok((done, blocks)) => {
                &&& installed_outcome(
                    data@,
                    cdr_offset,
                    freelist_count,
                    model::entry_models(entries@),
                ) == Ok::<(Seq<EntryModel>, Seq<P4kFreelistBlock>), Fault>(
                    (model::entry_models(done@), blocks@),
                )
                &&& install_size(entries@.len(), freelist_count) <= cdr_offset
            },
            Err(e) => installed_outcome(
                data@,
                cdr_offset,
                freelist_count,
                model::entry_models(entries@),
            ) == Err::<(Seq<EntryModel>, Seq<P4kFreelistBlock>), Fault>(e@),
        },
{
    assert(data.len() == data@.len());
    let size: usize = check_install_bounds(entries.len(), freelist_count, cdr_offset)?;
    let at: usize = cdr_offset as usize - size;
    let done: Vec<P4kEntryCompact> = apply_progress(data, at, entries)?;
    match read_freelist_blocks(data, at + 12 * entries.len(), freelist_count as usize) {
        Ok(blocks) => Ok((done, blocks)),
        Err(message) => bad_v1_directory(message),
    }
}

/// The layout of a v1 archive.
pub open spec fn v1_layout(
    data: Seq<u8>,
    end: int,
    s: V1Summary,
    sector_size: Option<u64>,
    install: Option<(u64, u64)>,
) -> LayoutModel {
    let install_offset = match install {
        Some((offset, size)) => Some(offset),
        None => None,
    };
    LayoutModel {
        file_size: data.len() as u64,
        actual_content_end: end as u64,
        physical_sector_size: sector_size,
        cdr_offset: s.cdr_offset,
        cdr_size: s.cdr_size,
        name_table_offset: None,
        name_table_size: 0,
        end_of_payload: install_offset,
        install_block_offset: install_offset,
        install_block_size: match install {
            Some((offset, size)) => Some(size),
            None => None,
        },
        eocd_offset: s.eocd_offset,
        manifest_sha256: None,
    }
}

/// Where the install block stands, if there is any.
pub open spec fn install_span(count: nat, freelist_count: u64, cdr_offset: u64) -> Option<
    (u64, u64),
> {
    let size = install_size(count, freelist_count);
    if size == 0 {
        None
    } else {
        Some(((cdr_offset - size) as u64, size as u64))
    }
}

/// The directory of a v1 archive with the given summary and parsed entries.
pub open spec fn v1_body_outcome(
    data: Seq<u8>,
    end: int,
    s: V1Summary,
    entries: Seq<EntryModel>,
) -> std::result::Result<DirectoryModel, Fault> {
    if !s.is_zip64 {
        Ok(
            DirectoryModel {
                entries,
                freelist_blocks: Seq::empty(),
                layout: v1_layout(data, end, s, None, None),
            },
        )
    } else {
        match comment_outcome(data, s.eocd_offset as int, s.comment_length) {
            Err(fault) => Err(fault),
            Ok((freelist_count, sector_size)) => match installed_outcome(
                data,
                s.cdr_offset,
                freelist_count,
                entries,
            ) {
                Err(fault) => Err(fault),
                Ok((installed, blocks)) => match settled_outcome(
                    data,
                    sector_size,
                    installed,
                    blocks,
                ) {
                    Err(fault) => Err(fault),
                    Ok((kept, free)) => Ok(
                        DirectoryModel {
                            entries: kept,
                            freelist_blocks: free,
                            layout: v1_layout(
                                data,
                                end,
                                s,
                                sector_size,
                                install_span(entries.len(), freelist_count, s.cdr_offset),
                            ),
                        },
                    ),
                },
            },
        }
    }
}

/// The directory of a v1 archive whose content ends at `end`, or what is wrong with it.
pub open spec fn v1_outcome(data: Seq<u8>, end: int) -> std::result::Result<DirectoryModel, Fault> {
    match v1::summary_outcome(data, end) {
        Err(fault) => Err(fault),
        Ok(s) => {
            let cd = data.subrange(s.cdr_offset as int, s.cdr_offset + s.cdr_size);
            match v1::entries_outcome(cd, s.is_zip64, s.count as nat) {
                Err(fault) => Err(fault),
                Ok((entries, used)) => if used != cd.len() {
                    Err(
                        Fault::MalformedV1InstallBlock(
                            "central directory parser consumed "@ + text::dec_text(used as nat)
                                + " bytes, expected "@ + text::dec_text(cd.len()),
                        ),
                    )
                } else {
                    v1_body_outcome(data, end, s, entries)
                },
            }
        },
    }
}

proof fn lemma_progress_sized(data: Seq<u8>, at: int, entries: Seq<EntryModel>, count: nat)
    requires
        count <= entries.len(),
        forall|i: int| 0 <= i < entries.len() ==> (#[trigger] entries[i]).is_sized(),
        progress_outcome(data, at, entries, count) is Ok,
    ensures
        progress_outcome(data, at, entries, count)->Ok_0.len() == count,
        forall|i: int|
            0 <= i < count ==> (#[trigger] progress_outcome(
                data,
                at,
                entries,
                count,
            )->Ok_0[i]).is_sized(),
    decreases count,
{
    if count > 0 {
        lemma_progress_sized(data, at, entries, (count - 1) as nat);
        assert(entries[count - 1].is_sized());
    }
}

/// The entries of a v1 archive have their sizes, and what was written of a
/// payload is no more than the payload.
pub proof fn law_v1_entries_sized(data: Seq<u8>, end: int)
    ensures
        v1_outcome(data, end) matches Ok(d) ==> forall|i: int|
            0 <= i < d.entries.len() ==> (#[trigger] d.entries[i]).is_sized(),
{
    if v1_outcome(data, end) is Ok {
        lemma_v1_entries_sized(data, end);
    }
}

proof fn lemma_v1_entries_sized(data: Seq<u8>, end: int)
    requires
        v1_outcome(data, end) is Ok,
    ensures
        forall|i: int|
            0 <= i < v1_outcome(data, end)->Ok_0.entries.len() ==> (#[trigger] v1_outcome(
                data,
                end,
            )->Ok_0.entries[i]).is_sized(),
{
    let s = v1::summary_outcome(data, end)->Ok_0;
    let cd = data.subrange(s.cdr_offset as int, s.cdr_offset + s.cdr_size);
    let entries = v1::entries_outcome(cd, s.is_zip64, s.count as nat)->Ok_0.0;
    v1::lemma_entries_sized(cd, s.is_zip64, s.count as nat);
    if s.is_zip64 {
        let (freelist_count, sector_size) = comment_outcome(
            data,
            s.eocd_offset as int,
            s.comment_length,
        )->Ok_0;
        let at = s.cdr_offset - install_size(entries.len(), freelist_count);
        lemma_progress_sized(data, at, entries, entries.len());
        let (installed, blocks) = installed_outcome(
            data,
            s.cdr_offset,
            freelist_count,
            entries,
        )->Ok_0;
        match sector_size {
            Some(size) => {
                law_deduplicated_names(data, size, installed, blocks, installed.len());
                let kept = deduplicated(data, size, installed, blocks, installed.len())->Ok_0.0;
                assert forall|i: int| 0 <= i < kept.len() implies (#[trigger] kept[i]).is_sized() by {
                    let j = choose|j: int|
                        0 <= j < installed.len() && installed[j] == #[trigger] kept[i];
                    assert(installed[j].is_sized());
                }
            },
            None => {},
        }
    }
}

fn finish_v1_directory(
    data: &[u8],
    end: usize,
    s: &V1Summary,
    entries: Vec<P4kEntryCompact>,
) -> (r: Result<Directory>)
    requires
        end <= data@.len(),
        s.eocd_offset + 4 + EocdRecord::SIZE <= data@.len(),
        s.cdr_offset <= data@.len(),
    ensures
        match r {
            Ok(directory) => v1_body_outcome(
                data@,
                end as int,
                *s,
                model::entry_models(entries@),
            ) == Ok::<DirectoryModel, Fault>(directory@),
            Err(e) => v1_body_outcome(data@, end as int, *s, model::entry_models(entries@))
                == Err::<DirectoryModel, Fault>(e@),
        },
{
    assert(data.len() == data@.len());
    let mut layout = P4kArchiveLayout {
        file_size: data.len() as u64,
        actual_content_end: end as u64,
        physical_sector_size: None,
        cdr_offset: s.cdr_offset,
        cdr_size: s.cdr_size,
        name_table_offset: None,
        name_table_size: 0,
        end_of_payload: None,
        install_block_offset: None,
        install_block_size: None,
        eocd_offset: s.eocd_offset,
        manifest_sha256: None,
    };
    if !s.is_zip64 {
        return Ok(Directory { entries, freelist_blocks: Vec::new(), layout });
    }
    let (freelist_count, sector_size) = read_v1_freelist_metadata(
        data,
        s.eocd_offset as usize,
        s.comment_length,
    )?;
    let (installed, blocks) = apply_v1_install_block(
        data,
        s.cdr_offset,
        freelist_count,
        &entries,
    )?;
    let size: u64 = 12 * entries.len() as u64 + 16 * freelist_count;
    layout.physical_sector_size = sector_size;
    if size != 0 {
        layout.install_block_offset = Some(s.cdr_offset - size);
        layout.install_block_size = Some(size);
        layout.end_of_payload = Some(s.cdr_offset - size);
    }
    match sector_size {
        None => Ok(Directory { entries: installed, freelist_blocks: blocks, layout }),
        Some(sector) => {
            let (kept, free) = deduplicate_v1_entries(data, sector, &installed, &blocks)?;
            Ok(Directory { entries: kept, freelist_blocks: free, layout })
        },
    }
}

/// Parse the central directory of a v1 archive.
pub fn parse_entries_v1(data: &[u8], actual_end: usize) -> (r: Result<Directory>)
    requires
        actual_end <= data@.len(),
    ensures
        match r {
            Ok(directory) => v1_outcome(data@, actual_end as int) == Ok::<DirectoryModel, Fault>(
                directory@,
            ),
            Err(e) => v1_outcome(data@, actual_end as int) == Err::<DirectoryModel, Fault>(e@),
        },
{
    assert(data.len() == data@.len());
    let s = read_summary(data, actual_end)?;
    let start: usize = s.cdr_offset as usize;
    let cd = slice_subrange(data, start, start + s.cdr_size as usize);
    let (entries, used) = parse_entries_sequential(cd, s.count as usize, s.is_zip64)?;
    if used != cd.len() {
        return bad_v1_directory(
            String::from_str("central directory parser consumed ").concat(
                dec(used as u64).as_str(),
            ).concat(" bytes, expected ").concat(dec(cd.len() as u64).as_str()),
        );
    }
    finish_v1_directory(data, actual_end, &s, entries)
}

} // verus!
