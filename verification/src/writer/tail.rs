//! What follows the payloads of a v2 archive.
//!
//! ```text
//! [zero padding to physical sector]
//! [install block: u64 bytes_already_written per entry, freelist records]
//! [zero padding to physical sector, then to the next 64 KiB boundary]
//! [CDR: entry_count * 0xCC]
//! [name table: null-terminated normalized paths]
//! [trie cache: a header and room for the nodes and entries]
//! [zero padding to place EOCDR at end of aligned EOF buffer]
//! [EOCDR: 0xAF bytes ending in version=2, magic="JiJi"]
//! ```

use vstd::prelude::*;
use vstd::seq::*;
use vstd::seq_lib::*;
use vstd::slice::*;
use vstd::string::*;
use vstd::utf8::*;

use crate::align;
use crate::align::align_up;
use crate::archive::model::{EntryModel, P4kEntryRef, P4kFreelistBlock};
use crate::bytes;
use crate::bytes::{put_bytes, put_u32, put_u64, put_zeros};
use crate::error;
use crate::error::{invalid_input, Fault, Result};
use crate::writer::options::{P4kWriteStats, P4kWriterOptions};
use crate::zip::{
    CentralDirectoryHeaderV2, Eocd2Record, CDR_V2_ENTRY_SIZE, EOCD_V2_MAGIC, EOCD_V2_SIZE,
    EOCD_V2_VERSION,
};

verus! {

/// The central directory of a v2 archive starts at a multiple of this.
pub const CDR_ALIGNMENT: u64 = 0x1_0000;

/// The models of a run of entries.
pub open spec fn ref_models(entries: Seq<P4kEntryRef<'_>>) -> Seq<EntryModel> {
    Seq::new(entries.len(), |i: int| entries[i]@)
}

/// How much of the name table the first `count` names take, with their NULs.
pub open spec fn names_length(entries: Seq<EntryModel>, count: int) -> int
    decreases count,
{
    if count <= 0 {
        0
    } else {
        names_length(entries, count - 1) + encode_utf8(entries[count - 1].name).len() + 1
    }
}

/// How many bytes the install block holds.
pub open spec fn install_used(count: int, freelist_count: int) -> int {
    8 * count + 16 * freelist_count
}

/// Byte length of the header of a trie cache.
pub const TRIE_HEADER_SIZE: u32 = 16;

/// Byte length of the one node of a trie cache.
pub const TRIE_NODES_SIZE: u32 = 24;

/// Byte length of what ends a trie cache.
pub const TRIE_END_SIZE: u32 = 16;

/// How many bytes the trie cache of an archive with so many entries takes: its
/// header, one node, four bytes for each entry, and its end.
pub open spec fn cache_length(count: int) -> int {
    TRIE_HEADER_SIZE + TRIE_NODES_SIZE + 4 * count + TRIE_END_SIZE
}

/// The trie cache of an archive with so many entries.
///
/// Its header says how long the nodes are, how many entries there are (the low
/// 32 bits of it), and how long its end is. What the nodes, the entries and the end hold is not known
/// and is left zero: the cache only speeds up a search for names, and this
/// library does not look into it.
pub open spec fn cache_bytes(count: int) -> Seq<u8> {
    bytes::u32_bytes(TRIE_NODES_SIZE) + bytes::u32_bytes(
        (count % 0x1_0000_0000) as u32,
    ) + bytes::u32_bytes(TRIE_END_SIZE) + bytes::u32_bytes(0) + bytes::zeros((cache_length(count) - TRIE_HEADER_SIZE) as nat)
}

/// Where the parts of the tail stand.
pub struct V2Plan {
    /// Where the payloads end and the install block starts.
    pub end_of_payload: u64,
    /// Where the central directory starts.
    pub cdr_offset: u64,
    /// Byte length of the central directory records.
    pub cdr_size: u64,
    /// Byte length of the name table.
    pub names_size: u64,
    /// Byte length of the trie cache.
    pub cache_size: u64,
    /// Byte length of the trailing block, from the central directory on.
    pub eof_size: u64,
}

/// The trailing block of a tail whose central directory starts at `cdr_offset`.
pub open spec fn trailing_outcome(
    entries: Seq<EntryModel>,
    end_of_payload: u64,
    cdr_offset: u64,
    sector_size: u64,
) -> std::result::Result<V2Plan, Fault> {
    let names_size = names_length(entries, entries.len() as int);
    let cdr_size = entries.len() * CDR_V2_ENTRY_SIZE;
    let cache_size = cache_length(entries.len() as int);
    let eof_used = cdr_size + names_size + cache_size + EOCD_V2_SIZE;
    if names_size > u64::MAX {
        Err(error::invalid_input_fault("v2 name table size overflow"@))
    } else if cdr_size > usize::MAX {
        Err(error::invalid_input_fault("v2 CDR size overflow"@))
    } else if cdr_offset + cdr_size > u64::MAX {
        Err(error::invalid_input_fault("v2 name table offset overflow"@))
    } else if eof_used > u64::MAX {
        Err(error::invalid_input_fault("v2 EOF buffer size overflow"@))
    } else {
        match align::align_up_outcome(eof_used as u64, sector_size) {
            Err(fault) => Err(fault),
            Ok(eof_size) => if cdr_offset + eof_size > u64::MAX {
                Err(error::invalid_input_fault("v2 file size overflow"@))
            } else {
                Ok(
                    V2Plan {
                        end_of_payload,
                        cdr_offset,
                        cdr_size: cdr_size as u64,
                        names_size: names_size as u64,
                        cache_size: cache_size as u64,
                        eof_size,
                    },
                )
            },
        }
    }
}

/// Where the parts of a tail stand whose install block starts at `end_of_payload`.
pub open spec fn directory_outcome(
    entries: Seq<EntryModel>,
    freelist_count: int,
    end_of_payload: u64,
    sector_size: u64,
) -> std::result::Result<V2Plan, Fault> {
    let used = install_used(entries.len() as int, freelist_count);
    if used > u64::MAX {
        Err(error::invalid_input_fault("v2 CDR offset overflow"@))
    } else {
        match align::align_up_outcome(used as u64, sector_size) {
            Err(fault) => Err(fault),
            Ok(install) => if end_of_payload + install > u64::MAX {
                Err(error::invalid_input_fault("v2 CDR offset overflow"@))
            } else {
                match align::align_up_outcome((end_of_payload + install) as u64, CDR_ALIGNMENT) {
                    Err(fault) => Err(fault),
                    Ok(cdr_offset) => trailing_outcome(
                        entries,
                        end_of_payload,
                        cdr_offset,
                        sector_size,
                    ),
                }
            },
        }
    }
}

/// Where the parts of a tail stand that is written from `position` on, or why
/// it cannot be written.
pub open spec fn plan_outcome(
    position: u64,
    entries: Seq<EntryModel>,
    freelist_count: int,
    payload_end: u64,
    sector_size: u64,
    align_payload_end: bool,
) -> std::result::Result<V2Plan, Fault> {
    let end = if align_payload_end {
        align::align_up_outcome(payload_end, sector_size)
    } else {
        Ok(payload_end)
    };
    if position > payload_end {
        Err(error::invalid_input_fault("writer is past the v2 payload end"@))
    } else {
        match end {
            Err(fault) => Err(fault),
            Ok(end_of_payload) => directory_outcome(
                entries,
                freelist_count,
                end_of_payload,
                sector_size,
            ),
        }
    }
}

impl V2Plan {
    /// How many bytes of the trailing block are used.
    pub open spec fn eof_used(self) -> int {
        self.cdr_size + self.names_size + self.cache_size + EOCD_V2_SIZE
    }

    /// Where the parts stand one behind the other.
    pub open spec fn fits(
        self,
        entries: Seq<EntryModel>,
        freelist_count: int,
        sector_size: u64,
    ) -> bool {
        let used = install_used(entries.len() as int, freelist_count);
        let eof_used = self.eof_used();
        &&& self.cdr_size == entries.len() * CDR_V2_ENTRY_SIZE
        &&& self.names_size == names_length(entries, entries.len() as int)
        &&& self.cache_size == cache_length(entries.len() as int)
        &&& self.end_of_payload + used <= self.cdr_offset
        &&& self.cdr_offset == align::aligned_up(
            self.end_of_payload + align::aligned_up(used, sector_size as int),
            CDR_ALIGNMENT as int,
        )
        &&& self.eof_size == align::aligned_up(eof_used, sector_size as int)
        &&& eof_used <= self.eof_size
        &&& self.cdr_offset + self.eof_size <= u64::MAX
    }

    /// What is reported of a written archive.
    pub open spec fn stats(self, entry_count: usize) -> P4kWriteStats {
        P4kWriteStats {
            entry_count,
            payload_end: self.end_of_payload,
            cdr_offset: self.cdr_offset,
            cdr_size: self.cdr_size,
            name_table_size: self.names_size,
            file_size: (self.cdr_offset + self.eof_size) as u64,
        }
    }

    /// The trailer record.
    pub open spec fn record(
        self,
        entry_count: int,
        freelist_count: int,
        options: P4kWriterOptions,
    ) -> Eocd2Record {
        Eocd2Record {
            num_file_entries: entry_count as u64,
            reserved_08: 0,
            end_of_file_block_offset: self.cdr_offset,
            cdr_size: self.cdr_size,
            reserved_20: 0,
            name_table_abs_offset: (self.cdr_offset + self.cdr_size) as u64,
            total_name_length: self.names_size,
            reserved_38: 0,
            end_of_payload: self.end_of_payload,
            num_freelist_blocks: freelist_count as u64,
            trie_cache_offset: (self.cdr_offset + self.cdr_size + self.names_size) as u64,
            trie_cache_size: self.cache_size,
            physical_sector_size: options.sector_size,
            status_flags: 0,
            manifest_sha256: options.manifest_sha256,
            version: EOCD_V2_VERSION,
            magic: EOCD_V2_MAGIC,
        }
    }
}

/// A planned tail fits.
pub proof fn lemma_plan_fits(
    position: u64,
    entries: Seq<EntryModel>,
    freelist_count: int,
    payload_end: u64,
    sector_size: u64,
    align_payload_end: bool,
)
    requires
        sector_size > 0,
        0 <= freelist_count,
        plan_outcome(
            position,
            entries,
            freelist_count,
            payload_end,
            sector_size,
            align_payload_end,
        ) is Ok,
    ensures
        ({
            let plan = plan_outcome(
                position,
                entries,
                freelist_count,
                payload_end,
                sector_size,
                align_payload_end,
            )->Ok_0;
            &&& plan.fits(entries, freelist_count, sector_size)
            &&& position <= payload_end <= plan.end_of_payload
            &&& plan.end_of_payload == (if align_payload_end {
                align::aligned_up(payload_end as int, sector_size as int)
            } else {
                payload_end as int
            })
        }),
{
    let used = install_used(entries.len() as int, freelist_count);
    let install = align::aligned_up(used, sector_size as int);
    align::lemma_aligned_up(payload_end as int, sector_size as int);
    align::lemma_aligned_up(used, sector_size as int);
    let end = if align_payload_end {
        align::aligned_up(payload_end as int, sector_size as int)
    } else {
        payload_end as int
    };
    align::lemma_aligned_up(end + install, CDR_ALIGNMENT as int);
    lemma_names_length(entries, entries.len() as int);
    let eof_used = entries.len() * CDR_V2_ENTRY_SIZE + names_length(
        entries,
        entries.len() as int,
    ) + cache_length(entries.len() as int) + EOCD_V2_SIZE;
    align::lemma_aligned_up(eof_used, sector_size as int);
}

proof fn lemma_names_length(entries: Seq<EntryModel>, count: int)
    ensures
        0 <= names_length(entries, count),
        0 <= count ==> count <= names_length(entries, count),
    decreases count,
{
    if count > 0 {
        lemma_names_length(entries, count - 1);
    }
}

/// More names take more of the name table.
pub proof fn lemma_names_grow(entries: Seq<EntryModel>, a: int, b: int)
    requires
        a <= b,
    ensures
        0 <= names_length(entries, a) <= names_length(entries, b),
    decreases b - a,
{
    lemma_names_length(entries, a);
    if a < b {
        lemma_names_grow(entries, a, b - 1);
        lemma_names_length(entries, b - 1);
    }
}

/// Compute how much of the name table the names take.
fn measure_names(entries: &Vec<P4kEntryRef<'_>>) -> (r: Result<u64>)
    ensures
        match r {
            Ok(length) => length == names_length(ref_models(entries@), entries@.len() as int),
            Err(e) => {
                &&& names_length(ref_models(entries@), entries@.len() as int) > u64::MAX
                &&& e@ == error::invalid_input_fault("v2 name table size overflow"@)
            },
        },
{
    let ghost models = ref_models(entries@);
    let mut length: u64 = 0;
    let mut i: usize = 0;
    while i < entries.len()
        invariant
            i <= entries@.len(),
            models == ref_models(entries@),
            length == names_length(models, i as int),
        decreases entries@.len() - i,
    {
        assert(models[i as int] == entries@[i as int]@);
        proof {
            lemma_names_grow(models, i + 1, entries@.len() as int);
        }
        let name_len: u64 = entries[i].name.as_bytes().len() as u64;
        let with_name: u64 = match length.checked_add(name_len) {
            Some(v) => v,
            None => return Err(invalid_input("v2 name table size overflow")),
        };
        length = match with_name.checked_add(1) {
            Some(v) => v,
            None => return Err(invalid_input("v2 name table size overflow")),
        };
        i += 1;
    }
    Ok(length)
}

fn plan_trailing(
    entries: &Vec<P4kEntryRef<'_>>,
    end_of_payload: u64,
    cdr_offset: u64,
    sector_size: u64,
) -> (r: Result<V2Plan>)
    requires
        sector_size > 0,
    ensures
        error::outcome(r) == trailing_outcome(
            ref_models(entries@),
            end_of_payload,
            cdr_offset,
            sector_size,
        ),
{
    let names_size: u64 = measure_names(entries)?;
    let cdr_size: u64 = match entries.len().checked_mul(CDR_V2_ENTRY_SIZE) {
        Some(v) => v as u64,
        None => return Err(invalid_input("v2 CDR size overflow")),
    };
    let cache_size: u64 = (TRIE_HEADER_SIZE + TRIE_NODES_SIZE + TRIE_END_SIZE) as u64 + 4
        * entries.len() as u64;
    if cdr_offset.checked_add(cdr_size).is_none() {
        return Err(invalid_input("v2 name table offset overflow"));
    }
    let records: u64 = match cdr_size.checked_add(names_size) {
        Some(v) => v,
        None => return Err(invalid_input("v2 EOF buffer size overflow")),
    };
    let with_cache: u64 = match records.checked_add(cache_size) {
        Some(v) => v,
        None => return Err(invalid_input("v2 EOF buffer size overflow")),
    };
    let eof_used: u64 = match with_cache.checked_add(EOCD_V2_SIZE as u64) {
        Some(v) => v,
        None => return Err(invalid_input("v2 EOF buffer size overflow")),
    };
    let eof_size: u64 = align_up(eof_used, sector_size)?;
    if cdr_offset.checked_add(eof_size).is_none() {
        return Err(invalid_input("v2 file size overflow"));
    }
    Ok(V2Plan { end_of_payload, cdr_offset, cdr_size, names_size, cache_size, eof_size })
}

fn measure_install(count: usize, freelist_count: usize) -> (r: Option<u64>)
    ensures
        match r {
            Some(used) => used == install_used(count as int, freelist_count as int),
            None => install_used(count as int, freelist_count as int) > u64::MAX,
        },
{
    let progress: u64 = (count as u64).checked_mul(8)?;
    let blocks: u64 = (freelist_count as u64).checked_mul(16)?;
    progress.checked_add(blocks)
}

/// Plan the tail of a v2 archive that is written from `position` on.
pub fn plan_v2_tail(
    position: u64,
    entries: &Vec<P4kEntryRef<'_>>,
    freelist_count: usize,
    payload_end: u64,
    sector_size: u64,
    align_payload_end: bool,
) -> (r: Result<V2Plan>)
    requires
        sector_size > 0,
    ensures
        error::outcome(r) == plan_outcome(
            position,
            ref_models(entries@),
            freelist_count as int,
            payload_end,
            sector_size,
            align_payload_end,
        ),
{
    if position > payload_end {
        return Err(invalid_input("writer is past the v2 payload end"));
    }
    let end_of_payload: u64 = if align_payload_end {
        align_up(payload_end, sector_size)?
    } else {
        payload_end
    };
    let used: u64 = match measure_install(entries.len(), freelist_count) {
        Some(v) => v,
        None => return Err(invalid_input("v2 CDR offset overflow")),
    };
    let install: u64 = align_up(used, sector_size)?;
    let cdr_unaligned: u64 = match end_of_payload.checked_add(install) {
        Some(v) => v,
        None => return Err(invalid_input("v2 CDR offset overflow")),
    };
    let cdr_offset: u64 = align_up(cdr_unaligned, CDR_ALIGNMENT)?;
    plan_trailing(entries, end_of_payload, cdr_offset, sector_size)
}

/// The per-entry part of the install block, for the first `count` entries.
pub open spec fn install_bytes(entries: Seq<EntryModel>, count: int) -> Seq<u8>
    decreases count,
{
    if count <= 0 {
        Seq::empty()
    } else {
        install_bytes(entries, count - 1) + bytes::u64_bytes(
            entries[count - 1].bytes_already_written,
        )
    }
}

/// The first `count` freelist records.
pub open spec fn freelist_bytes(blocks: Seq<P4kFreelistBlock>, count: int) -> Seq<u8>
    decreases count,
{
    if count <= 0 {
        Seq::empty()
    } else {
        freelist_bytes(blocks, count - 1) + (bytes::u64_bytes(blocks[count - 1].offset)
            + bytes::u64_bytes(blocks[count - 1].size))
    }
}

/// The directory record of an entry whose name stands at `name_offset` of the
/// name table.
#[verifier::opaque]
pub open spec fn record_bytes(e: EntryModel, name_offset: u64) -> Seq<u8> {
    bytes::u16_bytes(e.compression_method.id()) + bytes::u16_bytes(e.last_mod_file_time)
        + bytes::u16_bytes(e.last_mod_file_date) + bytes::u32_bytes(e.crc32) + bytes::u64_bytes(
        e.compressed_size,
    ) + bytes::u64_bytes(e.uncompressed_size) + bytes::u64_bytes(e.local_header_offset)
        + bytes::u64_bytes(name_offset) + e.signature + bytes::u16_bytes(
        if e.is_encrypted {
            1
        } else {
            0
        },
    ) + e.sha256
}

/// The directory records of the first `count` entries.
pub open spec fn directory_bytes(entries: Seq<EntryModel>, count: int) -> Seq<u8>
    decreases count,
{
    if count <= 0 {
        Seq::empty()
    } else {
        directory_bytes(entries, count - 1) + record_bytes(
            entries[count - 1],
            names_length(entries, count - 1) as u64,
        )
    }
}

/// The first `count` names, each with its NUL.
pub open spec fn name_bytes(entries: Seq<EntryModel>, count: int) -> Seq<u8>
    decreases count,
{
    if count <= 0 {
        Seq::empty()
    } else {
        name_bytes(entries, count - 1) + (encode_utf8(entries[count - 1].name) + seq![0u8])
    }
}

/// The bytes from the end of the payloads up to the central directory.
pub open spec fn install_block(
    plan: V2Plan,
    entries: Seq<EntryModel>,
    blocks: Seq<P4kFreelistBlock>,
) -> Seq<u8> {
    install_bytes(entries, entries.len() as int) + freelist_bytes(blocks, blocks.len() as int)
        + bytes::zeros(
        (plan.cdr_offset - plan.end_of_payload - install_used(
            entries.len() as int,
            blocks.len() as int,
        )) as nat,
    )
}

/// The bytes from the central directory up to the end of the file.
pub open spec fn trailing_block(
    plan: V2Plan,
    entries: Seq<EntryModel>,
    freelist_count: int,
    options: P4kWriterOptions,
) -> Seq<u8> {
    directory_bytes(entries, entries.len() as int) + name_bytes(entries, entries.len() as int)
        + cache_bytes(entries.len() as int) + bytes::zeros(
        (plan.eof_size - plan.eof_used()) as nat,
    )
        + plan.record(entries.len() as int, freelist_count, options).bytes()
}

/// The tail of a v2 archive that is written from `position` on.
pub open spec fn tail_bytes(
    position: u64,
    plan: V2Plan,
    entries: Seq<EntryModel>,
    blocks: Seq<P4kFreelistBlock>,
    options: P4kWriterOptions,
) -> Seq<u8> {
    bytes::zeros((plan.end_of_payload - position) as nat) + install_block(plan, entries, blocks)
        + trailing_block(plan, entries, blocks.len() as int, options)
}

fn write_install_block(
    out: &mut Vec<u8>,
    plan: &V2Plan,
    entries: &Vec<P4kEntryRef<'_>>,
    blocks: &Vec<P4kFreelistBlock>,
    options: &P4kWriterOptions,
)
    requires
        plan.fits(ref_models(entries@), blocks@.len() as int, options.sector_size),
    ensures
        final(out)@ == old(out)@ + install_block(*plan, ref_models(entries@), blocks@),
{
    let ghost models = ref_models(entries@);
    let ghost start = out@;
    let mut i: usize = 0;
    assert(out@ =~= start + install_bytes(models, 0));
    while i < entries.len()
        invariant
            i <= entries@.len(),
            models == ref_models(entries@),
            out@ == start + install_bytes(models, i as int),
        decreases entries@.len() - i,
    {
        assert(models[i as int] == entries@[i as int]@);
        put_u64(out, entries[i].bytes_already_written);
        proof {
            bytes::lemma_joined(
                start,
                install_bytes(models, i as int),
                bytes::u64_bytes(models[i as int].bytes_already_written),
            );
        }
        i += 1;
    }
    let ghost middle = out@;
    let mut k: usize = 0;
    assert(out@ =~= middle + freelist_bytes(blocks@, 0));
    while k < blocks.len()
        invariant
            k <= blocks@.len(),
            out@ == middle + freelist_bytes(blocks@, k as int),
        decreases blocks@.len() - k,
    {
        let ghost before = out@;
        let block: P4kFreelistBlock = blocks[k];
        put_u64(out, block.offset);
        put_u64(out, block.size);
        proof {
            let record = bytes::u64_bytes(block.offset) + bytes::u64_bytes(block.size);
            bytes::lemma_joined(
                before,
                bytes::u64_bytes(block.offset),
                bytes::u64_bytes(block.size),
            );
            bytes::lemma_joined(middle, freelist_bytes(blocks@, k as int), record);
        }
        k += 1;
    }
    let used: u64 = 8 * entries.len() as u64 + 16 * blocks.len() as u64;
    put_zeros(out, plan.cdr_offset - plan.end_of_payload - used);
    proof {
        let a = install_bytes(models, models.len() as int);
        let b = freelist_bytes(blocks@, blocks@.len() as int);
        bytes::lemma_joined(start, a, b);
        bytes::lemma_joined(
            start,
            a + b,
            bytes::zeros((plan.cdr_offset - plan.end_of_payload - used) as nat),
        );
    }
}

fn write_directory(out: &mut Vec<u8>, entries: &Vec<P4kEntryRef<'_>>)
    requires
        names_length(ref_models(entries@), entries@.len() as int) <= u64::MAX,
    ensures
        final(out)@ == old(out)@ + directory_bytes(ref_models(entries@), entries@.len() as int),
{
    let ghost models = ref_models(entries@);
    let ghost start = out@;
    let mut name_offset: u64 = 0;
    let mut i: usize = 0;
    assert(out@ =~= start + directory_bytes(models, 0));
    while i < entries.len()
        invariant
            i <= entries@.len(),
            models == ref_models(entries@),
            names_length(models, entries@.len() as int) <= u64::MAX,
            name_offset == names_length(models, i as int),
            out@ == start + directory_bytes(models, i as int),
        decreases entries@.len() - i,
    {
        assert(models[i as int] == entries@[i as int]@);
        let entry: &P4kEntryRef<'_> = &entries[i];
        let record = CentralDirectoryHeaderV2 {
            compression_method: entry.compression_method.id(),
            last_mod_file_time: entry.last_mod_file_time,
            last_mod_file_date: entry.last_mod_file_date,
            crc32: entry.crc32,
            compressed_size: entry.compressed_size,
            uncompressed_size: entry.uncompressed_size,
            offset_to_file_data: entry.local_header_offset,
            offset_to_filename: name_offset,
            signature: entry.signature,
            encryption_flag: if entry.is_encrypted {
                1
            } else {
                0
            },
            sha256: entry.sha256,
        };
        record.write(out);
        proof {
            let written = record_bytes(models[i as int], name_offset);
            assert(record.bytes() == written) by {
                reveal(CentralDirectoryHeaderV2::bytes);
                reveal(record_bytes);
            }
            bytes::lemma_joined(start, directory_bytes(models, i as int), written);
            lemma_names_grow(models, i + 1, entries@.len() as int);
        }
        name_offset = name_offset + entry.name.as_bytes().len() as u64 + 1;
        i += 1;
    }
}

fn write_names(out: &mut Vec<u8>, entries: &Vec<P4kEntryRef<'_>>)
    ensures
        final(out)@ == old(out)@ + name_bytes(ref_models(entries@), entries@.len() as int),
{
    let ghost models = ref_models(entries@);
    let ghost start = out@;
    let mut i: usize = 0;
    assert(out@ =~= start + name_bytes(models, 0));
    while i < entries.len()
        invariant
            i <= entries@.len(),
            models == ref_models(entries@),
            out@ == start + name_bytes(models, i as int),
        decreases entries@.len() - i,
    {
        assert(models[i as int] == entries@[i as int]@);
        let ghost before = out@;
        let ghost name = encode_utf8(models[i as int].name);
        put_bytes(out, entries[i].name.as_bytes());
        out.push(0);
        proof {
            assert(out@ =~= before + (name + seq![0u8]));
            bytes::lemma_joined(start, name_bytes(models, i as int), name + seq![0u8]);
        }
        i += 1;
    }
}

fn write_cache(out: &mut Vec<u8>, count: u64)
    requires
        cache_length(count as int) <= u64::MAX,
    ensures
        final(out)@ == old(out)@ + cache_bytes(count as int),
{
    let ghost start = out@;
    let ghost a = bytes::u32_bytes(TRIE_NODES_SIZE);
    let low: u32 = (count % 0x1_0000_0000) as u32;
    let ghost b = bytes::u32_bytes(low);
    let ghost c = bytes::u32_bytes(TRIE_END_SIZE);
    let ghost d = bytes::u32_bytes(0);
    put_u32(out, TRIE_NODES_SIZE);
    put_u32(out, low);
    put_u32(out, TRIE_END_SIZE);
    put_u32(out, 0);
    put_zeros(out, (TRIE_NODES_SIZE + TRIE_END_SIZE) as u64 + 4 * count);
    proof {
        bytes::lemma_joined(start, a, b);
        bytes::lemma_joined(start, a + b, c);
        bytes::lemma_joined(start, a + b + c, d);
        bytes::lemma_joined(
            start,
            a + b + c + d,
            bytes::zeros((cache_length(count as int) - TRIE_HEADER_SIZE) as nat),
        );
    }
}

fn write_trailing_block(
    out: &mut Vec<u8>,
    plan: &V2Plan,
    entries: &Vec<P4kEntryRef<'_>>,
    freelist_count: usize,
    options: &P4kWriterOptions,
)
    requires
        plan.fits(ref_models(entries@), freelist_count as int, options.sector_size),
    ensures
        final(out)@ == old(out)@ + trailing_block(
            *plan,
            ref_models(entries@),
            freelist_count as int,
            *options,
        ),
{
    let ghost models = ref_models(entries@);
    let ghost start = out@;
    write_directory(out, entries);
    write_names(out, entries);
    write_cache(out, entries.len() as u64);
    let padding: u64 = plan.eof_size - plan.cdr_size - plan.names_size - plan.cache_size
        - EOCD_V2_SIZE as u64;
    put_zeros(out, padding);
    let record = Eocd2Record {
        num_file_entries: entries.len() as u64,
        reserved_08: 0,
        end_of_file_block_offset: plan.cdr_offset,
        cdr_size: plan.cdr_size,
        reserved_20: 0,
        name_table_abs_offset: plan.cdr_offset + plan.cdr_size,
        total_name_length: plan.names_size,
        reserved_38: 0,
        end_of_payload: plan.end_of_payload,
        num_freelist_blocks: freelist_count as u64,
        trie_cache_offset: plan.cdr_offset + plan.cdr_size + plan.names_size,
        trie_cache_size: plan.cache_size,
        physical_sector_size: options.sector_size,
        status_flags: 0,
        manifest_sha256: options.manifest_sha256,
        version: EOCD_V2_VERSION,
        magic: EOCD_V2_MAGIC,
    };
    record.write(out);
    proof {
        let a = directory_bytes(models, models.len() as int);
        let b = name_bytes(models, models.len() as int);
        let c = cache_bytes(models.len() as int);
        let d = bytes::zeros(padding as nat);
        let e = plan.record(models.len() as int, freelist_count as int, *options);
        assert(record == e);
        bytes::lemma_joined(start, a, b);
        bytes::lemma_joined(start, a + b, c);
        bytes::lemma_joined(start, a + b + c, d);
        bytes::lemma_joined(start, a + b + c + d, e.bytes());
    }
}

/// Write the tail of a v2 archive from `position` on, and append it to `out`.
///
/// Nothing is appended where the tail cannot be written.
pub fn write_v2_tail(
    out: &mut Vec<u8>,
    position: u64,
    entries: &Vec<P4kEntryRef<'_>>,
    blocks: &Vec<P4kFreelistBlock>,
    payload_end: u64,
    options: &P4kWriterOptions,
    align_payload_end: bool,
) -> (r: Result<P4kWriteStats>)
    requires
        options.sector_size > 0,
    ensures
        ({
            let planned = plan_outcome(
                position,
                ref_models(entries@),
                blocks@.len() as int,
                payload_end,
                options.sector_size,
                align_payload_end,
            );
            match r {
                Ok(stats) => {
                    &&& planned is Ok
                    &&& stats == planned->Ok_0.stats(entries@.len() as usize)
                    &&& final(out)@ == old(out)@ + tail_bytes(
                        position,
                        planned->Ok_0,
                        ref_models(entries@),
                        blocks@,
                        *options,
                    )
                },
                Err(e) => {
                    &&& planned == Err::<V2Plan, Fault>(e@)
                    &&& final(out)@ == old(out)@
                },
            }
        }),
{
    let plan = plan_v2_tail(
        position,
        entries,
        blocks.len(),
        payload_end,
        options.sector_size,
        align_payload_end,
    )?;
    proof {
        lemma_plan_fits(
            position,
            ref_models(entries@),
            blocks@.len() as int,
            payload_end,
            options.sector_size,
            align_payload_end,
        );
    }
    let ghost start = out@;
    put_zeros(out, plan.end_of_payload - position);
    write_install_block(out, &plan, entries, blocks, options);
    write_trailing_block(out, &plan, entries, blocks.len(), options);
    proof {
        let models = ref_models(entries@);
        let a = bytes::zeros((plan.end_of_payload - position) as nat);
        let b = install_block(plan, models, blocks@);
        let c = trailing_block(plan, models, blocks@.len() as int, *options);
        bytes::lemma_joined(start, a, b);
        bytes::lemma_joined(start, a + b, c);
    }
    Ok(
        P4kWriteStats {
            entry_count: entries.len(),
            payload_end: plan.end_of_payload,
            cdr_offset: plan.cdr_offset,
            cdr_size: plan.cdr_size,
            name_table_size: plan.names_size,
            file_size: plan.cdr_offset + plan.eof_size,
        },
    )
}

} // verus!
