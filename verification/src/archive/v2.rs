//! The directory of a v2 ("JiJi") archive.

use vstd::prelude::*;
use vstd::seq::*;
use vstd::seq_lib::*;
use vstd::slice::*;
use vstd::string::*;
use vstd::utf8::*;

use crate::align;
use crate::align::is_power_of_two;
use crate::archive::freelist;
use crate::archive::freelist::read_freelist_blocks;
use crate::archive::model;
use crate::archive::model::{
    Directory, DirectoryModel, EntryModel, LayoutModel, P4kArchiveLayout, P4kEntryCompact,
    P4kFreelistBlock,
};
use crate::bytes;
use crate::bytes::{all_zero, get_u16, get_u32, get_u64};
use crate::error::{Error, Fault, Result};
use crate::order;
use crate::order::sort_positions;
use crate::path;
use crate::path::p4k_path_bytes_need_normalization;
use crate::scan::first_position;
use crate::text;
use crate::text::{dec, quoted, strict};
use crate::zip;
use crate::zip::{
    CentralDirectoryHeaderV2, CompressionMethod, Eocd2Record, CDR_V2_ENTRY_SIZE, EOCD_V2_MAGIC,
    EOCD_V2_SIZE, EOCD_V2_VERSION,
};

verus! {

/// The central directory of a v2 archive starts at a multiple of this.
pub const V2_CDR_ALIGNMENT: usize = 0x1_0000;

/// The ranges that the trailer of a v2 archive names.
#[derive(Debug, Clone, Copy)]
pub struct V2Trailer {
    pub count: u64,
    pub cdr_offset: u64,
    pub cdr_size: u64,
    pub names_offset: u64,
    pub names_size: u64,
    pub cache_offset: u64,
    pub cache_size: u64,
    pub end_of_payload: u64,
    pub freelist_count: u64,
    pub sector_size: u64,
}

impl V2Trailer {
    /// The trailer whose record starts at `at`.
    pub open spec fn at(data: Seq<u8>, at: int) -> V2Trailer {
        V2Trailer {
            count: bytes::le64(data, at),
            cdr_offset: bytes::le64(data, at + 0x10),
            cdr_size: bytes::le64(data, at + 0x18),
            names_offset: bytes::le64(data, at + 0x28),
            names_size: bytes::le64(data, at + 0x30),
            end_of_payload: bytes::le64(data, at + 0x40),
            freelist_count: bytes::le64(data, at + 0x48),
            cache_offset: bytes::le64(data, at + 0x50),
            cache_size: bytes::le64(data, at + 0x58),
            sector_size: bytes::le64(data, at + 0x60),
        }
    }

    /// Whether every number fits the machine's offsets.
    pub open spec fn fits(self) -> bool {
        &&& self.cdr_offset <= usize::MAX
        &&& self.cdr_size <= usize::MAX
        &&& self.count <= usize::MAX
        &&& self.freelist_count <= usize::MAX
        &&& self.names_offset <= usize::MAX
        &&& self.names_size <= usize::MAX
        &&& self.cache_offset <= usize::MAX
        &&& self.cache_size <= usize::MAX
        &&& self.end_of_payload <= usize::MAX
        &&& self.sector_size <= usize::MAX
    }

    /// Where the name table ends.
    pub open spec fn names_end(self) -> int {
        self.names_offset + self.names_size
    }

    /// Whether the trailer names a trie cache.
    pub open spec fn has_cache(self) -> bool {
        self.cache_offset != 0 || self.cache_size != 0
    }

    /// Where the trie cache ends, or the name table where there is no cache.
    pub open spec fn cache_end(self) -> int {
        self.names_end() + self.cache_size
    }

    /// How many bytes of the trailing block are used.
    pub open spec fn eof_used(self) -> int {
        self.cdr_size + self.names_size + self.cache_size + EOCD_V2_SIZE
    }

    /// Where the per-entry part of the install block ends.
    pub open spec fn install_end(self) -> int {
        self.end_of_payload + 8 * self.count
    }

    /// Where the freelist ends.
    pub open spec fn freelist_end(self) -> int {
        self.install_end() + 16 * self.freelist_count
    }

    /// How many bytes the trailing block takes.
    pub open spec fn eof_size(self) -> int {
        align::aligned_up(self.eof_used(), self.sector_size as int)
    }

    /// What a trailer keeps to that was accepted.
    pub open spec fn in_bounds(self, len: int, end: int) -> bool {
        &&& self.fits()
        &&& align::is_pow2(self.sector_size as nat)
        &&& len % self.sector_size as int == 0
        &&& self.cdr_size == self.count * CDR_V2_ENTRY_SIZE
        &&& self.cdr_offset % V2_CDR_ALIGNMENT as u64 == 0
        &&& self.names_offset == self.cdr_offset + self.cdr_size
        &&& end == self.cdr_offset + self.eof_size()
        &&& self.has_cache() ==> self.cache_offset == self.names_end()
        &&& self.cache_end() <= end - EOCD_V2_SIZE
        &&& self.end_of_payload <= self.cdr_offset
        &&& self.freelist_end() <= self.cdr_offset
        &&& end <= len
    }
}

/// What is wrong with a reserved slot.
pub open spec fn reserved_fault(name: Seq<char>, value: u64) -> Fault {
    Fault::MalformedV2Eocdr(name + " is "@ + text::dec_text(value as nat) + ", expected 0"@)
}

/// The first field of the trailer record that no archive can have.
pub open spec fn trailer_field_fault(data: Seq<u8>, end: int) -> Option<Fault> {
    let at = end - EOCD_V2_SIZE;
    let t = V2Trailer::at(data, at);
    let len = data.len();
    if bytes::le64(data, at + 0x08) != 0 {
        Some(reserved_fault("reserved_08"@, bytes::le64(data, at + 0x08)))
    } else if bytes::le64(data, at + 0x20) != 0 {
        Some(reserved_fault("reserved_20"@, bytes::le64(data, at + 0x20)))
    } else if bytes::le64(data, at + 0x38) != 0 {
        Some(reserved_fault("reserved_38"@, bytes::le64(data, at + 0x38)))
    } else if data[at + 0x68] % 2 == 1 {
        Some(
            Fault::MalformedV2Eocdr(
                "status flags "@ + text::dec_text(data[at + 0x68] as nat)
                    + " have the incomplete bit set"@,
            ),
        )
    } else if t.cdr_offset > usize::MAX {
        Some(Fault::MalformedV2Eocdr("CDR offset overflows usize"@))
    } else if t.cdr_size > usize::MAX {
        Some(Fault::MalformedV2Eocdr("CDR size overflows usize"@))
    } else if t.count > usize::MAX {
        Some(Fault::MalformedV2Eocdr("entry count overflows usize"@))
    } else if t.freelist_count > usize::MAX {
        Some(Fault::MalformedV2Eocdr("freelist block count overflows usize"@))
    } else if t.names_offset > usize::MAX {
        Some(Fault::MalformedV2Eocdr("name table offset overflows usize"@))
    } else if t.names_size > usize::MAX {
        Some(Fault::MalformedV2Eocdr("name table size overflows usize"@))
    } else if t.cache_offset > usize::MAX {
        Some(Fault::MalformedV2Eocdr("trie cache offset overflows usize"@))
    } else if t.cache_size > usize::MAX {
        Some(Fault::MalformedV2Eocdr("trie cache size overflows usize"@))
    } else if t.end_of_payload > usize::MAX {
        Some(Fault::MalformedV2Eocdr("end_of_payload overflows usize"@))
    } else if !align::is_pow2(t.sector_size as nat) {
        Some(
            Fault::MalformedV2Eocdr(
                "physical sector size "@ + text::dec_text(t.sector_size as nat)
                    + ", expected non-zero power of two"@,
            ),
        )
    } else if t.sector_size > usize::MAX {
        Some(Fault::MalformedV2Eocdr("physical sector size overflows usize"@))
    } else if len as int % t.sector_size as int != 0 {
        Some(
            Fault::MalformedV2Eocdr(
                "P4K v2 file size "@ + text::dec_text(len)
                    + " is not aligned to physical sector size "@ + text::dec_text(
                    t.sector_size as nat,
                ),
            ),
        )
    } else {
        None
    }
}

/// The first range of the trailer that does not fit the file.
pub open spec fn trailer_range_fault(data: Seq<u8>, end: int, t: V2Trailer) -> Option<Fault> {
    let len = data.len();
    let cdr_end = t.cdr_offset + t.cdr_size;
    let needed = (t.count + 2 * t.freelist_count) * 8;
    if t.count * CDR_V2_ENTRY_SIZE > usize::MAX {
        Some(Fault::MalformedV2Eocdr("cdr size overflow"@))
    } else if t.cdr_size != t.count * CDR_V2_ENTRY_SIZE {
        Some(
            Fault::MalformedV2Eocdr(
                "cdr_size "@ + text::dec_text(t.cdr_size as nat) + " does not match num_entries "@
                    + text::dec_text(t.count as nat) + " * "@ + text::dec_text(
                    CDR_V2_ENTRY_SIZE as nat,
                ) + " = "@ + text::dec_text((t.count * CDR_V2_ENTRY_SIZE) as nat),
            ),
        )
    } else if cdr_end > usize::MAX {
        Some(Fault::MalformedV2Eocdr("cdr range overflow"@))
    } else if t.cdr_offset % V2_CDR_ALIGNMENT as u64 != 0 {
        Some(
            Fault::MalformedV2Eocdr(
                "CDR offset "@ + text::dec_text(t.cdr_offset as nat) + " is not aligned to "@
                    + text::dec_text(V2_CDR_ALIGNMENT as nat),
            ),
        )
    } else if t.names_end() > usize::MAX {
        Some(Fault::MalformedV2Eocdr("name table range overflow"@))
    } else if t.names_offset != cdr_end {
        Some(
            Fault::MalformedV2Eocdr(
                "name table offset "@ + text::dec_text(t.names_offset as nat)
                    + " does not follow CDR end "@ + text::dec_text(cdr_end as nat),
            ),
        )
    } else if t.has_cache() && t.cache_offset != t.names_end() {
        Some(
            Fault::MalformedV2Eocdr(
                "trie cache offset "@ + text::dec_text(t.cache_offset as nat)
                    + " does not follow name table end "@ + text::dec_text(t.names_end() as nat),
            ),
        )
    } else if t.eof_used() > usize::MAX {
        Some(Fault::MalformedV2Eocdr("EOF buffer size overflow"@))
    } else if t.eof_used() + t.sector_size - 1 > usize::MAX {
        Some(Fault::MalformedV2Eocdr("EOF buffer alignment overflow"@))
    } else if t.cdr_offset + t.eof_size() > usize::MAX {
        Some(Fault::MalformedV2Eocdr("EOF buffer end overflow"@))
    } else if end != t.cdr_offset + t.eof_size() {
        Some(
            Fault::MalformedV2Eocdr(
                "EOF buffer ends at "@ + text::dec_text(end as nat) + ", expected "@
                    + text::dec_text((t.cdr_offset + t.eof_size()) as nat),
            ),
        )
    } else if cdr_end > len || t.names_end() > len {
        Some(Fault::MalformedV2Eocdr("cdr or name table extends past file end"@))
    } else if t.names_end() > end - EOCD_V2_SIZE {
        Some(
            Fault::MalformedV2Eocdr(
                "name table end "@ + text::dec_text(t.names_end() as nat) + " overlaps EOCDR at "@
                    + text::dec_text((end - EOCD_V2_SIZE) as nat),
            ),
        )
    } else if !bytes::zero_between(data, t.cache_end(), end - EOCD_V2_SIZE) {
        Some(Fault::MalformedV2Eocdr("non-zero EOF padding before EOCDR"@))
    } else if t.end_of_payload > t.cdr_offset {
        Some(
            Fault::MalformedV2Eocdr(
                "end_of_payload "@ + text::dec_text(t.end_of_payload as nat)
                    + " is after CDR offset "@ + text::dec_text(t.cdr_offset as nat),
            ),
        )
    } else if 2 * t.freelist_count > usize::MAX {
        Some(Fault::MalformedV2Eocdr("install block freelist count overflow"@))
    } else if needed > usize::MAX {
        Some(Fault::MalformedV2Eocdr("install block size overflow"@))
    } else if t.cdr_offset - t.end_of_payload < needed {
        Some(
            Fault::MalformedV2Eocdr(
                "install block has "@ + text::dec_text((t.cdr_offset - t.end_of_payload) as nat)
                    + " bytes, need "@ + text::dec_text(needed as nat),
            ),
        )
    } else {
        None
    }
}

/// What the trailer of a v2 archive says, or what is wrong with it.
pub open spec fn trailer_outcome(data: Seq<u8>, end: int) -> std::result::Result<V2Trailer, Fault> {
    let t = V2Trailer::at(data, end - EOCD_V2_SIZE);
    match trailer_field_fault(data, end) {
        Some(fault) => Err(fault),
        None => match trailer_range_fault(data, end, t) {
            Some(fault) => Err(fault),
            None => Ok(t),
        },
    }
}

fn malformed<T>(message: String) -> (r: Result<T>)
    ensures
        r matches Err(e) && e@ == Fault::MalformedV2Eocdr(message@),
{
    Err(Error::MalformedV2Eocdr(message))
}

fn check_reserved(name: &str, value: u64) -> (r: Result<()>)
    ensures
        value == 0 ==> r is Ok,
        value != 0 ==> (r matches Err(e) && e@ == reserved_fault(name@, value)),
{
    if value != 0 {
        return malformed(
            String::from_str(name).concat(" is ").concat(dec(value).as_str()).concat(
                ", expected 0",
            ),
        );
    }
    Ok(())
}

fn read_trailer_fields(data: &[u8], end: usize, record: &Eocd2Record) -> (r: Result<V2Trailer>)
    requires
        EOCD_V2_SIZE <= end <= data@.len(),
        record.stands_at(data@, end - EOCD_V2_SIZE),
    ensures
        match r {
            Ok(t) => {
                &&& trailer_field_fault(data@, end as int) is None
                &&& t == V2Trailer::at(data@, end - EOCD_V2_SIZE)
            },
            Err(e) => trailer_field_fault(data@, end as int) == Some(e@),
        },
{
    check_reserved("reserved_08", record.reserved_08)?;
    check_reserved("reserved_20", record.reserved_20)?;
    check_reserved("reserved_38", record.reserved_38)?;
    if record.status_flags % 2 == 1 {
        return malformed(
            String::from_str("status flags ").concat(
                dec(record.status_flags as u64).as_str(),
            ).concat(" have the incomplete bit set"),
        );
    }
    let limit: u64 = usize::MAX as u64;
    if record.end_of_file_block_offset > limit {
        return malformed(String::from_str("CDR offset overflows usize"));
    }
    if record.cdr_size > limit {
        return malformed(String::from_str("CDR size overflows usize"));
    }
    if record.num_file_entries > limit {
        return malformed(String::from_str("entry count overflows usize"));
    }
    if record.num_freelist_blocks > limit {
        return malformed(String::from_str("freelist block count overflows usize"));
    }
    if record.name_table_abs_offset > limit {
        return malformed(String::from_str("name table offset overflows usize"));
    }
    if record.total_name_length > limit {
        return malformed(String::from_str("name table size overflows usize"));
    }
    if record.trie_cache_offset > limit {
        return malformed(String::from_str("trie cache offset overflows usize"));
    }
    if record.trie_cache_size > limit {
        return malformed(String::from_str("trie cache size overflows usize"));
    }
    if record.end_of_payload > limit {
        return malformed(String::from_str("end_of_payload overflows usize"));
    }
    let sector_size: u64 = record.physical_sector_size;
    if !is_power_of_two(sector_size) {
        return malformed(
            String::from_str("physical sector size ").concat(dec(sector_size).as_str()).concat(
                ", expected non-zero power of two",
            ),
        );
    }
    if sector_size > limit {
        return malformed(String::from_str("physical sector size overflows usize"));
    }
    if data.len() % sector_size as usize != 0 {
        return malformed(
            String::from_str("P4K v2 file size ").concat(dec(data.len() as u64).as_str()).concat(
                " is not aligned to physical sector size ",
            ).concat(dec(sector_size).as_str()),
        );
    }
    Ok(
        V2Trailer {
            count: record.num_file_entries,
            cdr_offset: record.end_of_file_block_offset,
            cdr_size: record.cdr_size,
            names_offset: record.name_table_abs_offset,
            names_size: record.total_name_length,
            cache_offset: record.trie_cache_offset,
            cache_size: record.trie_cache_size,
            end_of_payload: record.end_of_payload,
            freelist_count: record.num_freelist_blocks,
            sector_size,
        },
    )
}

fn check_directory_ranges(data: &[u8], end: usize, t: &V2Trailer) -> (r: Result<usize>)
    requires
        EOCD_V2_SIZE <= end <= data@.len(),
        t.fits(),
        t.sector_size > 0,
    ensures
        match r {
            Ok(eof_aligned) => {
                &&& eof_aligned == t.eof_size()
                &&& t.cdr_size == t.count * CDR_V2_ENTRY_SIZE
                &&& t.cdr_offset + t.cdr_size <= usize::MAX
                &&& t.cdr_offset % V2_CDR_ALIGNMENT as u64 == 0
                &&& t.names_end() <= usize::MAX
                &&& t.names_offset == t.cdr_offset + t.cdr_size
                &&& t.has_cache() ==> t.cache_offset == t.names_end()
                &&& t.eof_used() + t.sector_size - 1 <= usize::MAX
            },
            Err(e) => trailer_range_fault(data@, end as int, *t) == Some(e@),
        },
{
    let count: usize = t.count as usize;
    let cdr_start: usize = t.cdr_offset as usize;
    let cdr_size: usize = t.cdr_size as usize;
    let names_start: usize = t.names_offset as usize;
    let names_len: usize = t.names_size as usize;
    let expected_cdr_size: usize = match count.checked_mul(CDR_V2_ENTRY_SIZE) {
        Some(v) => v,
        None => return malformed(String::from_str("cdr size overflow")),
    };
    if cdr_size != expected_cdr_size {
        return malformed(
            String::from_str("cdr_size ").concat(dec(t.cdr_size).as_str()).concat(
                " does not match num_entries ",
            ).concat(dec(t.count).as_str()).concat(" * ").concat(
                dec(CDR_V2_ENTRY_SIZE as u64).as_str(),
            ).concat(" = ").concat(dec(expected_cdr_size as u64).as_str()),
        );
    }
    let cdr_end: usize = match cdr_start.checked_add(cdr_size) {
        Some(v) => v,
        None => return malformed(String::from_str("cdr range overflow")),
    };
    if cdr_start % V2_CDR_ALIGNMENT != 0 {
        return malformed(
            String::from_str("CDR offset ").concat(dec(t.cdr_offset).as_str()).concat(
                " is not aligned to ",
            ).concat(dec(V2_CDR_ALIGNMENT as u64).as_str()),
        );
    }
    let names_end: usize = match names_start.checked_add(names_len) {
        Some(v) => v,
        None => return malformed(String::from_str("name table range overflow")),
    };
    if names_start != cdr_end {
        return malformed(
            String::from_str("name table offset ").concat(dec(t.names_offset).as_str()).concat(
                " does not follow CDR end ",
            ).concat(dec(cdr_end as u64).as_str()),
        );
    }
    if (t.cache_offset != 0 || t.cache_size != 0) && t.cache_offset as usize != names_end {
        return malformed(
            String::from_str("trie cache offset ").concat(dec(t.cache_offset).as_str()).concat(
                " does not follow name table end ",
            ).concat(dec(names_end as u64).as_str()),
        );
    }
    let records: usize = match cdr_size.checked_add(names_len) {
        Some(v) => v,
        None => return malformed(String::from_str("EOF buffer size overflow")),
    };
    let with_cache: usize = match records.checked_add(t.cache_size as usize) {
        Some(v) => v,
        None => return malformed(String::from_str("EOF buffer size overflow")),
    };
    let eof_used: usize = match with_cache.checked_add(EOCD_V2_SIZE) {
        Some(v) => v,
        None => return malformed(String::from_str("EOF buffer size overflow")),
    };
    let sector_size: usize = t.sector_size as usize;
    let padded: usize = match eof_used.checked_add(sector_size - 1) {
        Some(v) => v,
        None => return malformed(String::from_str("EOF buffer alignment overflow")),
    };
    proof {
        align::lemma_aligned_up(eof_used as int, sector_size as int);
    }
    Ok(padded / sector_size * sector_size)
}

fn check_block_ranges(data: &[u8], end: usize, t: &V2Trailer, eof_aligned: usize) -> (r: Result<()>)
    requires
        EOCD_V2_SIZE <= end <= data@.len(),
        t.fits(),
        t.sector_size > 0,
        eof_aligned == t.eof_size(),
        t.cdr_size == t.count * CDR_V2_ENTRY_SIZE,
        t.cdr_offset + t.cdr_size <= usize::MAX,
        t.cdr_offset % V2_CDR_ALIGNMENT as u64 == 0,
        t.names_end() <= usize::MAX,
        t.names_offset == t.cdr_offset + t.cdr_size,
        t.has_cache() ==> t.cache_offset == t.names_end(),
        t.eof_used() + t.sector_size - 1 <= usize::MAX,
    ensures
        match r {
            Ok(_) => trailer_range_fault(data@, end as int, *t) is None,
            Err(e) => trailer_range_fault(data@, end as int, *t) == Some(e@),
        },
{
    let cdr_start: usize = t.cdr_offset as usize;
    let cdr_end: usize = cdr_start + t.cdr_size as usize;
    let names_end: usize = t.names_offset as usize + t.names_size as usize;
    let expected_end: usize = match cdr_start.checked_add(eof_aligned) {
        Some(v) => v,
        None => return malformed(String::from_str("EOF buffer end overflow")),
    };
    if end != expected_end {
        return malformed(
            String::from_str("EOF buffer ends at ").concat(dec(end as u64).as_str()).concat(
                ", expected ",
            ).concat(dec(expected_end as u64).as_str()),
        );
    }
    let eocdr_start: usize = end - EOCD_V2_SIZE;
    if cdr_end > data.len() || names_end > data.len() {
        return malformed(String::from_str("cdr or name table extends past file end"));
    }
    if names_end > eocdr_start {
        return malformed(
            String::from_str("name table end ").concat(dec(names_end as u64).as_str()).concat(
                " overlaps EOCDR at ",
            ).concat(dec(eocdr_start as u64).as_str()),
        );
    }
    proof {
        align::lemma_aligned_up(t.eof_used(), t.sector_size as int);
    }
    let cache_end: usize = names_end + t.cache_size as usize;
    if !all_zero(data, cache_end, eocdr_start) {
        return malformed(String::from_str("non-zero EOF padding before EOCDR"));
    }
    if t.end_of_payload > t.cdr_offset {
        return malformed(
            String::from_str("end_of_payload ").concat(dec(t.end_of_payload).as_str()).concat(
                " is after CDR offset ",
            ).concat(dec(t.cdr_offset).as_str()),
        );
    }
    let freelist_words: usize = match (t.freelist_count as usize).checked_mul(2) {
        Some(v) => v,
        None => return malformed(String::from_str("install block freelist count overflow")),
    };
    let words: usize = match (t.count as usize).checked_add(freelist_words) {
        Some(v) => v,
        None => return malformed(String::from_str("install block size overflow")),
    };
    let needed: usize = match words.checked_mul(8) {
        Some(v) => v,
        None => return malformed(String::from_str("install block size overflow")),
    };
    let available: usize = cdr_start - t.end_of_payload as usize;
    if available < needed {
        return malformed(
            String::from_str("install block has ").concat(dec(available as u64).as_str()).concat(
                " bytes, need ",
            ).concat(dec(needed as u64).as_str()),
        );
    }
    Ok(())
}

/// Read the trailer of a v2 archive.
pub fn read_trailer(data: &[u8], end: usize, record: &Eocd2Record) -> (r: Result<V2Trailer>)
    requires
        EOCD_V2_SIZE <= end <= data@.len(),
        record.stands_at(data@, end - EOCD_V2_SIZE),
    ensures
        match r {
            Ok(t) => {
                &&& trailer_outcome(data@, end as int) == Ok::<V2Trailer, Fault>(t)
                &&& t.in_bounds(data@.len() as int, end as int)
            },
            Err(e) => trailer_outcome(data@, end as int) == Err::<V2Trailer, Fault>(e@),
        },
{
    let t = read_trailer_fields(data, end, record)?;
    let eof_aligned: usize = check_directory_ranges(data, end, &t)?;
    check_block_ranges(data, end, &t, eof_aligned)?;
    proof {
        align::lemma_aligned_up(t.eof_used(), t.sector_size as int);
    }
    Ok(t)
}

/// The first zero byte from `from` up to `to`, or `to` where there is none.
pub open spec fn first_zero(s: Seq<u8>, from: int, to: int) -> int
    decreases to - from,
{
    if from >= to {
        to
    } else if s[from] == 0 {
        from
    } else {
        first_zero(s, from + 1, to)
    }
}

/// A zero byte behind bytes that are not zero is the first.
pub proof fn lemma_first_zero(s: Seq<u8>, from: int, to: int, at: int)
    requires
        from <= at <= to,
        at < to ==> s[at] == 0,
        forall|i: int| from <= i < at ==> s[i] != 0,
    ensures
        first_zero(s, from, to) == at,
    decreases at - from,
{
    if from < at {
        lemma_first_zero(s, from + 1, to, at);
    }
}

impl V2Trailer {
    /// Where the record of an entry starts.
    pub open spec fn record_at(self, index: int) -> int {
        self.cdr_offset + index * CDR_V2_ENTRY_SIZE
    }

    /// Where an entry's name starts in the name table, as its record says.
    pub open spec fn name_offset(self, data: Seq<u8>, index: int) -> u64 {
        bytes::le64(data, self.record_at(index) + 0x22)
    }

    /// Where an entry's name starts in the file.
    pub open spec fn name_start(self, data: Seq<u8>, index: int) -> int {
        self.names_offset + self.name_offset(data, index)
    }

    /// Where an entry's name ends in the file.
    pub open spec fn name_stop(self, data: Seq<u8>, index: int) -> int {
        first_zero(data, self.name_start(data, index), self.names_end())
    }

    /// How much of the name table the names before an entry take.
    pub open spec fn names_taken(self, data: Seq<u8>, index: int) -> int {
        if index == 0 {
            0
        } else {
            self.name_stop(data, index - 1) - self.names_offset + 1
        }
    }

    /// The raw name of an entry.
    pub open spec fn raw_name(self, data: Seq<u8>, index: int) -> Seq<u8> {
        data.subrange(self.name_start(data, index), self.name_stop(data, index))
    }
}

/// What is wrong with the name of an entry.
pub open spec fn name_fault(data: Seq<u8>, t: V2Trailer, index: int) -> Option<Fault> {
    let offset = t.name_offset(data, index);
    let raw = t.raw_name(data, index);
    let entry = "entry "@ + text::dec_text(index as nat);
    if offset > usize::MAX {
        Some(
            Fault::MalformedV2Entry(
                entry + " name offset "@ + text::dec_text(offset as nat) + " overflows usize"@,
            ),
        )
    } else if offset >= t.names_size {
        Some(
            Fault::MalformedV2Entry(
                entry + " name offset "@ + text::dec_text(offset as nat) + " >= name table size "@
                    + text::dec_text(t.names_size as nat),
            ),
        )
    } else if offset < t.names_taken(data, index) {
        Some(
            Fault::MalformedV2Entry(
                entry + " name offset "@ + text::dec_text(offset as nat)
                    + " is before previous name end "@ + text::dec_text(
                    t.names_taken(data, index) as nat,
                ),
            ),
        )
    } else if t.name_stop(data, index) >= t.names_end() {
        Some(
            Fault::MalformedV2Entry(
                entry + " name at offset "@ + text::dec_text(offset as nat)
                    + " is not null-terminated"@,
            ),
        )
    } else if !valid_utf8(raw) {
        Some(
            Fault::MalformedV2Entry(
                entry + " name is not valid UTF-8: "@ + text::utf8_error_text(raw),
            ),
        )
    } else if !path::is_normalized(raw, false) {
        Some(
            Fault::MalformedV2Entry(
                entry + " name "@ + text::quoted_text(decode_utf8(raw)) + " is not normalized"@,
            ),
        )
    } else if raw.len() == 0 || raw[0] == path::SLASH {
        Some(
            Fault::MalformedV2Entry(
                entry + " name "@ + text::quoted_text(decode_utf8(raw))
                    + " is not a relative archive path"@,
            ),
        )
    } else {
        None
    }
}

/// What is wrong with the record of an entry.
pub open spec fn record_fault(data: Seq<u8>, t: V2Trailer, index: int) -> Option<Fault> {
    let r = t.record_at(index);
    let method = bytes::le16(data, r);
    let compressed_size = bytes::le64(data, r + 0x0A);
    let offset = bytes::le64(data, r + 0x1A);
    let flag = bytes::le16(data, r + 0xAA);
    let written = bytes::le64(data, t.end_of_payload + 8 * index);
    let entry = "entry "@ + text::dec_text(index as nat);
    if zip::method_of(method) is None {
        Some(Fault::UnsupportedCompression(method))
    } else if flag > 1 {
        Some(
            Fault::MalformedV2Entry(
                entry + " encryption flag "@ + text::dec_text(flag as nat) + ", expected 0 or 1"@,
            ),
        )
    } else if offset % t.sector_size != 0 {
        Some(
            Fault::MalformedV2Entry(
                entry + " data offset "@ + text::dec_text(offset as nat)
                    + " is not aligned to physical sector size "@ + text::dec_text(
                    t.sector_size as nat,
                ),
            ),
        )
    } else if offset > usize::MAX {
        Some(
            Fault::MalformedV2Entry(
                entry + " data offset "@ + text::dec_text(offset as nat) + " overflows usize"@,
            ),
        )
    } else if compressed_size > usize::MAX {
        Some(
            Fault::MalformedV2Entry(
                entry + " compressed size "@ + text::dec_text(compressed_size as nat)
                    + " overflows usize"@,
            ),
        )
    } else if offset + compressed_size > usize::MAX {
        Some(Fault::MalformedV2Entry(entry + " data range overflow"@))
    } else if offset + compressed_size > t.end_of_payload {
        Some(
            Fault::MalformedV2Entry(
                entry + " data range ["@ + text::dec_text(offset as nat) + ", "@ + text::dec_text(
                    (offset + compressed_size) as nat,
                ) + ") extends past end_of_payload "@ + text::dec_text(t.end_of_payload as nat),
            ),
        )
    } else if written > compressed_size {
        Some(
            Fault::MalformedV2Entry(
                entry + " bytes_already_written "@ + text::dec_text(written as nat)
                    + " > compressed_size "@ + text::dec_text(compressed_size as nat),
            ),
        )
    } else {
        None
    }
}

/// The entry that a good record describes.
pub open spec fn entry_at(data: Seq<u8>, t: V2Trailer, index: int) -> EntryModel {
    let r = t.record_at(index);
    EntryModel {
        name: decode_utf8(t.raw_name(data, index)),
        compressed_size: bytes::le64(data, r + 0x0A),
        uncompressed_size: bytes::le64(data, r + 0x12),
        compression_method: zip::method_of(bytes::le16(data, r))->Some_0,
        is_encrypted: bytes::le16(data, r + 0xAA) == 1,
        local_header_offset: bytes::le64(data, r + 0x1A),
        crc32: bytes::le32(data, r + 0x06),
        last_mod_file_time: bytes::le16(data, r + 0x02),
        last_mod_file_date: bytes::le16(data, r + 0x04),
        signature: data.subrange(r + 0x2A, r + 0xAA),
        sha256: data.subrange(r + 0xAC, r + 0xCC),
        bytes_already_written: bytes::le64(data, t.end_of_payload + 8 * index),
    }
}

/// One entry of a v2 archive, or what is wrong with it.
pub open spec fn entry_outcome(data: Seq<u8>, t: V2Trailer, index: int) -> std::result::Result<
    EntryModel,
    Fault,
> {
    match name_fault(data, t, index) {
        Some(fault) => Err(fault),
        None => match record_fault(data, t, index) {
            Some(fault) => Err(fault),
            None => Ok(entry_at(data, t, index)),
        },
    }
}

/// The first `count` entries, or what is wrong with the first bad one.
pub open spec fn entries_outcome(data: Seq<u8>, t: V2Trailer, count: nat) -> std::result::Result<
    Seq<EntryModel>,
    Fault,
>
    decreases count,
{
    if count == 0 {
        Ok(Seq::empty())
    } else {
        match entries_outcome(data, t, (count - 1) as nat) {
            Err(fault) => Err(fault),
            Ok(entries) => match entry_outcome(data, t, count - 1) {
                Err(fault) => Err(fault),
                Ok(entry) => Ok(entries.push(entry)),
            },
        }
    }
}

proof fn lemma_entries_fault_stays(data: Seq<u8>, t: V2Trailer, k: nat, count: nat)
    requires
        k <= count,
        entries_outcome(data, t, k) is Err,
    ensures
        entries_outcome(data, t, count) == entries_outcome(data, t, k),
    decreases count - k,
{
    if k < count {
        lemma_entries_fault_stays(data, t, k, (count - 1) as nat);
    }
}

/// Good entries are all listed.
pub proof fn lemma_entries_listed(data: Seq<u8>, t: V2Trailer, entries: Seq<EntryModel>)
    requires
        forall|i: int|
            0 <= i < entries.len() ==> #[trigger] entry_outcome(data, t, i) == Ok::<
                EntryModel,
                Fault,
            >(entries[i]),
    ensures
        entries_outcome(data, t, entries.len()) == Ok::<Seq<EntryModel>, Fault>(entries),
    decreases entries.len(),
{
    if entries.len() > 0 {
        let n = entries.len() - 1;
        let short = entries.drop_last();
        assert forall|i: int| 0 <= i < short.len() implies #[trigger] entry_outcome(data, t, i)
            == Ok::<EntryModel, Fault>(short[i]) by {
            assert(entry_outcome(data, t, i) == Ok::<EntryModel, Fault>(entries[i]));
        }
        lemma_entries_listed(data, t, short);
        assert(entry_outcome(data, t, n) == Ok::<EntryModel, Fault>(entries[n]));
        assert(entries =~= short.push(entries[n]));
    } else {
        assert(entries =~= Seq::empty());
    }
}

pub(crate) fn entry_text(index: usize) -> (s: String)
    ensures
        s@ == "entry "@ + text::dec_text(index as nat),
{
    String::from_str("entry ").concat(dec(index as u64).as_str())
}

pub(crate) fn bad_entry<T>(message: String) -> (r: Result<T>)
    ensures
        r matches Err(e) && e@ == Fault::MalformedV2Entry(message@),
{
    Err(Error::MalformedV2Entry(message))
}

/// Read the name of an entry, and say how much of the name table is taken then.
pub(crate) fn parse_v2_name_at(
    data: &[u8],
    t: &V2Trailer,
    index: usize,
    raw_name_offset: u64,
    taken: usize,
) -> (r: Result<(String, usize)>)
    requires
        t.fits(),
        t.names_end() <= data@.len(),
        raw_name_offset == t.name_offset(data@, index as int),
        taken == t.names_taken(data@, index as int),
    ensures
        match r {
            Ok((name, next)) => {
                &&& name_fault(data@, *t, index as int) is None
                &&& name@ == decode_utf8(t.raw_name(data@, index as int))
                &&& next == t.names_taken(data@, index + 1)
            },
            Err(e) => name_fault(data@, *t, index as int) == Some(e@),
        },
{
    assert(data.len() == data@.len());
    if raw_name_offset > usize::MAX as u64 {
        return bad_entry(
            entry_text(index).concat(" name offset ").concat(dec(raw_name_offset).as_str()).concat(
                " overflows usize",
            ),
        );
    }
    if raw_name_offset >= t.names_size {
        return bad_entry(
            entry_text(index).concat(" name offset ").concat(dec(raw_name_offset).as_str()).concat(
                " >= name table size ",
            ).concat(dec(t.names_size).as_str()),
        );
    }
    let name_off: usize = raw_name_offset as usize;
    if name_off < taken {
        return bad_entry(
            entry_text(index).concat(" name offset ").concat(dec(raw_name_offset).as_str()).concat(
                " is before previous name end ",
            ).concat(dec(taken as u64).as_str()),
        );
    }
    let names_start: usize = t.names_offset as usize;
    let names_end: usize = names_start + t.names_size as usize;
    let start: usize = names_start + name_off;
    let tail = slice_subrange(data, start, names_end);
    let length: usize = match first_position(0, tail) {
        Some(i) => i,
        None => {
            proof {
                assert forall|i: int| start <= i < names_end implies data@[i] != 0 by {
                    assert(data@[i] == tail@[i - start]);
                }
                lemma_first_zero(data@, start as int, names_end as int, names_end as int);
            }
            return bad_entry(
                entry_text(index).concat(" name at offset ").concat(
                    dec(raw_name_offset).as_str(),
                ).concat(" is not null-terminated"),
            );
        },
    };
    proof {
        assert forall|i: int| start <= i < start + length implies data@[i] != 0 by {
            assert(data@[i] == tail@[i - start]);
        }
        assert(data@[start + length] == tail@[length as int]);
        lemma_first_zero(data@, start as int, names_end as int, start + length);
    }
    let raw = slice_subrange(data, start, start + length);
    let name: String = match strict(raw) {
        Ok(name) => name,
        Err(report) => return bad_entry(
            entry_text(index).concat(" name is not valid UTF-8: ").concat(report.as_str()),
        ),
    };
    if p4k_path_bytes_need_normalization(raw, false) {
        return bad_entry(
            entry_text(index).concat(" name ").concat(quoted(name.as_str()).as_str()).concat(
                " is not normalized",
            ),
        );
    }
    if length == 0 || raw[0] == path::SLASH {
        return bad_entry(
            entry_text(index).concat(" name ").concat(quoted(name.as_str()).as_str()).concat(
                " is not a relative archive path",
            ),
        );
    }
    Ok((name, name_off + length + 1))
}

/// Check the record of an entry, and make the entry that it describes.
pub(crate) fn parse_v2_entry_record(
    data: &[u8],
    t: &V2Trailer,
    index: usize,
    record: &CentralDirectoryHeaderV2,
    name: String,
) -> (r: Result<P4kEntryCompact>)
    requires
        t.fits(),
        t.sector_size > 0,
        t.end_of_payload + 8 * (index + 1) <= data@.len(),
        record.stands_at(data@, t.record_at(index as int)),
        name@ == decode_utf8(t.raw_name(data@, index as int)),
    ensures
        match r {
            Ok(entry) => {
                &&& record_fault(data@, *t, index as int) is None
                &&& entry@ == entry_at(data@, *t, index as int)
            },
            Err(e) => record_fault(data@, *t, index as int) == Some(e@),
        },
{
    assert(data.len() == data@.len());
    let method: CompressionMethod = match CompressionMethod::try_from(record.compression_method) {
        Ok(method) => method,
        Err(id) => return Err(Error::UnsupportedCompression(id)),
    };
    if record.encryption_flag > 1 {
        return bad_entry(
            entry_text(index).concat(" encryption flag ").concat(
                dec(record.encryption_flag as u64).as_str(),
            ).concat(", expected 0 or 1"),
        );
    }
    let data_offset: u64 = record.offset_to_file_data;
    let compressed_size: u64 = record.compressed_size;
    if data_offset % t.sector_size != 0 {
        return bad_entry(
            entry_text(index).concat(" data offset ").concat(dec(data_offset).as_str()).concat(
                " is not aligned to physical sector size ",
            ).concat(dec(t.sector_size).as_str()),
        );
    }
    if data_offset > usize::MAX as u64 {
        return bad_entry(
            entry_text(index).concat(" data offset ").concat(dec(data_offset).as_str()).concat(
                " overflows usize",
            ),
        );
    }
    if compressed_size > usize::MAX as u64 {
        return bad_entry(
            entry_text(index).concat(" compressed size ").concat(
                dec(compressed_size).as_str(),
            ).concat(" overflows usize"),
        );
    }
    let data_end: usize = match (data_offset as usize).checked_add(compressed_size as usize) {
        Some(v) => v,
        None => return bad_entry(entry_text(index).concat(" data range overflow")),
    };
    if data_end as u64 > t.end_of_payload {
        return bad_entry(
            entry_text(index).concat(" data range [").concat(dec(data_offset).as_str()).concat(
                ", ",
            ).concat(dec(data_end as u64).as_str()).concat(
                ") extends past end_of_payload ",
            ).concat(dec(t.end_of_payload).as_str()),
        );
    }
    let bytes_already_written: u64 = get_u64(data, t.end_of_payload as usize + 8 * index);
    if bytes_already_written > compressed_size {
        return bad_entry(
            entry_text(index).concat(" bytes_already_written ").concat(
                dec(bytes_already_written).as_str(),
            ).concat(" > compressed_size ").concat(dec(compressed_size).as_str()),
        );
    }
    Ok(
        P4kEntryCompact {
            name,
            compressed_size,
            uncompressed_size: record.uncompressed_size,
            compression_method: method,
            is_encrypted: record.is_encrypted(),
            local_header_offset: data_offset,
            crc32: record.crc32,
            last_mod_file_time: record.last_mod_file_time,
            last_mod_file_date: record.last_mod_file_date,
            signature: record.signature,
            sha256: record.sha256,
            bytes_already_written,
        },
    )
}

/// Read every entry of a v2 archive.
pub fn parse_v2_entries(data: &[u8], end: usize, t: &V2Trailer) -> (r: Result<Vec<P4kEntryCompact>>)
    requires
        t.in_bounds(data@.len() as int, end as int),
    ensures
        match r {
            Ok(entries) => entries_outcome(data@, *t, t.count as nat) == Ok::<
                Seq<EntryModel>,
                Fault,
            >(model::entry_models(entries@)),
            Err(e) => entries_outcome(data@, *t, t.count as nat) == Err::<Seq<EntryModel>, Fault>(
                e@,
            ),
        },
{
    assert(data.len() == data@.len());
    let count: usize = t.count as usize;
    let mut entries: Vec<P4kEntryCompact> = Vec::new();
    let mut taken: usize = 0;
    let mut index: usize = 0;
    assert(model::entry_models(entries@) =~= Seq::<EntryModel>::empty());
    while index < count
        invariant
            index <= count,
            count == t.count,
            t.in_bounds(data@.len() as int, end as int),
            data@.len() <= usize::MAX,
            taken == t.names_taken(data@, index as int),
            entries_outcome(data@, *t, index as nat) == Ok::<Seq<EntryModel>, Fault>(
                model::entry_models(entries@),
            ),
        decreases count - index,
    {
        let at: usize = t.cdr_offset as usize + index * CDR_V2_ENTRY_SIZE;
        let record = CentralDirectoryHeaderV2::read(data, at);
        proof {
            assert(at == t.record_at(index as int));
            if entries_outcome(data@, *t, (index + 1) as nat) is Err {
                lemma_entries_fault_stays(data@, *t, (index + 1) as nat, count as nat);
            }
        }
        let (name, next) = parse_v2_name_at(data, t, index, record.offset_to_filename, taken)?;
        let entry = parse_v2_entry_record(data, t, index, &record, name)?;
        let ghost before = entries@;
        entries.push(entry);
        proof {
            assert(model::entry_models(entries@) =~= model::entry_models(before).push(entry@));
        }
        taken = next;
        index += 1;
    }
    Ok(entries)
}

/// The positions of the entries that have a payload, among the first `count`.
pub open spec fn loaded(entries: Seq<EntryModel>, count: nat) -> Seq<usize>
    decreases count,
{
    if count == 0 {
        Seq::empty()
    } else if entries[count - 1].compressed_size != 0 {
        loaded(entries, (count - 1) as nat).push((count - 1) as usize)
    } else {
        loaded(entries, (count - 1) as nat)
    }
}

/// Where the payloads of the given entries start.
pub open spec fn payload_starts(entries: Seq<EntryModel>, positions: Seq<usize>) -> Seq<u64> {
    Seq::new(positions.len(), |i: int| entries[positions[i] as int].local_header_offset)
}

/// The entries that have a payload, by where it starts.
pub open spec fn by_payload_start(entries: Seq<EntryModel>) -> Seq<usize> {
    let positions = loaded(entries, entries.len());
    let sorted = order::order_of(payload_starts(entries, positions));
    Seq::new(positions.len(), |i: int| positions[sorted[i] as int])
}

/// Where a payload ends.
pub open spec fn payload_stop(entry: EntryModel) -> int {
    entry.local_header_offset + entry.compressed_size
}

/// The first payload from `k` on that starts before the one before it ends.
pub open spec fn overlap_from(entries: Seq<EntryModel>, sorted: Seq<usize>, k: int) -> Option<Fault>
    decreases sorted.len() - k,
{
    if k >= sorted.len() {
        None
    } else {
        let previous = entries[sorted[k - 1] as int];
        let current = entries[sorted[k] as int];
        if current.local_header_offset < payload_stop(previous) {
            Some(
                Fault::MalformedV2Entry(
                    "entry "@ + text::dec_text(sorted[k] as nat) + " data range ["@
                        + text::dec_text(current.local_header_offset as nat) + ", "@
                        + text::dec_text(payload_stop(current) as nat) + ") overlaps entry "@
                        + text::dec_text(sorted[k - 1] as nat) + " ending at "@ + text::dec_text(
                        payload_stop(previous) as nat,
                    ),
                ),
            )
        } else {
            overlap_from(entries, sorted, k + 1)
        }
    }
}

/// What is wrong where two payloads share bytes.
pub open spec fn overlap_fault(entries: Seq<EntryModel>) -> Option<Fault> {
    overlap_from(entries, by_payload_start(entries), 1)
}

proof fn lemma_loaded_bounds(entries: Seq<EntryModel>, count: nat)
    requires
        count <= entries.len(),
        count <= usize::MAX,
    ensures
        forall|i: int|
            0 <= i < loaded(entries, count).len() ==> {
                &&& (#[trigger] loaded(entries, count)[i]) < count
                &&& entries[loaded(entries, count)[i] as int].compressed_size != 0
            },
    decreases count,
{
    if count > 0 {
        lemma_loaded_bounds(entries, (count - 1) as nat);
    }
}

/// Whether two payloads share no byte.
pub open spec fn are_apart(a: EntryModel, b: EntryModel) -> bool {
    payload_stop(a) <= b.local_header_offset || payload_stop(b) <= a.local_header_offset
}

/// Whether no two of the entries that have a payload share bytes.
pub open spec fn all_apart(entries: Seq<EntryModel>) -> bool {
    forall|i: int, j: int|
        0 <= i < entries.len() && 0 <= j < entries.len() && i != j
            && entries[i].compressed_size != 0 && entries[j].compressed_size != 0
            ==> #[trigger] are_apart(entries[i], entries[j])
}

proof fn lemma_loaded(entries: Seq<EntryModel>, count: nat)
    requires
        count <= entries.len(),
        count <= usize::MAX,
    ensures
        loaded(entries, count).len() <= count,
        forall|a: int, b: int|
            0 <= a < b < loaded(entries, count).len() ==> #[trigger] loaded(entries, count)[a]
                < #[trigger] loaded(entries, count)[b],
        forall|i: int|
            0 <= i < count && (#[trigger] entries[i]).compressed_size != 0 ==> loaded(
                entries,
                count,
            ).contains(i as usize),
    decreases count,
{
    if count > 0 {
        let before = loaded(entries, (count - 1) as nat);
        lemma_loaded(entries, (count - 1) as nat);
        lemma_loaded_bounds(entries, (count - 1) as nat);
        let all = loaded(entries, count);
        assert forall|i: int|
            0 <= i < count && (#[trigger] entries[i]).compressed_size != 0 implies all.contains(
            i as usize,
        ) by {
            if i == count - 1 {
                assert(all[before.len() as int] == i as usize);
            } else {
                assert(before.contains(i as usize));
                let a = choose|a: int| 0 <= a < before.len() && before[a] == i as usize;
                assert(all[a] == i as usize);
            }
        }
    }
}

proof fn lemma_overlap_from(entries: Seq<EntryModel>, sorted: Seq<usize>, k: int)
    requires
        1 <= k,
    ensures
        overlap_from(entries, sorted, k) is None <==> forall|a: int|
            k <= a < sorted.len() ==> payload_stop(entries[sorted[a - 1] as int])
                <= entries[#[trigger] sorted[a] as int].local_header_offset,
    decreases sorted.len() - k,
{
    if k < sorted.len() {
        lemma_overlap_from(entries, sorted, k + 1);
        assert(sorted[k] == sorted[k]);
    }
}

proof fn lemma_apart_in_order(entries: Seq<EntryModel>, sorted: Seq<usize>, a: int, b: int)
    requires
        0 <= a < b < sorted.len(),
        forall|c: int|
            1 <= c < sorted.len() ==> payload_stop(entries[sorted[c - 1] as int])
                <= entries[#[trigger] sorted[c] as int].local_header_offset,
    ensures
        payload_stop(entries[sorted[a] as int]) <= entries[sorted[b] as int].local_header_offset,
    decreases b - a,
{
    assert(payload_stop(entries[sorted[b - 1] as int])
        <= entries[sorted[b] as int].local_header_offset);
    if a < b - 1 {
        lemma_apart_in_order(entries, sorted, a, b - 1);
    }
}

/// The overlap check passes if and only if no two payloads share bytes.
pub proof fn law_overlap(entries: Seq<EntryModel>)
    requires
        entries.len() <= usize::MAX,
    ensures
        overlap_fault(entries) is None <==> all_apart(entries),
{
    let n = entries.len();
    let positions = loaded(entries, n);
    let starts = payload_starts(entries, positions);
    let order = order::order_of(starts);
    let sorted = by_payload_start(entries);
    lemma_loaded(entries, n);
    lemma_loaded_bounds(entries, n);
    order::law_order_exists(starts);
    lemma_overlap_from(entries, sorted, 1);
    if overlap_fault(entries) is None {
        assert forall|i: int, j: int|
            0 <= i < n && 0 <= j < n && i != j && entries[i].compressed_size != 0
                && entries[j].compressed_size != 0 implies #[trigger] are_apart(
            entries[i],
            entries[j],
        ) by {
            assert(positions.contains(i as usize));
            assert(positions.contains(j as usize));
            let a = choose|a: int| 0 <= a < positions.len() && positions[a] == i as usize;
            let b = choose|b: int| 0 <= b < positions.len() && positions[b] == j as usize;
            assert(order.contains(a as usize));
            assert(order.contains(b as usize));
            let x = choose|x: int| 0 <= x < order.len() && order[x] == a as usize;
            let y = choose|y: int| 0 <= y < order.len() && order[y] == b as usize;
            assert(sorted[x] == i as usize && sorted[y] == j as usize);
            if x < y {
                lemma_apart_in_order(entries, sorted, x, y);
            } else {
                lemma_apart_in_order(entries, sorted, y, x);
            }
        }
    }
    if all_apart(entries) {
        assert forall|k: int| 1 <= k < sorted.len() implies payload_stop(
            entries[sorted[k - 1] as int],
        ) <= entries[#[trigger] sorted[k] as int].local_header_offset by {
            let a = order[k - 1];
            let b = order[k];
            assert(a < positions.len() && b < positions.len());
            assert(order::precedes(starts, order[k - 1] as int, order[k] as int));
            let i = positions[a as int] as int;
            let j = positions[b as int] as int;
            assert(starts[a as int] == entries[i].local_header_offset);
            assert(starts[b as int] == entries[j].local_header_offset);
            assert(a != b);
            assert(positions[a as int] < n && positions[b as int] < n);
            if a < b {
                assert(positions[a as int] < positions[b as int]);
            } else {
                assert(positions[b as int] < positions[a as int]);
            }
            assert(are_apart(entries[i], entries[j]));
        }
    }
}

/// Check that no two payloads share bytes.
fn check_overlap(entries: &Vec<P4kEntryCompact>) -> (r: Result<()>)
    requires
        forall|i: int|
            0 <= i < entries@.len() ==> payload_stop(#[trigger] entries@[i]@) <= u64::MAX,
    ensures
        match r {
            Ok(_) => overlap_fault(model::entry_models(entries@)) is None,
            Err(e) => overlap_fault(model::entry_models(entries@)) == Some(e@),
        },
{
    let ghost models = model::entry_models(entries@);
    let mut positions: Vec<usize> = Vec::new();
    let mut starts: Vec<u64> = Vec::new();
    let mut i: usize = 0;
    assert(starts@ =~= payload_starts(models, positions@));
    while i < entries.len()
        invariant
            i <= entries@.len(),
            models == model::entry_models(entries@),
            positions@ == loaded(models, i as nat),
            starts@ == payload_starts(models, positions@),
        decreases entries@.len() - i,
    {
        assert(models[i as int] == entries@[i as int]@);
        if entries[i].compressed_size != 0 {
            positions.push(i);
            starts.push(entries[i].local_header_offset);
            assert(starts@ =~= payload_starts(models, positions@));
        }
        i += 1;
    }
    proof {
        lemma_loaded_bounds(models, models.len());
    }
    let sorted: Vec<usize> = sort_positions(starts.as_slice());
    let ghost by_start = by_payload_start(models);
    let mut k: usize = 1;
    while k < sorted.len()
        invariant
            1 <= k,
            models == model::entry_models(entries@),
            positions@ == loaded(models, models.len()),
            sorted@ == order::order_of(payload_starts(models, positions@)),
            order::is_order(payload_starts(models, positions@), sorted@),
            by_start == by_payload_start(models),
            overlap_from(models, by_start, 1) == overlap_from(models, by_start, k as int),
            forall|i: int|
                0 <= i < positions@.len() ==> (#[trigger] positions@[i]) < entries@.len(),
            forall|i: int|
                0 <= i < entries@.len() ==> payload_stop(#[trigger] entries@[i]@) <= u64::MAX,
        decreases sorted@.len() - k,
    {
        assert(sorted@[k - 1] < positions@.len() && sorted@[k as int] < positions@.len());
        let previous: usize = positions[sorted[k - 1]];
        let current: usize = positions[sorted[k]];
        assert(by_start[k - 1] == previous && by_start[k as int] == current);
        assert(payload_stop(entries@[previous as int]@) <= u64::MAX);
        assert(payload_stop(entries@[current as int]@) <= u64::MAX);
        let previous_end: u64 = entries[previous].local_header_offset
            + entries[previous].compressed_size;
        let current_start: u64 = entries[current].local_header_offset;
        if current_start < previous_end {
            let current_end: u64 = current_start + entries[current].compressed_size;
            return bad_entry(
                entry_text(current).concat(" data range [").concat(
                    dec(current_start).as_str(),
                ).concat(", ").concat(dec(current_end).as_str()).concat(
                    ") overlaps entry ",
                ).concat(dec(previous as u64).as_str()).concat(" ending at ").concat(
                    dec(previous_end).as_str(),
                ),
            );
        }
        k += 1;
    }
    Ok(())
}

/// The layout of a v2 archive with a good trailer.
pub open spec fn v2_layout(data: Seq<u8>, end: int, t: V2Trailer) -> LayoutModel {
    LayoutModel {
        file_size: data.len() as u64,
        actual_content_end: end as u64,
        physical_sector_size: Some(t.sector_size),
        cdr_offset: t.cdr_offset,
        cdr_size: t.cdr_size,
        name_table_offset: Some(t.names_offset),
        name_table_size: t.names_size,
        end_of_payload: Some(t.end_of_payload),
        install_block_offset: Some(t.end_of_payload),
        install_block_size: Some((t.cdr_offset - t.end_of_payload) as u64),
        eocd_offset: (end - EOCD_V2_SIZE) as u64,
        manifest_sha256: Some(
            data.subrange(end - EOCD_V2_SIZE + 0x69, end - EOCD_V2_SIZE + 0xA9),
        ),
    }
}

/// The directory of a v2 archive whose content ends at `end`, or what is wrong with it.
pub open spec fn v2_outcome(data: Seq<u8>, end: int) -> std::result::Result<DirectoryModel, Fault> {
    match trailer_outcome(data, end) {
        Err(fault) => Err(fault),
        Ok(t) => match freelist::blocks_outcome(data, t.install_end(), t.freelist_count as nat) {
            Err(message) => Err(Fault::MalformedV2Eocdr(message)),
            Ok(blocks) => if !bytes::zero_between(data, t.freelist_end(), t.cdr_offset as int) {
                Err(Fault::MalformedV2Eocdr("non-zero install padding before CDR"@))
            } else {
                match entries_outcome(data, t, t.count as nat) {
                    Err(fault) => Err(fault),
                    Ok(entries) => match overlap_fault(entries) {
                        Some(fault) => Err(fault),
                        None => Ok(
                            DirectoryModel {
                                entries,
                                freelist_blocks: blocks,
                                layout: v2_layout(data, end, t),
                            },
                        ),
                    },
                }
            },
        },
    }
}

/// Every entry of an accepted list has a good record.
pub proof fn lemma_entries_good(data: Seq<u8>, t: V2Trailer, count: nat, index: int)
    requires
        entries_outcome(data, t, count) is Ok,
        0 <= index < count,
    ensures
        entries_outcome(data, t, count)->Ok_0.len() == count,
        entry_outcome(data, t, index) == Ok::<EntryModel, Fault>(
            entries_outcome(data, t, count)->Ok_0[index],
        ),
    decreases count,
{
    let n = (count - 1) as nat;
    if index < n {
        lemma_entries_good(data, t, n, index);
    } else if n > 0 {
        lemma_entries_good(data, t, n, 0);
    }
}

/// Parse the central directory and name table of a v2 archive.
pub fn parse_entries_v2(data: &[u8], end: usize, record: &Eocd2Record) -> (r: Result<Directory>)
    requires
        EOCD_V2_SIZE <= end <= data@.len(),
        record.stands_at(data@, end - EOCD_V2_SIZE),
    ensures
        match r {
            Ok(directory) => v2_outcome(data@, end as int) == Ok::<DirectoryModel, Fault>(
                directory@,
            ),
            Err(e) => v2_outcome(data@, end as int) == Err::<DirectoryModel, Fault>(e@),
        },
{
    assert(data.len() == data@.len());
    let t = read_trailer(data, end, record)?;
    let install_end: usize = t.end_of_payload as usize + 8 * t.count as usize;
    let freelist_count: usize = t.freelist_count as usize;
    let freelist_blocks: Vec<P4kFreelistBlock> = match read_freelist_blocks(
        data,
        install_end,
        freelist_count,
    ) {
        Ok(blocks) => blocks,
        Err(message) => return malformed(message),
    };
    if !all_zero(data, install_end + 16 * freelist_count, t.cdr_offset as usize) {
        return malformed(String::from_str("non-zero install padding before CDR"));
    }
    let entries: Vec<P4kEntryCompact> = parse_v2_entries(data, end, &t)?;
    proof {
        assert forall|i: int| 0 <= i < entries@.len() implies payload_stop(
            #[trigger] entries@[i]@,
        ) <= u64::MAX by {
            let models = model::entry_models(entries@);
            if t.count > 0 {
                lemma_entries_good(data@, t, t.count as nat, 0);
                lemma_entries_good(data@, t, t.count as nat, i);
            }
            assert(models[i] == entries@[i]@);
        }
    }
    check_overlap(&entries)?;
    let layout = P4kArchiveLayout {
        file_size: data.len() as u64,
        actual_content_end: end as u64,
        physical_sector_size: Some(t.sector_size),
        cdr_offset: t.cdr_offset,
        cdr_size: t.cdr_size,
        name_table_offset: Some(t.names_offset),
        name_table_size: t.names_size,
        end_of_payload: Some(t.end_of_payload),
        install_block_offset: Some(t.end_of_payload),
        install_block_size: Some(t.cdr_offset - t.end_of_payload),
        eocd_offset: (end - EOCD_V2_SIZE) as u64,
        manifest_sha256: Some(record.manifest_sha256),
    };
    Ok(Directory { entries, freelist_blocks, layout })
}

/// Whether the content of an archive ends in the v2 magic.
pub open spec fn ends_in_v2_magic(data: Seq<u8>, end: int) -> bool {
    end >= EOCD_V2_SIZE && bytes::le32(data, end - 4) == EOCD_V2_MAGIC
}

/// What a file that ends in the v2 magic holds.
pub open spec fn v2_file_outcome(data: Seq<u8>, end: int) -> std::result::Result<
    DirectoryModel,
    Fault,
> {
    if bytes::le16(data, end - 6) != EOCD_V2_VERSION {
        Err(Fault::UnsupportedVersion(bytes::le16(data, end - 6)))
    } else {
        v2_outcome(data, end)
    }
}

/// Try to parse the archive as a v2 ("JiJi") P4K.
///
/// Gives nothing where the trailer magic does not match.
pub fn try_parse_v2(data: &[u8], end: usize) -> (r: Result<Option<Directory>>)
    requires
        end <= data@.len(),
    ensures
        match r {
            Ok(None) => !ends_in_v2_magic(data@, end as int),
            Ok(Some(directory)) => {
                &&& ends_in_v2_magic(data@, end as int)
                &&& v2_file_outcome(data@, end as int) == Ok::<DirectoryModel, Fault>(directory@)
            },
            Err(e) => {
                &&& ends_in_v2_magic(data@, end as int)
                &&& v2_file_outcome(data@, end as int) == Err::<DirectoryModel, Fault>(e@)
            },
        },
{
    if end < EOCD_V2_SIZE {
        return Ok(None);
    }
    if get_u32(data, end - 4) != EOCD_V2_MAGIC {
        return Ok(None);
    }
    let version: u16 = get_u16(data, end - 6);
    if version != EOCD_V2_VERSION {
        return Err(Error::UnsupportedVersion(version));
    }
    let record = Eocd2Record::read(data, end - EOCD_V2_SIZE);
    let directory = parse_entries_v2(data, end, &record)?;
    Ok(Some(directory))
}

} // verus!
