//! End of Central Directory Record for the P4K v2 ("JiJi") format.
//!
//! One fixed-size record at the very end of the file. Its last six bytes
//! hold the version and the magic number.

use vstd::prelude::*;

use crate::bytes;
use crate::bytes::{get_array, get_u16, get_u32, get_u64, put_bytes, put_u16, put_u32, put_u64};

verus! {

/// Total fixed size of the v2 EOCDR record in bytes.
pub const EOCD_V2_SIZE: usize = 0xAF;

/// "JiJi" magic stored as a little-endian `u32`.
pub const EOCD_V2_MAGIC: u32 = 0x696A694A;

/// Version value embedded in the trailer of P4K v2 files.
pub const EOCD_V2_VERSION: u16 = 2;

/// End of Central Directory Record (P4K v2 / "JiJi" format).
///
/// The three `reserved_*` slots are always written as zero.
#[derive(Debug, Clone, Copy)]
pub struct Eocd2Record {
    /// Total number of CDR entries in the archive.
    pub num_file_entries: u64,
    /// Reserved.
    pub reserved_08: u64,
    /// Absolute byte offset of the first CDR entry.
    pub end_of_file_block_offset: u64,
    /// Total size of the CDR entry array in bytes.
    pub cdr_size: u64,
    /// Reserved.
    pub reserved_20: u64,
    /// Absolute offset of the name table.
    pub name_table_abs_offset: u64,
    /// Total byte length of all entry names, null terminators included.
    pub total_name_length: u64,
    /// Reserved.
    pub reserved_38: u64,
    /// Absolute byte offset just past the last byte of payload data.
    pub end_of_payload: u64,
    /// Number of freelist records in the install block.
    pub num_freelist_blocks: u64,
    /// Absolute offset of the trie cache behind the name table, or zero where
    /// there is none.
    pub trie_cache_offset: u64,
    /// Byte length of the trie cache.
    pub trie_cache_size: u64,
    /// Sector size used when the archive was written.
    pub physical_sector_size: u64,
    /// Flags: the lowest bit marks an archive that was not written to its end.
    pub status_flags: u8,
    /// Two SHA-256 digests; the first is the manifest hash.
    pub manifest_sha256: [u8; 64],
    /// Version field, equal to [`EOCD_V2_VERSION`].
    pub version: u16,
    /// Magic value, equal to [`EOCD_V2_MAGIC`].
    pub magic: u32,
}

impl Eocd2Record {
    /// Number of bytes on disk.
    pub const SIZE: usize = 0xAF;

    /// Whether the bytes in `s` at `at` are those of this record.
    pub open spec fn stands_at(self, s: Seq<u8>, at: int) -> bool {
        &&& self.num_file_entries == bytes::le64(s, at)
        &&& self.reserved_08 == bytes::le64(s, at + 0x8)
        &&& self.end_of_file_block_offset == bytes::le64(s, at + 0x10)
        &&& self.cdr_size == bytes::le64(s, at + 0x18)
        &&& self.reserved_20 == bytes::le64(s, at + 0x20)
        &&& self.name_table_abs_offset == bytes::le64(s, at + 0x28)
        &&& self.total_name_length == bytes::le64(s, at + 0x30)
        &&& self.reserved_38 == bytes::le64(s, at + 0x38)
        &&& self.end_of_payload == bytes::le64(s, at + 0x40)
        &&& self.num_freelist_blocks == bytes::le64(s, at + 0x48)
        &&& self.trie_cache_offset == bytes::le64(s, at + 0x50)
        &&& self.trie_cache_size == bytes::le64(s, at + 0x58)
        &&& self.physical_sector_size == bytes::le64(s, at + 0x60)
        &&& self.status_flags == s[at + 0x68]
        &&& self.manifest_sha256@ == s.subrange(at + 0x69, at + 0xA9)
        &&& self.version == bytes::le16(s, at + 0xA9)
        &&& self.magic == bytes::le32(s, at + 0xAB)
    }

    /// The bytes of this record.
    #[verifier::opaque]
    pub open spec fn bytes(self) -> Seq<u8> {
        bytes::u64_bytes(self.num_file_entries)
            + bytes::u64_bytes(self.reserved_08)
            + bytes::u64_bytes(self.end_of_file_block_offset)
            + bytes::u64_bytes(self.cdr_size)
            + bytes::u64_bytes(self.reserved_20)
            + bytes::u64_bytes(self.name_table_abs_offset)
            + bytes::u64_bytes(self.total_name_length)
            + bytes::u64_bytes(self.reserved_38)
            + bytes::u64_bytes(self.end_of_payload)
            + bytes::u64_bytes(self.num_freelist_blocks)
            + bytes::u64_bytes(self.trie_cache_offset)
            + bytes::u64_bytes(self.trie_cache_size)
            + bytes::u64_bytes(self.physical_sector_size)
            + seq![self.status_flags]
            + self.manifest_sha256@
            + bytes::u16_bytes(self.version)
            + bytes::u32_bytes(self.magic)
    }

    /// How many bytes a record takes.
    pub proof fn lemma_length(self)
        ensures
            self.bytes().len() == 0xaf,
    {
        reveal(Eocd2Record::bytes);
        let p0 = bytes::u64_bytes(self.num_file_entries);
        assert(p0.len() == 0x8) by {
            bytes::lemma_number_lengths(0, 0, self.num_file_entries);
        }
        let p1 = p0 + bytes::u64_bytes(self.reserved_08);
        assert(p1.len() == 0x10) by {
            bytes::lemma_number_lengths(0, 0, self.reserved_08);
        }
        let p2 = p1 + bytes::u64_bytes(self.end_of_file_block_offset);
        assert(p2.len() == 0x18) by {
            bytes::lemma_number_lengths(0, 0, self.end_of_file_block_offset);
        }
        let p3 = p2 + bytes::u64_bytes(self.cdr_size);
        assert(p3.len() == 0x20) by {
            bytes::lemma_number_lengths(0, 0, self.cdr_size);
        }
        let p4 = p3 + bytes::u64_bytes(self.reserved_20);
        assert(p4.len() == 0x28) by {
            bytes::lemma_number_lengths(0, 0, self.reserved_20);
        }
        let p5 = p4 + bytes::u64_bytes(self.name_table_abs_offset);
        assert(p5.len() == 0x30) by {
            bytes::lemma_number_lengths(0, 0, self.name_table_abs_offset);
        }
        let p6 = p5 + bytes::u64_bytes(self.total_name_length);
        assert(p6.len() == 0x38) by {
            bytes::lemma_number_lengths(0, 0, self.total_name_length);
        }
        let p7 = p6 + bytes::u64_bytes(self.reserved_38);
        assert(p7.len() == 0x40) by {
            bytes::lemma_number_lengths(0, 0, self.reserved_38);
        }
        let p8 = p7 + bytes::u64_bytes(self.end_of_payload);
        assert(p8.len() == 0x48) by {
            bytes::lemma_number_lengths(0, 0, self.end_of_payload);
        }
        let p9 = p8 + bytes::u64_bytes(self.num_freelist_blocks);
        assert(p9.len() == 0x50) by {
            bytes::lemma_number_lengths(0, 0, self.num_freelist_blocks);
        }
        let p10 = p9 + bytes::u64_bytes(self.trie_cache_offset);
        assert(p10.len() == 0x58) by {
            bytes::lemma_number_lengths(0, 0, self.trie_cache_offset);
        }
        let p11 = p10 + bytes::u64_bytes(self.trie_cache_size);
        assert(p11.len() == 0x60) by {
            bytes::lemma_number_lengths(0, 0, self.trie_cache_size);
        }
        let p12 = p11 + bytes::u64_bytes(self.physical_sector_size);
        assert(p12.len() == 0x68) by {
            bytes::lemma_number_lengths(0, 0, self.physical_sector_size);
        }
        let p13 = p12 + seq![self.status_flags];
        assert(p13.len() == 0x69);
        let p14 = p13 + self.manifest_sha256@;
        assert(p14.len() == 0xa9);
        let p15 = p14 + bytes::u16_bytes(self.version);
        assert(p15.len() == 0xab) by {
            bytes::lemma_number_lengths(self.version, 0, 0);
        }
        let p16 = p15 + bytes::u32_bytes(self.magic);
        assert(p16.len() == 0xaf) by {
            bytes::lemma_number_lengths(0, self.magic, 0);
        }
    }

    /// A written record reads back as itself.
    pub proof fn law_read_back(self, s: Seq<u8>, at: int)
        requires
            bytes::holds_at(s, at, self.bytes()),
        ensures
            self.stands_at(s, at),
    {
        reveal(Eocd2Record::bytes);
        let p0 = bytes::u64_bytes(self.num_file_entries);
        let p1 = p0 + bytes::u64_bytes(self.reserved_08);
        let p2 = p1 + bytes::u64_bytes(self.end_of_file_block_offset);
        let p3 = p2 + bytes::u64_bytes(self.cdr_size);
        let p4 = p3 + bytes::u64_bytes(self.reserved_20);
        let p5 = p4 + bytes::u64_bytes(self.name_table_abs_offset);
        let p6 = p5 + bytes::u64_bytes(self.total_name_length);
        let p7 = p6 + bytes::u64_bytes(self.reserved_38);
        let p8 = p7 + bytes::u64_bytes(self.end_of_payload);
        let p9 = p8 + bytes::u64_bytes(self.num_freelist_blocks);
        let p10 = p9 + bytes::u64_bytes(self.trie_cache_offset);
        let p11 = p10 + bytes::u64_bytes(self.trie_cache_size);
        let p12 = p11 + bytes::u64_bytes(self.physical_sector_size);
        let p13 = p12 + seq![self.status_flags];
        let p14 = p13 + self.manifest_sha256@;
        let p15 = p14 + bytes::u16_bytes(self.version);
        let p16 = p15 + bytes::u32_bytes(self.magic);
        bytes::lemma_holds_split(s, at, p15, bytes::u32_bytes(self.magic));
        bytes::lemma_holds_split(s, at, p14, bytes::u16_bytes(self.version));
        bytes::lemma_holds_split(s, at, p13, self.manifest_sha256@);
        bytes::lemma_holds_split(s, at, p12, seq![self.status_flags]);
        bytes::lemma_holds_split(s, at, p11, bytes::u64_bytes(self.physical_sector_size));
        bytes::lemma_holds_split(s, at, p10, bytes::u64_bytes(self.trie_cache_size));
        bytes::lemma_holds_split(s, at, p9, bytes::u64_bytes(self.trie_cache_offset));
        bytes::lemma_holds_split(s, at, p8, bytes::u64_bytes(self.num_freelist_blocks));
        bytes::lemma_holds_split(s, at, p7, bytes::u64_bytes(self.end_of_payload));
        bytes::lemma_holds_split(s, at, p6, bytes::u64_bytes(self.reserved_38));
        bytes::lemma_holds_split(s, at, p5, bytes::u64_bytes(self.total_name_length));
        bytes::lemma_holds_split(s, at, p4, bytes::u64_bytes(self.name_table_abs_offset));
        bytes::lemma_holds_split(s, at, p3, bytes::u64_bytes(self.reserved_20));
        bytes::lemma_holds_split(s, at, p2, bytes::u64_bytes(self.cdr_size));
        bytes::lemma_holds_split(s, at, p1, bytes::u64_bytes(self.end_of_file_block_offset));
        bytes::lemma_holds_split(s, at, p0, bytes::u64_bytes(self.reserved_08));
        bytes::lemma_le64_of_bytes(s, at, self.num_file_entries);
        bytes::lemma_le64_of_bytes(s, at + 0x8, self.reserved_08);
        bytes::lemma_le64_of_bytes(s, at + 0x10, self.end_of_file_block_offset);
        bytes::lemma_le64_of_bytes(s, at + 0x18, self.cdr_size);
        bytes::lemma_le64_of_bytes(s, at + 0x20, self.reserved_20);
        bytes::lemma_le64_of_bytes(s, at + 0x28, self.name_table_abs_offset);
        bytes::lemma_le64_of_bytes(s, at + 0x30, self.total_name_length);
        bytes::lemma_le64_of_bytes(s, at + 0x38, self.reserved_38);
        bytes::lemma_le64_of_bytes(s, at + 0x40, self.end_of_payload);
        bytes::lemma_le64_of_bytes(s, at + 0x48, self.num_freelist_blocks);
        bytes::lemma_le64_of_bytes(s, at + 0x50, self.trie_cache_offset);
        bytes::lemma_le64_of_bytes(s, at + 0x58, self.trie_cache_size);
        bytes::lemma_le64_of_bytes(s, at + 0x60, self.physical_sector_size);
        assert(s.subrange(at + 0x68, at + 0x68 + 1)[0] == s[at + 0x68]);
        bytes::lemma_le16_of_bytes(s, at + 0xA9, self.version);
        bytes::lemma_le32_of_bytes(s, at + 0xAB, self.magic);
    }

    /// Read the record at `at`.
    pub fn read(data: &[u8], at: usize) -> (r: Self)
        requires
            at + Self::SIZE <= data@.len(),
        ensures
            r.stands_at(data@, at as int),
    {
        assert(data.len() == data@.len());
        Eocd2Record {
            num_file_entries: get_u64(data, at),
            reserved_08: get_u64(data, at + 0x8),
            end_of_file_block_offset: get_u64(data, at + 0x10),
            cdr_size: get_u64(data, at + 0x18),
            reserved_20: get_u64(data, at + 0x20),
            name_table_abs_offset: get_u64(data, at + 0x28),
            total_name_length: get_u64(data, at + 0x30),
            reserved_38: get_u64(data, at + 0x38),
            end_of_payload: get_u64(data, at + 0x40),
            num_freelist_blocks: get_u64(data, at + 0x48),
            trie_cache_offset: get_u64(data, at + 0x50),
            trie_cache_size: get_u64(data, at + 0x58),
            physical_sector_size: get_u64(data, at + 0x60),
            status_flags: data[at + 0x68],
            manifest_sha256: get_array::<64>(data, at + 0x69),
            version: get_u16(data, at + 0xA9),
            magic: get_u32(data, at + 0xAB),
        }
    }

    /// Append the bytes of this record.
    pub fn write(&self, out: &mut Vec<u8>)
        ensures
            final(out)@ == old(out)@ + self.bytes(),
    {
        proof {
            reveal(Eocd2Record::bytes);
        }
        put_u64(out, self.num_file_entries);
        let ghost p0 = bytes::u64_bytes(self.num_file_entries);
        put_u64(out, self.reserved_08);
        let ghost p1 = p0 + bytes::u64_bytes(self.reserved_08);
        proof {
            bytes::lemma_joined(old(out)@, p0, bytes::u64_bytes(self.reserved_08));
        }
        put_u64(out, self.end_of_file_block_offset);
        let ghost p2 = p1 + bytes::u64_bytes(self.end_of_file_block_offset);
        proof {
            bytes::lemma_joined(old(out)@, p1, bytes::u64_bytes(self.end_of_file_block_offset));
        }
        put_u64(out, self.cdr_size);
        let ghost p3 = p2 + bytes::u64_bytes(self.cdr_size);
        proof {
            bytes::lemma_joined(old(out)@, p2, bytes::u64_bytes(self.cdr_size));
        }
        put_u64(out, self.reserved_20);
        let ghost p4 = p3 + bytes::u64_bytes(self.reserved_20);
        proof {
            bytes::lemma_joined(old(out)@, p3, bytes::u64_bytes(self.reserved_20));
        }
        put_u64(out, self.name_table_abs_offset);
        let ghost p5 = p4 + bytes::u64_bytes(self.name_table_abs_offset);
        proof {
            bytes::lemma_joined(old(out)@, p4, bytes::u64_bytes(self.name_table_abs_offset));
        }
        put_u64(out, self.total_name_length);
        let ghost p6 = p5 + bytes::u64_bytes(self.total_name_length);
        proof {
            bytes::lemma_joined(old(out)@, p5, bytes::u64_bytes(self.total_name_length));
        }
        put_u64(out, self.reserved_38);
        let ghost p7 = p6 + bytes::u64_bytes(self.reserved_38);
        proof {
            bytes::lemma_joined(old(out)@, p6, bytes::u64_bytes(self.reserved_38));
        }
        put_u64(out, self.end_of_payload);
        let ghost p8 = p7 + bytes::u64_bytes(self.end_of_payload);
        proof {
            bytes::lemma_joined(old(out)@, p7, bytes::u64_bytes(self.end_of_payload));
        }
        put_u64(out, self.num_freelist_blocks);
        let ghost p9 = p8 + bytes::u64_bytes(self.num_freelist_blocks);
        proof {
            bytes::lemma_joined(old(out)@, p8, bytes::u64_bytes(self.num_freelist_blocks));
        }
        put_u64(out, self.trie_cache_offset);
        let ghost p10 = p9 + bytes::u64_bytes(self.trie_cache_offset);
        proof {
            bytes::lemma_joined(old(out)@, p9, bytes::u64_bytes(self.trie_cache_offset));
        }
        put_u64(out, self.trie_cache_size);
        let ghost p11 = p10 + bytes::u64_bytes(self.trie_cache_size);
        proof {
            bytes::lemma_joined(old(out)@, p10, bytes::u64_bytes(self.trie_cache_size));
        }
        put_u64(out, self.physical_sector_size);
        let ghost p12 = p11 + bytes::u64_bytes(self.physical_sector_size);
        proof {
            bytes::lemma_joined(old(out)@, p11, bytes::u64_bytes(self.physical_sector_size));
        }
        let ghost before = out@;
        out.push(self.status_flags);
        assert(out@ =~= before + seq![self.status_flags]);
        let ghost p13 = p12 + seq![self.status_flags];
        proof {
            bytes::lemma_joined(old(out)@, p12, seq![self.status_flags]);
        }
        put_bytes(out, self.manifest_sha256.as_slice());
        let ghost p14 = p13 + self.manifest_sha256@;
        proof {
            bytes::lemma_joined(old(out)@, p13, self.manifest_sha256@);
        }
        put_u16(out, self.version);
        let ghost p15 = p14 + bytes::u16_bytes(self.version);
        proof {
            bytes::lemma_joined(old(out)@, p14, bytes::u16_bytes(self.version));
        }
        put_u32(out, self.magic);
        let ghost p16 = p15 + bytes::u32_bytes(self.magic);
        proof {
            bytes::lemma_joined(old(out)@, p15, bytes::u32_bytes(self.magic));
        }
    }

    /// Confirm the magic and version match a v2 P4K file.
    pub fn is_valid(&self) -> (r: bool)
        ensures
            r == (self.magic == EOCD_V2_MAGIC && self.version == EOCD_V2_VERSION),
    {
        self.magic == EOCD_V2_MAGIC && self.version == EOCD_V2_VERSION
    }
}

} // verus!
