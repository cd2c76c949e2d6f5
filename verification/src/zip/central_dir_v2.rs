//! Central Directory entry for the P4K v2 ("JiJi") format.
//!
//! A v2 archive holds one fixed-size record per entry; names live in a
//! separate name table. No local file header precedes a payload.

use vstd::prelude::*;

use crate::bytes;
use crate::bytes::{get_array, get_u16, get_u32, get_u64, put_bytes, put_u16, put_u32, put_u64};

verus! {

/// Fixed on-disk size of a single v2 CDR entry, in bytes.
pub const CDR_V2_ENTRY_SIZE: usize = 0xCC;

/// Byte offset of `offset_to_filename` within a v2 CDR entry.
pub const CDR_V2_OFFSET_TO_FILENAME_OFFSET: usize = 0x22;

/// P4K v2 Central Directory Record entry.
#[derive(Debug, Clone, Copy)]
pub struct CentralDirectoryHeaderV2 {
    /// Compression method.
    pub compression_method: u16,
    /// DOS modification time.
    pub last_mod_file_time: u16,
    /// DOS modification date.
    pub last_mod_file_date: u16,
    /// CRC32C of the uncompressed payload.
    pub crc32: u32,
    /// Compressed size in bytes.
    pub compressed_size: u64,
    /// Uncompressed size in bytes.
    pub uncompressed_size: u64,
    /// Absolute offset of the compressed payload bytes.
    pub offset_to_file_data: u64,
    /// Offset of the null-terminated name within the name table.
    pub offset_to_filename: u64,
    /// RSA-1024 signature, all zeroes if unsigned.
    pub signature: [u8; 128],
    /// Encryption flag, `1` for an encrypted payload.
    pub encryption_flag: u16,
    /// SHA-256 of the stored payload bytes.
    pub sha256: [u8; 32],
}

impl CentralDirectoryHeaderV2 {
    /// Number of bytes on disk.
    pub const SIZE: usize = 0xCC;

    /// Whether the bytes in `s` at `at` are those of this record.
    pub open spec fn stands_at(self, s: Seq<u8>, at: int) -> bool {
        &&& self.compression_method == bytes::le16(s, at)
        &&& self.last_mod_file_time == bytes::le16(s, at + 0x2)
        &&& self.last_mod_file_date == bytes::le16(s, at + 0x4)
        &&& self.crc32 == bytes::le32(s, at + 0x6)
        &&& self.compressed_size == bytes::le64(s, at + 0xA)
        &&& self.uncompressed_size == bytes::le64(s, at + 0x12)
        &&& self.offset_to_file_data == bytes::le64(s, at + 0x1A)
        &&& self.offset_to_filename == bytes::le64(s, at + 0x22)
        &&& self.signature@ == s.subrange(at + 0x2A, at + 0xAA)
        &&& self.encryption_flag == bytes::le16(s, at + 0xAA)
        &&& self.sha256@ == s.subrange(at + 0xAC, at + 0xCC)
    }

    /// The bytes of this record.
    #[verifier::opaque]
    pub open spec fn bytes(self) -> Seq<u8> {
        bytes::u16_bytes(self.compression_method)
            + bytes::u16_bytes(self.last_mod_file_time)
            + bytes::u16_bytes(self.last_mod_file_date)
            + bytes::u32_bytes(self.crc32)
            + bytes::u64_bytes(self.compressed_size)
            + bytes::u64_bytes(self.uncompressed_size)
            + bytes::u64_bytes(self.offset_to_file_data)
            + bytes::u64_bytes(self.offset_to_filename)
            + self.signature@
            + bytes::u16_bytes(self.encryption_flag)
            + self.sha256@
    }

    /// How many bytes a record takes.
    pub proof fn lemma_length(self)
        ensures
            self.bytes().len() == 0xcc,
    {
        reveal(CentralDirectoryHeaderV2::bytes);
        let p0 = bytes::u16_bytes(self.compression_method);
        assert(p0.len() == 0x2) by {
            bytes::lemma_number_lengths(self.compression_method, 0, 0);
        }
        let p1 = p0 + bytes::u16_bytes(self.last_mod_file_time);
        assert(p1.len() == 0x4) by {
            bytes::lemma_number_lengths(self.last_mod_file_time, 0, 0);
        }
        let p2 = p1 + bytes::u16_bytes(self.last_mod_file_date);
        assert(p2.len() == 0x6) by {
            bytes::lemma_number_lengths(self.last_mod_file_date, 0, 0);
        }
        let p3 = p2 + bytes::u32_bytes(self.crc32);
        assert(p3.len() == 0xa) by {
            bytes::lemma_number_lengths(0, self.crc32, 0);
        }
        let p4 = p3 + bytes::u64_bytes(self.compressed_size);
        assert(p4.len() == 0x12) by {
            bytes::lemma_number_lengths(0, 0, self.compressed_size);
        }
        let p5 = p4 + bytes::u64_bytes(self.uncompressed_size);
        assert(p5.len() == 0x1a) by {
            bytes::lemma_number_lengths(0, 0, self.uncompressed_size);
        }
        let p6 = p5 + bytes::u64_bytes(self.offset_to_file_data);
        assert(p6.len() == 0x22) by {
            bytes::lemma_number_lengths(0, 0, self.offset_to_file_data);
        }
        let p7 = p6 + bytes::u64_bytes(self.offset_to_filename);
        assert(p7.len() == 0x2a) by {
            bytes::lemma_number_lengths(0, 0, self.offset_to_filename);
        }
        let p8 = p7 + self.signature@;
        assert(p8.len() == 0xaa);
        let p9 = p8 + bytes::u16_bytes(self.encryption_flag);
        assert(p9.len() == 0xac) by {
            bytes::lemma_number_lengths(self.encryption_flag, 0, 0);
        }
        let p10 = p9 + self.sha256@;
        assert(p10.len() == 0xcc);
    }

    /// A written record reads back as itself.
    pub proof fn law_read_back(self, s: Seq<u8>, at: int)
        requires
            bytes::holds_at(s, at, self.bytes()),
        ensures
            self.stands_at(s, at),
    {
        reveal(CentralDirectoryHeaderV2::bytes);
        let p0 = bytes::u16_bytes(self.compression_method);
        let p1 = p0 + bytes::u16_bytes(self.last_mod_file_time);
        let p2 = p1 + bytes::u16_bytes(self.last_mod_file_date);
        let p3 = p2 + bytes::u32_bytes(self.crc32);
        let p4 = p3 + bytes::u64_bytes(self.compressed_size);
        let p5 = p4 + bytes::u64_bytes(self.uncompressed_size);
        let p6 = p5 + bytes::u64_bytes(self.offset_to_file_data);
        let p7 = p6 + bytes::u64_bytes(self.offset_to_filename);
        let p8 = p7 + self.signature@;
        let p9 = p8 + bytes::u16_bytes(self.encryption_flag);
        let p10 = p9 + self.sha256@;
        bytes::lemma_holds_split(s, at, p9, self.sha256@);
        bytes::lemma_holds_split(s, at, p8, bytes::u16_bytes(self.encryption_flag));
        bytes::lemma_holds_split(s, at, p7, self.signature@);
        bytes::lemma_holds_split(s, at, p6, bytes::u64_bytes(self.offset_to_filename));
        bytes::lemma_holds_split(s, at, p5, bytes::u64_bytes(self.offset_to_file_data));
        bytes::lemma_holds_split(s, at, p4, bytes::u64_bytes(self.uncompressed_size));
        bytes::lemma_holds_split(s, at, p3, bytes::u64_bytes(self.compressed_size));
        bytes::lemma_holds_split(s, at, p2, bytes::u32_bytes(self.crc32));
        bytes::lemma_holds_split(s, at, p1, bytes::u16_bytes(self.last_mod_file_date));
        bytes::lemma_holds_split(s, at, p0, bytes::u16_bytes(self.last_mod_file_time));
        bytes::lemma_le16_of_bytes(s, at, self.compression_method);
        bytes::lemma_le16_of_bytes(s, at + 0x2, self.last_mod_file_time);
        bytes::lemma_le16_of_bytes(s, at + 0x4, self.last_mod_file_date);
        bytes::lemma_le32_of_bytes(s, at + 0x6, self.crc32);
        bytes::lemma_le64_of_bytes(s, at + 0xA, self.compressed_size);
        bytes::lemma_le64_of_bytes(s, at + 0x12, self.uncompressed_size);
        bytes::lemma_le64_of_bytes(s, at + 0x1A, self.offset_to_file_data);
        bytes::lemma_le64_of_bytes(s, at + 0x22, self.offset_to_filename);
        bytes::lemma_le16_of_bytes(s, at + 0xAA, self.encryption_flag);
    }

    /// Read the record at `at`.
    pub fn read(data: &[u8], at: usize) -> (r: Self)
        requires
            at + Self::SIZE <= data@.len(),
        ensures
            r.stands_at(data@, at as int),
    {
        assert(data.len() == data@.len());
        CentralDirectoryHeaderV2 {
            compression_method: get_u16(data, at),
            last_mod_file_time: get_u16(data, at + 0x2),
            last_mod_file_date: get_u16(data, at + 0x4),
            crc32: get_u32(data, at + 0x6),
            compressed_size: get_u64(data, at + 0xA),
            uncompressed_size: get_u64(data, at + 0x12),
            offset_to_file_data: get_u64(data, at + 0x1A),
            offset_to_filename: get_u64(data, at + 0x22),
            signature: get_array::<128>(data, at + 0x2A),
            encryption_flag: get_u16(data, at + 0xAA),
            sha256: get_array::<32>(data, at + 0xAC),
        }
    }

    /// Append the bytes of this record.
    pub fn write(&self, out: &mut Vec<u8>)
        ensures
            final(out)@ == old(out)@ + self.bytes(),
    {
        proof {
            reveal(CentralDirectoryHeaderV2::bytes);
        }
        put_u16(out, self.compression_method);
        let ghost p0 = bytes::u16_bytes(self.compression_method);
        put_u16(out, self.last_mod_file_time);
        let ghost p1 = p0 + bytes::u16_bytes(self.last_mod_file_time);
        proof {
            bytes::lemma_joined(old(out)@, p0, bytes::u16_bytes(self.last_mod_file_time));
        }
        put_u16(out, self.last_mod_file_date);
        let ghost p2 = p1 + bytes::u16_bytes(self.last_mod_file_date);
        proof {
            bytes::lemma_joined(old(out)@, p1, bytes::u16_bytes(self.last_mod_file_date));
        }
        put_u32(out, self.crc32);
        let ghost p3 = p2 + bytes::u32_bytes(self.crc32);
        proof {
            bytes::lemma_joined(old(out)@, p2, bytes::u32_bytes(self.crc32));
        }
        put_u64(out, self.compressed_size);
        let ghost p4 = p3 + bytes::u64_bytes(self.compressed_size);
        proof {
            bytes::lemma_joined(old(out)@, p3, bytes::u64_bytes(self.compressed_size));
        }
        put_u64(out, self.uncompressed_size);
        let ghost p5 = p4 + bytes::u64_bytes(self.uncompressed_size);
        proof {
            bytes::lemma_joined(old(out)@, p4, bytes::u64_bytes(self.uncompressed_size));
        }
        put_u64(out, self.offset_to_file_data);
        let ghost p6 = p5 + bytes::u64_bytes(self.offset_to_file_data);
        proof {
            bytes::lemma_joined(old(out)@, p5, bytes::u64_bytes(self.offset_to_file_data));
        }
        put_u64(out, self.offset_to_filename);
        let ghost p7 = p6 + bytes::u64_bytes(self.offset_to_filename);
        proof {
            bytes::lemma_joined(old(out)@, p6, bytes::u64_bytes(self.offset_to_filename));
        }
        put_bytes(out, self.signature.as_slice());
        let ghost p8 = p7 + self.signature@;
        proof {
            bytes::lemma_joined(old(out)@, p7, self.signature@);
        }
        put_u16(out, self.encryption_flag);
        let ghost p9 = p8 + bytes::u16_bytes(self.encryption_flag);
        proof {
            bytes::lemma_joined(old(out)@, p8, bytes::u16_bytes(self.encryption_flag));
        }
        put_bytes(out, self.sha256.as_slice());
        let ghost p10 = p9 + self.sha256@;
        proof {
            bytes::lemma_joined(old(out)@, p9, self.sha256@);
        }
    }

    /// Whether the entry's payload is AES-encrypted.
    pub fn is_encrypted(&self) -> (r: bool)
        ensures
            r == (self.encryption_flag == 1),
    {
        self.encryption_flag == 1
    }
}

} // verus!
