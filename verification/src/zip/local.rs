//! Local File Header structures.

use vstd::prelude::*;

use crate::bytes;
use crate::bytes::{get_u16, get_u32, put_u16, put_u32};

verus! {

/// Local File Header, without its signature.
///
/// This structure precedes the actual file data in the archive.
#[derive(Debug, Clone, Copy)]
pub struct LocalFileHeader {
    /// Version needed to extract.
    pub version_needed: u16,
    /// General purpose bit flag.
    pub flags: u16,
    /// Compression method.
    pub compression_method: u16,
    /// File last modification time and date (DOS format).
    pub last_modified: u32,
    /// CRC of the uncompressed data.
    pub crc32: u32,
    /// Compressed size.
    pub compressed_size: u32,
    /// Uncompressed size.
    pub uncompressed_size: u32,
    /// File name length.
    pub file_name_length: u16,
    /// Extra field length.
    pub extra_field_length: u16,
}

impl LocalFileHeader {
    /// Local File Header signature as a number.
    pub const SIGNATURE: u32 = 0x04034b50;

    /// Extended Local File Header signature.
    pub const SIGNATURE_EXTENDED: u32 = 0x14034b50;

    /// Number of bytes on disk.
    pub const SIZE: usize = 0x1A;

    /// The record whose bytes stand in `s` at `at`.
    pub open spec fn at(s: Seq<u8>, at: int) -> Self {
        LocalFileHeader {
            version_needed: bytes::le16(s, at),
            flags: bytes::le16(s, at + 0x2),
            compression_method: bytes::le16(s, at + 0x4),
            last_modified: bytes::le32(s, at + 0x6),
            crc32: bytes::le32(s, at + 0xA),
            compressed_size: bytes::le32(s, at + 0xE),
            uncompressed_size: bytes::le32(s, at + 0x12),
            file_name_length: bytes::le16(s, at + 0x16),
            extra_field_length: bytes::le16(s, at + 0x18),
        }
    }

    /// The bytes of this record.
    #[verifier::opaque]
    pub open spec fn bytes(self) -> Seq<u8> {
        bytes::u16_bytes(self.version_needed)
            + bytes::u16_bytes(self.flags)
            + bytes::u16_bytes(self.compression_method)
            + bytes::u32_bytes(self.last_modified)
            + bytes::u32_bytes(self.crc32)
            + bytes::u32_bytes(self.compressed_size)
            + bytes::u32_bytes(self.uncompressed_size)
            + bytes::u16_bytes(self.file_name_length)
            + bytes::u16_bytes(self.extra_field_length)
    }

    /// How many bytes a record takes.
    pub proof fn lemma_length(self)
        ensures
            self.bytes().len() == 0x1a,
    {
        reveal(LocalFileHeader::bytes);
        let p0 = bytes::u16_bytes(self.version_needed);
        assert(p0.len() == 0x2) by {
            bytes::lemma_number_lengths(self.version_needed, 0, 0);
        }
        let p1 = p0 + bytes::u16_bytes(self.flags);
        assert(p1.len() == 0x4) by {
            bytes::lemma_number_lengths(self.flags, 0, 0);
        }
        let p2 = p1 + bytes::u16_bytes(self.compression_method);
        assert(p2.len() == 0x6) by {
            bytes::lemma_number_lengths(self.compression_method, 0, 0);
        }
        let p3 = p2 + bytes::u32_bytes(self.last_modified);
        assert(p3.len() == 0xa) by {
            bytes::lemma_number_lengths(0, self.last_modified, 0);
        }
        let p4 = p3 + bytes::u32_bytes(self.crc32);
        assert(p4.len() == 0xe) by {
            bytes::lemma_number_lengths(0, self.crc32, 0);
        }
        let p5 = p4 + bytes::u32_bytes(self.compressed_size);
        assert(p5.len() == 0x12) by {
            bytes::lemma_number_lengths(0, self.compressed_size, 0);
        }
        let p6 = p5 + bytes::u32_bytes(self.uncompressed_size);
        assert(p6.len() == 0x16) by {
            bytes::lemma_number_lengths(0, self.uncompressed_size, 0);
        }
        let p7 = p6 + bytes::u16_bytes(self.file_name_length);
        assert(p7.len() == 0x18) by {
            bytes::lemma_number_lengths(self.file_name_length, 0, 0);
        }
        let p8 = p7 + bytes::u16_bytes(self.extra_field_length);
        assert(p8.len() == 0x1a) by {
            bytes::lemma_number_lengths(self.extra_field_length, 0, 0);
        }
    }

    /// A written record reads back as itself.
    pub proof fn law_read_back(self, s: Seq<u8>, at: int)
        requires
            bytes::holds_at(s, at, self.bytes()),
        ensures
            Self::at(s, at) == self,
    {
        reveal(LocalFileHeader::bytes);
        let p0 = bytes::u16_bytes(self.version_needed);
        let p1 = p0 + bytes::u16_bytes(self.flags);
        let p2 = p1 + bytes::u16_bytes(self.compression_method);
        let p3 = p2 + bytes::u32_bytes(self.last_modified);
        let p4 = p3 + bytes::u32_bytes(self.crc32);
        let p5 = p4 + bytes::u32_bytes(self.compressed_size);
        let p6 = p5 + bytes::u32_bytes(self.uncompressed_size);
        let p7 = p6 + bytes::u16_bytes(self.file_name_length);
        let p8 = p7 + bytes::u16_bytes(self.extra_field_length);
        bytes::lemma_holds_split(s, at, p7, bytes::u16_bytes(self.extra_field_length));
        bytes::lemma_holds_split(s, at, p6, bytes::u16_bytes(self.file_name_length));
        bytes::lemma_holds_split(s, at, p5, bytes::u32_bytes(self.uncompressed_size));
        bytes::lemma_holds_split(s, at, p4, bytes::u32_bytes(self.compressed_size));
        bytes::lemma_holds_split(s, at, p3, bytes::u32_bytes(self.crc32));
        bytes::lemma_holds_split(s, at, p2, bytes::u32_bytes(self.last_modified));
        bytes::lemma_holds_split(s, at, p1, bytes::u16_bytes(self.compression_method));
        bytes::lemma_holds_split(s, at, p0, bytes::u16_bytes(self.flags));
        bytes::lemma_le16_of_bytes(s, at, self.version_needed);
        bytes::lemma_le16_of_bytes(s, at + 0x2, self.flags);
        bytes::lemma_le16_of_bytes(s, at + 0x4, self.compression_method);
        bytes::lemma_le32_of_bytes(s, at + 0x6, self.last_modified);
        bytes::lemma_le32_of_bytes(s, at + 0xA, self.crc32);
        bytes::lemma_le32_of_bytes(s, at + 0xE, self.compressed_size);
        bytes::lemma_le32_of_bytes(s, at + 0x12, self.uncompressed_size);
        bytes::lemma_le16_of_bytes(s, at + 0x16, self.file_name_length);
        bytes::lemma_le16_of_bytes(s, at + 0x18, self.extra_field_length);
    }

    /// Read the record at `at`.
    pub fn read(data: &[u8], at: usize) -> (r: Self)
        requires
            at + Self::SIZE <= data@.len(),
        ensures
            r == Self::at(data@, at as int),
    {
        assert(data.len() == data@.len());
        LocalFileHeader {
            version_needed: get_u16(data, at),
            flags: get_u16(data, at + 0x2),
            compression_method: get_u16(data, at + 0x4),
            last_modified: get_u32(data, at + 0x6),
            crc32: get_u32(data, at + 0xA),
            compressed_size: get_u32(data, at + 0xE),
            uncompressed_size: get_u32(data, at + 0x12),
            file_name_length: get_u16(data, at + 0x16),
            extra_field_length: get_u16(data, at + 0x18),
        }
    }

    /// Append the bytes of this record.
    pub fn write(&self, out: &mut Vec<u8>)
        ensures
            final(out)@ == old(out)@ + self.bytes(),
    {
        proof {
            reveal(LocalFileHeader::bytes);
        }
        put_u16(out, self.version_needed);
        let ghost p0 = bytes::u16_bytes(self.version_needed);
        put_u16(out, self.flags);
        let ghost p1 = p0 + bytes::u16_bytes(self.flags);
        proof {
            bytes::lemma_joined(old(out)@, p0, bytes::u16_bytes(self.flags));
        }
        put_u16(out, self.compression_method);
        let ghost p2 = p1 + bytes::u16_bytes(self.compression_method);
        proof {
            bytes::lemma_joined(old(out)@, p1, bytes::u16_bytes(self.compression_method));
        }
        put_u32(out, self.last_modified);
        let ghost p3 = p2 + bytes::u32_bytes(self.last_modified);
        proof {
            bytes::lemma_joined(old(out)@, p2, bytes::u32_bytes(self.last_modified));
        }
        put_u32(out, self.crc32);
        let ghost p4 = p3 + bytes::u32_bytes(self.crc32);
        proof {
            bytes::lemma_joined(old(out)@, p3, bytes::u32_bytes(self.crc32));
        }
        put_u32(out, self.compressed_size);
        let ghost p5 = p4 + bytes::u32_bytes(self.compressed_size);
        proof {
            bytes::lemma_joined(old(out)@, p4, bytes::u32_bytes(self.compressed_size));
        }
        put_u32(out, self.uncompressed_size);
        let ghost p6 = p5 + bytes::u32_bytes(self.uncompressed_size);
        proof {
            bytes::lemma_joined(old(out)@, p5, bytes::u32_bytes(self.uncompressed_size));
        }
        put_u16(out, self.file_name_length);
        let ghost p7 = p6 + bytes::u16_bytes(self.file_name_length);
        proof {
            bytes::lemma_joined(old(out)@, p6, bytes::u16_bytes(self.file_name_length));
        }
        put_u16(out, self.extra_field_length);
        let ghost p8 = p7 + bytes::u16_bytes(self.extra_field_length);
        proof {
            bytes::lemma_joined(old(out)@, p7, bytes::u16_bytes(self.extra_field_length));
        }
    }

    /// Total variable-length data size following this header.
    pub fn variable_data_size(&self) -> (n: usize)
        ensures
            n == self.file_name_length + self.extra_field_length,
    {
        self.file_name_length as usize + self.extra_field_length as usize
    }
}

} // verus!
