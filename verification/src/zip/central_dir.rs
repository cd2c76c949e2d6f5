//! Central Directory Header structures.

use vstd::prelude::*;

use crate::bytes;
use crate::bytes::{get_array, get_u16, get_u32, get_u64, put_bytes, put_u16, put_u32, put_u64};

pub mod extra_field;

verus! {

/// Central Directory File Header, without its signature.
///
/// This structure describes a single file entry in the archive's central
/// directory.
#[derive(Debug, Clone, Copy)]
pub struct CentralDirectoryHeader {
    /// Version made by.
    pub version_made_by: u16,
    /// Version needed to extract.
    pub version_needed: u16,
    /// General purpose bit flag.
    pub flags: u16,
    /// Compression method.
    pub compression_method: u16,
    /// File last modification time and date (DOS format).
    pub last_modified: u32,
    /// CRC32C of the uncompressed data.
    pub crc32: u32,
    /// Compressed size.
    pub compressed_size: u32,
    /// Uncompressed size.
    pub uncompressed_size: u32,
    /// File name length.
    pub file_name_length: u16,
    /// Extra field length.
    pub extra_field_length: u16,
    /// File comment length.
    pub file_comment_length: u16,
    /// Disk number where the file starts.
    pub disk_number_start: u16,
    /// Internal file attributes.
    pub internal_attrs: u16,
    /// External file attributes.
    pub external_attrs: u32,
    /// Relative offset of the local file header.
    pub local_header_offset: u32,
}

impl CentralDirectoryHeader {
    /// Central Directory signature as a number.
    pub const SIGNATURE: u32 = 0x02014b50;

    /// Number of bytes on disk.
    pub const SIZE: usize = 0x2A;

    /// The record whose bytes stand in `s` at `at`.
    pub open spec fn at(s: Seq<u8>, at: int) -> Self {
        CentralDirectoryHeader {
            version_made_by: bytes::le16(s, at),
            version_needed: bytes::le16(s, at + 0x2),
            flags: bytes::le16(s, at + 0x4),
            compression_method: bytes::le16(s, at + 0x6),
            last_modified: bytes::le32(s, at + 0x8),
            crc32: bytes::le32(s, at + 0xC),
            compressed_size: bytes::le32(s, at + 0x10),
            uncompressed_size: bytes::le32(s, at + 0x14),
            file_name_length: bytes::le16(s, at + 0x18),
            extra_field_length: bytes::le16(s, at + 0x1A),
            file_comment_length: bytes::le16(s, at + 0x1C),
            disk_number_start: bytes::le16(s, at + 0x1E),
            internal_attrs: bytes::le16(s, at + 0x20),
            external_attrs: bytes::le32(s, at + 0x22),
            local_header_offset: bytes::le32(s, at + 0x26),
        }
    }

    /// The bytes of this record.
    #[verifier::opaque]
    pub open spec fn bytes(self) -> Seq<u8> {
        bytes::u16_bytes(self.version_made_by)
            + bytes::u16_bytes(self.version_needed)
            + bytes::u16_bytes(self.flags)
            + bytes::u16_bytes(self.compression_method)
            + bytes::u32_bytes(self.last_modified)
            + bytes::u32_bytes(self.crc32)
            + bytes::u32_bytes(self.compressed_size)
            + bytes::u32_bytes(self.uncompressed_size)
            + bytes::u16_bytes(self.file_name_length)
            + bytes::u16_bytes(self.extra_field_length)
            + bytes::u16_bytes(self.file_comment_length)
            + bytes::u16_bytes(self.disk_number_start)
            + bytes::u16_bytes(self.internal_attrs)
            + bytes::u32_bytes(self.external_attrs)
            + bytes::u32_bytes(self.local_header_offset)
    }

    /// How many bytes a record takes.
    pub proof fn lemma_length(self)
        ensures
            self.bytes().len() == 0x2a,
    {
        reveal(CentralDirectoryHeader::bytes);
        let p0 = bytes::u16_bytes(self.version_made_by);
        assert(p0.len() == 0x2) by {
            bytes::lemma_number_lengths(self.version_made_by, 0, 0);
        }
        let p1 = p0 + bytes::u16_bytes(self.version_needed);
        assert(p1.len() == 0x4) by {
            bytes::lemma_number_lengths(self.version_needed, 0, 0);
        }
        let p2 = p1 + bytes::u16_bytes(self.flags);
        assert(p2.len() == 0x6) by {
            bytes::lemma_number_lengths(self.flags, 0, 0);
        }
        let p3 = p2 + bytes::u16_bytes(self.compression_method);
        assert(p3.len() == 0x8) by {
            bytes::lemma_number_lengths(self.compression_method, 0, 0);
        }
        let p4 = p3 + bytes::u32_bytes(self.last_modified);
        assert(p4.len() == 0xc) by {
            bytes::lemma_number_lengths(0, self.last_modified, 0);
        }
        let p5 = p4 + bytes::u32_bytes(self.crc32);
        assert(p5.len() == 0x10) by {
            bytes::lemma_number_lengths(0, self.crc32, 0);
        }
        let p6 = p5 + bytes::u32_bytes(self.compressed_size);
        assert(p6.len() == 0x14) by {
            bytes::lemma_number_lengths(0, self.compressed_size, 0);
        }
        let p7 = p6 + bytes::u32_bytes(self.uncompressed_size);
        assert(p7.len() == 0x18) by {
            bytes::lemma_number_lengths(0, self.uncompressed_size, 0);
        }
        let p8 = p7 + bytes::u16_bytes(self.file_name_length);
        assert(p8.len() == 0x1a) by {
            bytes::lemma_number_lengths(self.file_name_length, 0, 0);
        }
        let p9 = p8 + bytes::u16_bytes(self.extra_field_length);
        assert(p9.len() == 0x1c) by {
            bytes::lemma_number_lengths(self.extra_field_length, 0, 0);
        }
        let p10 = p9 + bytes::u16_bytes(self.file_comment_length);
        assert(p10.len() == 0x1e) by {
            bytes::lemma_number_lengths(self.file_comment_length, 0, 0);
        }
        let p11 = p10 + bytes::u16_bytes(self.disk_number_start);
        assert(p11.len() == 0x20) by {
            bytes::lemma_number_lengths(self.disk_number_start, 0, 0);
        }
        let p12 = p11 + bytes::u16_bytes(self.internal_attrs);
        assert(p12.len() == 0x22) by {
            bytes::lemma_number_lengths(self.internal_attrs, 0, 0);
        }
        let p13 = p12 + bytes::u32_bytes(self.external_attrs);
        assert(p13.len() == 0x26) by {
            bytes::lemma_number_lengths(0, self.external_attrs, 0);
        }
        let p14 = p13 + bytes::u32_bytes(self.local_header_offset);
        assert(p14.len() == 0x2a) by {
            bytes::lemma_number_lengths(0, self.local_header_offset, 0);
        }
    }

    /// A written record reads back as itself.
    pub proof fn law_read_back(self, s: Seq<u8>, at: int)
        requires
            bytes::holds_at(s, at, self.bytes()),
        ensures
            Self::at(s, at) == self,
    {
        reveal(CentralDirectoryHeader::bytes);
        let p0 = bytes::u16_bytes(self.version_made_by);
        let p1 = p0 + bytes::u16_bytes(self.version_needed);
        let p2 = p1 + bytes::u16_bytes(self.flags);
        let p3 = p2 + bytes::u16_bytes(self.compression_method);
        let p4 = p3 + bytes::u32_bytes(self.last_modified);
        let p5 = p4 + bytes::u32_bytes(self.crc32);
        let p6 = p5 + bytes::u32_bytes(self.compressed_size);
        let p7 = p6 + bytes::u32_bytes(self.uncompressed_size);
        let p8 = p7 + bytes::u16_bytes(self.file_name_length);
        let p9 = p8 + bytes::u16_bytes(self.extra_field_length);
        let p10 = p9 + bytes::u16_bytes(self.file_comment_length);
        let p11 = p10 + bytes::u16_bytes(self.disk_number_start);
        let p12 = p11 + bytes::u16_bytes(self.internal_attrs);
        let p13 = p12 + bytes::u32_bytes(self.external_attrs);
        let p14 = p13 + bytes::u32_bytes(self.local_header_offset);
        bytes::lemma_holds_split(s, at, p13, bytes::u32_bytes(self.local_header_offset));
        bytes::lemma_holds_split(s, at, p12, bytes::u32_bytes(self.external_attrs));
        bytes::lemma_holds_split(s, at, p11, bytes::u16_bytes(self.internal_attrs));
        bytes::lemma_holds_split(s, at, p10, bytes::u16_bytes(self.disk_number_start));
        bytes::lemma_holds_split(s, at, p9, bytes::u16_bytes(self.file_comment_length));
        bytes::lemma_holds_split(s, at, p8, bytes::u16_bytes(self.extra_field_length));
        bytes::lemma_holds_split(s, at, p7, bytes::u16_bytes(self.file_name_length));
        bytes::lemma_holds_split(s, at, p6, bytes::u32_bytes(self.uncompressed_size));
        bytes::lemma_holds_split(s, at, p5, bytes::u32_bytes(self.compressed_size));
        bytes::lemma_holds_split(s, at, p4, bytes::u32_bytes(self.crc32));
        bytes::lemma_holds_split(s, at, p3, bytes::u32_bytes(self.last_modified));
        bytes::lemma_holds_split(s, at, p2, bytes::u16_bytes(self.compression_method));
        bytes::lemma_holds_split(s, at, p1, bytes::u16_bytes(self.flags));
        bytes::lemma_holds_split(s, at, p0, bytes::u16_bytes(self.version_needed));
        bytes::lemma_le16_of_bytes(s, at, self.version_made_by);
        bytes::lemma_le16_of_bytes(s, at + 0x2, self.version_needed);
        bytes::lemma_le16_of_bytes(s, at + 0x4, self.flags);
        bytes::lemma_le16_of_bytes(s, at + 0x6, self.compression_method);
        bytes::lemma_le32_of_bytes(s, at + 0x8, self.last_modified);
        bytes::lemma_le32_of_bytes(s, at + 0xC, self.crc32);
        bytes::lemma_le32_of_bytes(s, at + 0x10, self.compressed_size);
        bytes::lemma_le32_of_bytes(s, at + 0x14, self.uncompressed_size);
        bytes::lemma_le16_of_bytes(s, at + 0x18, self.file_name_length);
        bytes::lemma_le16_of_bytes(s, at + 0x1A, self.extra_field_length);
        bytes::lemma_le16_of_bytes(s, at + 0x1C, self.file_comment_length);
        bytes::lemma_le16_of_bytes(s, at + 0x1E, self.disk_number_start);
        bytes::lemma_le16_of_bytes(s, at + 0x20, self.internal_attrs);
        bytes::lemma_le32_of_bytes(s, at + 0x22, self.external_attrs);
        bytes::lemma_le32_of_bytes(s, at + 0x26, self.local_header_offset);
    }

    /// Read the record at `at`.
    pub fn read(data: &[u8], at: usize) -> (r: Self)
        requires
            at + Self::SIZE <= data@.len(),
        ensures
            r == Self::at(data@, at as int),
    {
        assert(data.len() == data@.len());
        CentralDirectoryHeader {
            version_made_by: get_u16(data, at),
            version_needed: get_u16(data, at + 0x2),
            flags: get_u16(data, at + 0x4),
            compression_method: get_u16(data, at + 0x6),
            last_modified: get_u32(data, at + 0x8),
            crc32: get_u32(data, at + 0xC),
            compressed_size: get_u32(data, at + 0x10),
            uncompressed_size: get_u32(data, at + 0x14),
            file_name_length: get_u16(data, at + 0x18),
            extra_field_length: get_u16(data, at + 0x1A),
            file_comment_length: get_u16(data, at + 0x1C),
            disk_number_start: get_u16(data, at + 0x1E),
            internal_attrs: get_u16(data, at + 0x20),
            external_attrs: get_u32(data, at + 0x22),
            local_header_offset: get_u32(data, at + 0x26),
        }
    }

    /// Append the bytes of this record.
    pub fn write(&self, out: &mut Vec<u8>)
        ensures
            final(out)@ == old(out)@ + self.bytes(),
    {
        proof {
            reveal(CentralDirectoryHeader::bytes);
        }
        put_u16(out, self.version_made_by);
        let ghost p0 = bytes::u16_bytes(self.version_made_by);
        put_u16(out, self.version_needed);
        let ghost p1 = p0 + bytes::u16_bytes(self.version_needed);
        proof {
            bytes::lemma_joined(old(out)@, p0, bytes::u16_bytes(self.version_needed));
        }
        put_u16(out, self.flags);
        let ghost p2 = p1 + bytes::u16_bytes(self.flags);
        proof {
            bytes::lemma_joined(old(out)@, p1, bytes::u16_bytes(self.flags));
        }
        put_u16(out, self.compression_method);
        let ghost p3 = p2 + bytes::u16_bytes(self.compression_method);
        proof {
            bytes::lemma_joined(old(out)@, p2, bytes::u16_bytes(self.compression_method));
        }
        put_u32(out, self.last_modified);
        let ghost p4 = p3 + bytes::u32_bytes(self.last_modified);
        proof {
            bytes::lemma_joined(old(out)@, p3, bytes::u32_bytes(self.last_modified));
        }
        put_u32(out, self.crc32);
        let ghost p5 = p4 + bytes::u32_bytes(self.crc32);
        proof {
            bytes::lemma_joined(old(out)@, p4, bytes::u32_bytes(self.crc32));
        }
        put_u32(out, self.compressed_size);
        let ghost p6 = p5 + bytes::u32_bytes(self.compressed_size);
        proof {
            bytes::lemma_joined(old(out)@, p5, bytes::u32_bytes(self.compressed_size));
        }
        put_u32(out, self.uncompressed_size);
        let ghost p7 = p6 + bytes::u32_bytes(self.uncompressed_size);
        proof {
            bytes::lemma_joined(old(out)@, p6, bytes::u32_bytes(self.uncompressed_size));
        }
        put_u16(out, self.file_name_length);
        let ghost p8 = p7 + bytes::u16_bytes(self.file_name_length);
        proof {
            bytes::lemma_joined(old(out)@, p7, bytes::u16_bytes(self.file_name_length));
        }
        put_u16(out, self.extra_field_length);
        let ghost p9 = p8 + bytes::u16_bytes(self.extra_field_length);
        proof {
            bytes::lemma_joined(old(out)@, p8, bytes::u16_bytes(self.extra_field_length));
        }
        put_u16(out, self.file_comment_length);
        let ghost p10 = p9 + bytes::u16_bytes(self.file_comment_length);
        proof {
            bytes::lemma_joined(old(out)@, p9, bytes::u16_bytes(self.file_comment_length));
        }
        put_u16(out, self.disk_number_start);
        let ghost p11 = p10 + bytes::u16_bytes(self.disk_number_start);
        proof {
            bytes::lemma_joined(old(out)@, p10, bytes::u16_bytes(self.disk_number_start));
        }
        put_u16(out, self.internal_attrs);
        let ghost p12 = p11 + bytes::u16_bytes(self.internal_attrs);
        proof {
            bytes::lemma_joined(old(out)@, p11, bytes::u16_bytes(self.internal_attrs));
        }
        put_u32(out, self.external_attrs);
        let ghost p13 = p12 + bytes::u32_bytes(self.external_attrs);
        proof {
            bytes::lemma_joined(old(out)@, p12, bytes::u32_bytes(self.external_attrs));
        }
        put_u32(out, self.local_header_offset);
        let ghost p14 = p13 + bytes::u32_bytes(self.local_header_offset);
        proof {
            bytes::lemma_joined(old(out)@, p13, bytes::u32_bytes(self.local_header_offset));
        }
    }

    /// Total variable-length data size following this header.
    pub fn variable_data_size(&self) -> (n: usize)
        ensures
            n == self.file_name_length + self.extra_field_length + self.file_comment_length,
    {
        self.file_name_length as usize + self.extra_field_length as usize
            + self.file_comment_length as usize
    }
}

/// P4K v1 ZIP64 extra field.
///
/// The `size` of a P4K field counts the whole field, `id` and `size`
/// included.
#[derive(Debug, Clone, Copy)]
pub struct P4kZip64ExtraField {
    /// Field id.
    pub id: u16,
    /// Field size.
    pub size: u16,
    /// Uncompressed size.
    pub uncompressed_size: u64,
    /// Compressed size.
    pub compressed_size: u64,
    /// Offset of the local file header.
    pub local_header_offset: u64,
    /// Disk number where the file starts.
    pub disk_number_start: u32,
}

impl P4kZip64ExtraField {
    /// Number of bytes on disk.
    pub const SIZE: usize = 0x20;

    /// The record whose bytes stand in `s` at `at`.
    pub open spec fn at(s: Seq<u8>, at: int) -> Self {
        P4kZip64ExtraField {
            id: bytes::le16(s, at),
            size: bytes::le16(s, at + 0x2),
            uncompressed_size: bytes::le64(s, at + 0x4),
            compressed_size: bytes::le64(s, at + 0xC),
            local_header_offset: bytes::le64(s, at + 0x14),
            disk_number_start: bytes::le32(s, at + 0x1C),
        }
    }

    /// The bytes of this record.
    #[verifier::opaque]
    pub open spec fn bytes(self) -> Seq<u8> {
        bytes::u16_bytes(self.id)
            + bytes::u16_bytes(self.size)
            + bytes::u64_bytes(self.uncompressed_size)
            + bytes::u64_bytes(self.compressed_size)
            + bytes::u64_bytes(self.local_header_offset)
            + bytes::u32_bytes(self.disk_number_start)
    }

    /// How many bytes a record takes.
    pub proof fn lemma_length(self)
        ensures
            self.bytes().len() == 0x20,
    {
        reveal(P4kZip64ExtraField::bytes);
        let p0 = bytes::u16_bytes(self.id);
        assert(p0.len() == 0x2) by {
            bytes::lemma_number_lengths(self.id, 0, 0);
        }
        let p1 = p0 + bytes::u16_bytes(self.size);
        assert(p1.len() == 0x4) by {
            bytes::lemma_number_lengths(self.size, 0, 0);
        }
        let p2 = p1 + bytes::u64_bytes(self.uncompressed_size);
        assert(p2.len() == 0xc) by {
            bytes::lemma_number_lengths(0, 0, self.uncompressed_size);
        }
        let p3 = p2 + bytes::u64_bytes(self.compressed_size);
        assert(p3.len() == 0x14) by {
            bytes::lemma_number_lengths(0, 0, self.compressed_size);
        }
        let p4 = p3 + bytes::u64_bytes(self.local_header_offset);
        assert(p4.len() == 0x1c) by {
            bytes::lemma_number_lengths(0, 0, self.local_header_offset);
        }
        let p5 = p4 + bytes::u32_bytes(self.disk_number_start);
        assert(p5.len() == 0x20) by {
            bytes::lemma_number_lengths(0, self.disk_number_start, 0);
        }
    }

    /// A written record reads back as itself.
    pub proof fn law_read_back(self, s: Seq<u8>, at: int)
        requires
            bytes::holds_at(s, at, self.bytes()),
        ensures
            Self::at(s, at) == self,
    {
        reveal(P4kZip64ExtraField::bytes);
        let p0 = bytes::u16_bytes(self.id);
        let p1 = p0 + bytes::u16_bytes(self.size);
        let p2 = p1 + bytes::u64_bytes(self.uncompressed_size);
        let p3 = p2 + bytes::u64_bytes(self.compressed_size);
        let p4 = p3 + bytes::u64_bytes(self.local_header_offset);
        let p5 = p4 + bytes::u32_bytes(self.disk_number_start);
        bytes::lemma_holds_split(s, at, p4, bytes::u32_bytes(self.disk_number_start));
        bytes::lemma_holds_split(s, at, p3, bytes::u64_bytes(self.local_header_offset));
        bytes::lemma_holds_split(s, at, p2, bytes::u64_bytes(self.compressed_size));
        bytes::lemma_holds_split(s, at, p1, bytes::u64_bytes(self.uncompressed_size));
        bytes::lemma_holds_split(s, at, p0, bytes::u16_bytes(self.size));
        bytes::lemma_le16_of_bytes(s, at, self.id);
        bytes::lemma_le16_of_bytes(s, at + 0x2, self.size);
        bytes::lemma_le64_of_bytes(s, at + 0x4, self.uncompressed_size);
        bytes::lemma_le64_of_bytes(s, at + 0xC, self.compressed_size);
        bytes::lemma_le64_of_bytes(s, at + 0x14, self.local_header_offset);
        bytes::lemma_le32_of_bytes(s, at + 0x1C, self.disk_number_start);
    }

    /// Read the record at `at`.
    pub fn read(data: &[u8], at: usize) -> (r: Self)
        requires
            at + Self::SIZE <= data@.len(),
        ensures
            r == Self::at(data@, at as int),
    {
        assert(data.len() == data@.len());
        P4kZip64ExtraField {
            id: get_u16(data, at),
            size: get_u16(data, at + 0x2),
            uncompressed_size: get_u64(data, at + 0x4),
            compressed_size: get_u64(data, at + 0xC),
            local_header_offset: get_u64(data, at + 0x14),
            disk_number_start: get_u32(data, at + 0x1C),
        }
    }

    /// Append the bytes of this record.
    pub fn write(&self, out: &mut Vec<u8>)
        ensures
            final(out)@ == old(out)@ + self.bytes(),
    {
        proof {
            reveal(P4kZip64ExtraField::bytes);
        }
        put_u16(out, self.id);
        let ghost p0 = bytes::u16_bytes(self.id);
        put_u16(out, self.size);
        let ghost p1 = p0 + bytes::u16_bytes(self.size);
        proof {
            bytes::lemma_joined(old(out)@, p0, bytes::u16_bytes(self.size));
        }
        put_u64(out, self.uncompressed_size);
        let ghost p2 = p1 + bytes::u64_bytes(self.uncompressed_size);
        proof {
            bytes::lemma_joined(old(out)@, p1, bytes::u64_bytes(self.uncompressed_size));
        }
        put_u64(out, self.compressed_size);
        let ghost p3 = p2 + bytes::u64_bytes(self.compressed_size);
        proof {
            bytes::lemma_joined(old(out)@, p2, bytes::u64_bytes(self.compressed_size));
        }
        put_u64(out, self.local_header_offset);
        let ghost p4 = p3 + bytes::u64_bytes(self.local_header_offset);
        proof {
            bytes::lemma_joined(old(out)@, p3, bytes::u64_bytes(self.local_header_offset));
        }
        put_u32(out, self.disk_number_start);
        let ghost p5 = p4 + bytes::u32_bytes(self.disk_number_start);
        proof {
            bytes::lemma_joined(old(out)@, p4, bytes::u32_bytes(self.disk_number_start));
        }
    }
}

/// P4K v1 field `0x5000`: RSA-1024 signature.
#[derive(Debug, Clone, Copy)]
pub struct P4kSignatureExtraField {
    /// Field id.
    pub id: u16,
    /// Field size.
    pub size: u16,
    /// Signature.
    pub signature: [u8; 128],
}

impl P4kSignatureExtraField {
    /// Number of bytes on disk.
    pub const SIZE: usize = 0x84;

    /// Whether the bytes in `s` at `at` are those of this record.
    pub open spec fn stands_at(self, s: Seq<u8>, at: int) -> bool {
        &&& self.id == bytes::le16(s, at)
        &&& self.size == bytes::le16(s, at + 0x2)
        &&& self.signature@ == s.subrange(at + 0x4, at + 0x84)
    }

    /// The bytes of this record.
    #[verifier::opaque]
    pub open spec fn bytes(self) -> Seq<u8> {
        bytes::u16_bytes(self.id) + bytes::u16_bytes(self.size) + self.signature@
    }

    /// How many bytes a record takes.
    pub proof fn lemma_length(self)
        ensures
            self.bytes().len() == 0x84,
    {
        reveal(P4kSignatureExtraField::bytes);
        let p0 = bytes::u16_bytes(self.id);
        assert(p0.len() == 0x2) by {
            bytes::lemma_number_lengths(self.id, 0, 0);
        }
        let p1 = p0 + bytes::u16_bytes(self.size);
        assert(p1.len() == 0x4) by {
            bytes::lemma_number_lengths(self.size, 0, 0);
        }
        let p2 = p1 + self.signature@;
        assert(p2.len() == 0x84);
    }

    /// A written record reads back as itself.
    pub proof fn law_read_back(self, s: Seq<u8>, at: int)
        requires
            bytes::holds_at(s, at, self.bytes()),
        ensures
            self.stands_at(s, at),
    {
        reveal(P4kSignatureExtraField::bytes);
        let p0 = bytes::u16_bytes(self.id);
        let p1 = p0 + bytes::u16_bytes(self.size);
        let p2 = p1 + self.signature@;
        bytes::lemma_holds_split(s, at, p1, self.signature@);
        bytes::lemma_holds_split(s, at, p0, bytes::u16_bytes(self.size));
        bytes::lemma_le16_of_bytes(s, at, self.id);
        bytes::lemma_le16_of_bytes(s, at + 0x2, self.size);
    }

    /// Read the record at `at`.
    pub fn read(data: &[u8], at: usize) -> (r: Self)
        requires
            at + Self::SIZE <= data@.len(),
        ensures
            r.stands_at(data@, at as int),
    {
        assert(data.len() == data@.len());
        P4kSignatureExtraField {
            id: get_u16(data, at),
            size: get_u16(data, at + 0x2),
            signature: get_array::<128>(data, at + 0x4),
        }
    }

    /// Append the bytes of this record.
    pub fn write(&self, out: &mut Vec<u8>)
        ensures
            final(out)@ == old(out)@ + self.bytes(),
    {
        proof {
            reveal(P4kSignatureExtraField::bytes);
        }
        put_u16(out, self.id);
        let ghost p0 = bytes::u16_bytes(self.id);
        put_u16(out, self.size);
        let ghost p1 = p0 + bytes::u16_bytes(self.size);
        proof {
            bytes::lemma_joined(old(out)@, p0, bytes::u16_bytes(self.size));
        }
        put_bytes(out, self.signature.as_slice());
        let ghost p2 = p1 + self.signature@;
        proof {
            bytes::lemma_joined(old(out)@, p1, self.signature@);
        }
    }
}

/// P4K v1 field `0x5002`: encryption flag.
#[derive(Debug, Clone, Copy)]
pub struct P4kEncryptionExtraField {
    /// Field id.
    pub id: u16,
    /// Field size.
    pub size: u16,
    /// Whether the payload is encrypted.
    pub encryption: u16,
}

impl P4kEncryptionExtraField {
    /// Number of bytes on disk.
    pub const SIZE: usize = 0x6;

    /// The record whose bytes stand in `s` at `at`.
    pub open spec fn at(s: Seq<u8>, at: int) -> Self {
        P4kEncryptionExtraField {
            id: bytes::le16(s, at),
            size: bytes::le16(s, at + 0x2),
            encryption: bytes::le16(s, at + 0x4),
        }
    }

    /// The bytes of this record.
    #[verifier::opaque]
    pub open spec fn bytes(self) -> Seq<u8> {
        bytes::u16_bytes(self.id) + bytes::u16_bytes(self.size) + bytes::u16_bytes(self.encryption)
    }

    /// How many bytes a record takes.
    pub proof fn lemma_length(self)
        ensures
            self.bytes().len() == 0x6,
    {
        reveal(P4kEncryptionExtraField::bytes);
        let p0 = bytes::u16_bytes(self.id);
        assert(p0.len() == 0x2) by {
            bytes::lemma_number_lengths(self.id, 0, 0);
        }
        let p1 = p0 + bytes::u16_bytes(self.size);
        assert(p1.len() == 0x4) by {
            bytes::lemma_number_lengths(self.size, 0, 0);
        }
        let p2 = p1 + bytes::u16_bytes(self.encryption);
        assert(p2.len() == 0x6) by {
            bytes::lemma_number_lengths(self.encryption, 0, 0);
        }
    }

    /// A written record reads back as itself.
    pub proof fn law_read_back(self, s: Seq<u8>, at: int)
        requires
            bytes::holds_at(s, at, self.bytes()),
        ensures
            Self::at(s, at) == self,
    {
        reveal(P4kEncryptionExtraField::bytes);
        let p0 = bytes::u16_bytes(self.id);
        let p1 = p0 + bytes::u16_bytes(self.size);
        let p2 = p1 + bytes::u16_bytes(self.encryption);
        bytes::lemma_holds_split(s, at, p1, bytes::u16_bytes(self.encryption));
        bytes::lemma_holds_split(s, at, p0, bytes::u16_bytes(self.size));
        bytes::lemma_le16_of_bytes(s, at, self.id);
        bytes::lemma_le16_of_bytes(s, at + 0x2, self.size);
        bytes::lemma_le16_of_bytes(s, at + 0x4, self.encryption);
    }

    /// Read the record at `at`.
    pub fn read(data: &[u8], at: usize) -> (r: Self)
        requires
            at + Self::SIZE <= data@.len(),
        ensures
            r == Self::at(data@, at as int),
    {
        assert(data.len() == data@.len());
        P4kEncryptionExtraField {
            id: get_u16(data, at),
            size: get_u16(data, at + 0x2),
            encryption: get_u16(data, at + 0x4),
        }
    }

    /// Append the bytes of this record.
    pub fn write(&self, out: &mut Vec<u8>)
        ensures
            final(out)@ == old(out)@ + self.bytes(),
    {
        proof {
            reveal(P4kEncryptionExtraField::bytes);
        }
        put_u16(out, self.id);
        let ghost p0 = bytes::u16_bytes(self.id);
        put_u16(out, self.size);
        let ghost p1 = p0 + bytes::u16_bytes(self.size);
        proof {
            bytes::lemma_joined(old(out)@, p0, bytes::u16_bytes(self.size));
        }
        put_u16(out, self.encryption);
        let ghost p2 = p1 + bytes::u16_bytes(self.encryption);
        proof {
            bytes::lemma_joined(old(out)@, p1, bytes::u16_bytes(self.encryption));
        }
    }
}

/// P4K v1 field `0x5003`: SHA-256 of the compressed payload bytes.
#[derive(Debug, Clone, Copy)]
pub struct P4kSha256ExtraField {
    /// Field id.
    pub id: u16,
    /// Field size.
    pub size: u16,
    /// Digest.
    pub sha256: [u8; 32],
}

impl P4kSha256ExtraField {
    /// Number of bytes on disk.
    pub const SIZE: usize = 0x24;

    /// Whether the bytes in `s` at `at` are those of this record.
    pub open spec fn stands_at(self, s: Seq<u8>, at: int) -> bool {
        &&& self.id == bytes::le16(s, at)
        &&& self.size == bytes::le16(s, at + 0x2)
        &&& self.sha256@ == s.subrange(at + 0x4, at + 0x24)
    }

    /// The bytes of this record.
    #[verifier::opaque]
    pub open spec fn bytes(self) -> Seq<u8> {
        bytes::u16_bytes(self.id) + bytes::u16_bytes(self.size) + self.sha256@
    }

    /// How many bytes a record takes.
    pub proof fn lemma_length(self)
        ensures
            self.bytes().len() == 0x24,
    {
        reveal(P4kSha256ExtraField::bytes);
        let p0 = bytes::u16_bytes(self.id);
        assert(p0.len() == 0x2) by {
            bytes::lemma_number_lengths(self.id, 0, 0);
        }
        let p1 = p0 + bytes::u16_bytes(self.size);
        assert(p1.len() == 0x4) by {
            bytes::lemma_number_lengths(self.size, 0, 0);
        }
        let p2 = p1 + self.sha256@;
        assert(p2.len() == 0x24);
    }

    /// A written record reads back as itself.
    pub proof fn law_read_back(self, s: Seq<u8>, at: int)
        requires
            bytes::holds_at(s, at, self.bytes()),
        ensures
            self.stands_at(s, at),
    {
        reveal(P4kSha256ExtraField::bytes);
        let p0 = bytes::u16_bytes(self.id);
        let p1 = p0 + bytes::u16_bytes(self.size);
        let p2 = p1 + self.sha256@;
        bytes::lemma_holds_split(s, at, p1, self.sha256@);
        bytes::lemma_holds_split(s, at, p0, bytes::u16_bytes(self.size));
        bytes::lemma_le16_of_bytes(s, at, self.id);
        bytes::lemma_le16_of_bytes(s, at + 0x2, self.size);
    }

    /// Read the record at `at`.
    pub fn read(data: &[u8], at: usize) -> (r: Self)
        requires
            at + Self::SIZE <= data@.len(),
        ensures
            r.stands_at(data@, at as int),
    {
        assert(data.len() == data@.len());
        P4kSha256ExtraField {
            id: get_u16(data, at),
            size: get_u16(data, at + 0x2),
            sha256: get_array::<32>(data, at + 0x4),
        }
    }

    /// Append the bytes of this record.
    pub fn write(&self, out: &mut Vec<u8>)
        ensures
            final(out)@ == old(out)@ + self.bytes(),
    {
        proof {
            reveal(P4kSha256ExtraField::bytes);
        }
        put_u16(out, self.id);
        let ghost p0 = bytes::u16_bytes(self.id);
        put_u16(out, self.size);
        let ghost p1 = p0 + bytes::u16_bytes(self.size);
        proof {
            bytes::lemma_joined(old(out)@, p0, bytes::u16_bytes(self.size));
        }
        put_bytes(out, self.sha256.as_slice());
        let ghost p2 = p1 + self.sha256@;
        proof {
            bytes::lemma_joined(old(out)@, p1, self.sha256@);
        }
    }
}

} // verus!
