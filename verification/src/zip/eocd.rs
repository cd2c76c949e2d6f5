//! End of Central Directory (EOCD) structures.

use vstd::prelude::*;

use crate::bytes;
use crate::bytes::{get_u16, get_u32, get_u64, put_u16, put_u32, put_u64};

verus! {

/// End of Central Directory Record, without its signature.
///
/// In a ZIP64 archive some fields hold 0xFFFF or 0xFFFFFFFF, and the
/// ZIP64 record holds the values.
#[derive(Debug, Clone, Copy)]
pub struct EocdRecord {
    /// Number of this disk.
    pub disk_number: u16,
    /// Disk where the central directory starts.
    pub central_dir_disk: u16,
    /// Number of central directory records on this disk.
    pub central_dir_count_disk: u16,
    /// Total number of central directory records.
    pub central_dir_count_total: u16,
    /// Size of the central directory in bytes.
    pub central_dir_size: u32,
    /// Offset of the start of the central directory.
    pub central_dir_offset: u32,
    /// Comment length.
    pub comment_length: u16,
}

impl EocdRecord {
    /// EOCD signature as a number.
    pub const SIGNATURE: u32 = 0x06054b50;

    /// Number of bytes on disk.
    pub const SIZE: usize = 0x12;

    /// The record whose bytes stand in `s` at `at`.
    pub open spec fn at(s: Seq<u8>, at: int) -> Self {
        EocdRecord {
            disk_number: bytes::le16(s, at),
            central_dir_disk: bytes::le16(s, at + 0x2),
            central_dir_count_disk: bytes::le16(s, at + 0x4),
            central_dir_count_total: bytes::le16(s, at + 0x6),
            central_dir_size: bytes::le32(s, at + 0x8),
            central_dir_offset: bytes::le32(s, at + 0xC),
            comment_length: bytes::le16(s, at + 0x10),
        }
    }

    /// The bytes of this record.
    #[verifier::opaque]
    pub open spec fn bytes(self) -> Seq<u8> {
        bytes::u16_bytes(self.disk_number)
            + bytes::u16_bytes(self.central_dir_disk)
            + bytes::u16_bytes(self.central_dir_count_disk)
            + bytes::u16_bytes(self.central_dir_count_total)
            + bytes::u32_bytes(self.central_dir_size)
            + bytes::u32_bytes(self.central_dir_offset)
            + bytes::u16_bytes(self.comment_length)
    }

    /// How many bytes a record takes.
    pub proof fn lemma_length(self)
        ensures
            self.bytes().len() == 0x12,
    {
        reveal(EocdRecord::bytes);
        let p0 = bytes::u16_bytes(self.disk_number);
        assert(p0.len() == 0x2) by {
            bytes::lemma_number_lengths(self.disk_number, 0, 0);
        }
        let p1 = p0 + bytes::u16_bytes(self.central_dir_disk);
        assert(p1.len() == 0x4) by {
            bytes::lemma_number_lengths(self.central_dir_disk, 0, 0);
        }
        let p2 = p1 + bytes::u16_bytes(self.central_dir_count_disk);
        assert(p2.len() == 0x6) by {
            bytes::lemma_number_lengths(self.central_dir_count_disk, 0, 0);
        }
        let p3 = p2 + bytes::u16_bytes(self.central_dir_count_total);
        assert(p3.len() == 0x8) by {
            bytes::lemma_number_lengths(self.central_dir_count_total, 0, 0);
        }
        let p4 = p3 + bytes::u32_bytes(self.central_dir_size);
        assert(p4.len() == 0xc) by {
            bytes::lemma_number_lengths(0, self.central_dir_size, 0);
        }
        let p5 = p4 + bytes::u32_bytes(self.central_dir_offset);
        assert(p5.len() == 0x10) by {
            bytes::lemma_number_lengths(0, self.central_dir_offset, 0);
        }
        let p6 = p5 + bytes::u16_bytes(self.comment_length);
        assert(p6.len() == 0x12) by {
            bytes::lemma_number_lengths(self.comment_length, 0, 0);
        }
    }

    /// A written record reads back as itself.
    pub proof fn law_read_back(self, s: Seq<u8>, at: int)
        requires
            bytes::holds_at(s, at, self.bytes()),
        ensures
            Self::at(s, at) == self,
    {
        reveal(EocdRecord::bytes);
        let p0 = bytes::u16_bytes(self.disk_number);
        let p1 = p0 + bytes::u16_bytes(self.central_dir_disk);
        let p2 = p1 + bytes::u16_bytes(self.central_dir_count_disk);
        let p3 = p2 + bytes::u16_bytes(self.central_dir_count_total);
        let p4 = p3 + bytes::u32_bytes(self.central_dir_size);
        let p5 = p4 + bytes::u32_bytes(self.central_dir_offset);
        let p6 = p5 + bytes::u16_bytes(self.comment_length);
        bytes::lemma_holds_split(s, at, p5, bytes::u16_bytes(self.comment_length));
        bytes::lemma_holds_split(s, at, p4, bytes::u32_bytes(self.central_dir_offset));
        bytes::lemma_holds_split(s, at, p3, bytes::u32_bytes(self.central_dir_size));
        bytes::lemma_holds_split(s, at, p2, bytes::u16_bytes(self.central_dir_count_total));
        bytes::lemma_holds_split(s, at, p1, bytes::u16_bytes(self.central_dir_count_disk));
        bytes::lemma_holds_split(s, at, p0, bytes::u16_bytes(self.central_dir_disk));
        bytes::lemma_le16_of_bytes(s, at, self.disk_number);
        bytes::lemma_le16_of_bytes(s, at + 0x2, self.central_dir_disk);
        bytes::lemma_le16_of_bytes(s, at + 0x4, self.central_dir_count_disk);
        bytes::lemma_le16_of_bytes(s, at + 0x6, self.central_dir_count_total);
        bytes::lemma_le32_of_bytes(s, at + 0x8, self.central_dir_size);
        bytes::lemma_le32_of_bytes(s, at + 0xC, self.central_dir_offset);
        bytes::lemma_le16_of_bytes(s, at + 0x10, self.comment_length);
    }

    /// Read the record at `at`.
    pub fn read(data: &[u8], at: usize) -> (r: Self)
        requires
            at + Self::SIZE <= data@.len(),
        ensures
            r == Self::at(data@, at as int),
    {
        assert(data.len() == data@.len());
        EocdRecord {
            disk_number: get_u16(data, at),
            central_dir_disk: get_u16(data, at + 0x2),
            central_dir_count_disk: get_u16(data, at + 0x4),
            central_dir_count_total: get_u16(data, at + 0x6),
            central_dir_size: get_u32(data, at + 0x8),
            central_dir_offset: get_u32(data, at + 0xC),
            comment_length: get_u16(data, at + 0x10),
        }
    }

    /// Append the bytes of this record.
    pub fn write(&self, out: &mut Vec<u8>)
        ensures
            final(out)@ == old(out)@ + self.bytes(),
    {
        proof {
            reveal(EocdRecord::bytes);
        }
        put_u16(out, self.disk_number);
        let ghost p0 = bytes::u16_bytes(self.disk_number);
        put_u16(out, self.central_dir_disk);
        let ghost p1 = p0 + bytes::u16_bytes(self.central_dir_disk);
        proof {
            bytes::lemma_joined(old(out)@, p0, bytes::u16_bytes(self.central_dir_disk));
        }
        put_u16(out, self.central_dir_count_disk);
        let ghost p2 = p1 + bytes::u16_bytes(self.central_dir_count_disk);
        proof {
            bytes::lemma_joined(old(out)@, p1, bytes::u16_bytes(self.central_dir_count_disk));
        }
        put_u16(out, self.central_dir_count_total);
        let ghost p3 = p2 + bytes::u16_bytes(self.central_dir_count_total);
        proof {
            bytes::lemma_joined(old(out)@, p2, bytes::u16_bytes(self.central_dir_count_total));
        }
        put_u32(out, self.central_dir_size);
        let ghost p4 = p3 + bytes::u32_bytes(self.central_dir_size);
        proof {
            bytes::lemma_joined(old(out)@, p3, bytes::u32_bytes(self.central_dir_size));
        }
        put_u32(out, self.central_dir_offset);
        let ghost p5 = p4 + bytes::u32_bytes(self.central_dir_offset);
        proof {
            bytes::lemma_joined(old(out)@, p4, bytes::u32_bytes(self.central_dir_offset));
        }
        put_u16(out, self.comment_length);
        let ghost p6 = p5 + bytes::u16_bytes(self.comment_length);
        proof {
            bytes::lemma_joined(old(out)@, p5, bytes::u16_bytes(self.comment_length));
        }
    }

    /// Whether one of the sentinel values stands in the record.
    pub open spec fn says_zip64(self) -> bool {
        self.central_dir_count_total == 0xFFFF || self.central_dir_offset == 0xFFFF_FFFF
            || self.central_dir_size == 0xFFFF_FFFF
    }

    /// Check if this archive uses ZIP64 extensions.
    pub fn is_zip64(&self) -> (r: bool)
        ensures
            r == self.says_zip64(),
    {
        self.central_dir_count_total == 0xFFFF || self.central_dir_offset == 0xFFFF_FFFF
            || self.central_dir_size == 0xFFFF_FFFF
    }
}

/// ZIP64 End of Central Directory Locator, without its signature.
///
/// This record points to the ZIP64 EOCD record.
#[derive(Debug, Clone, Copy)]
pub struct Eocd64Locator {
    /// Disk number containing the ZIP64 EOCD.
    pub zip64_eocd_disk: u32,
    /// Offset of the ZIP64 EOCD record.
    pub zip64_eocd_offset: u64,
    /// Total number of disks.
    pub total_disks: u32,
}

impl Eocd64Locator {
    /// ZIP64 EOCD Locator signature as a number.
    pub const SIGNATURE: u32 = 0x07064b50;

    /// Number of bytes on disk.
    pub const SIZE: usize = 0x10;

    /// The record whose bytes stand in `s` at `at`.
    pub open spec fn at(s: Seq<u8>, at: int) -> Self {
        Eocd64Locator {
            zip64_eocd_disk: bytes::le32(s, at),
            zip64_eocd_offset: bytes::le64(s, at + 0x4),
            total_disks: bytes::le32(s, at + 0xC),
        }
    }

    /// The bytes of this record.
    #[verifier::opaque]
    pub open spec fn bytes(self) -> Seq<u8> {
        bytes::u32_bytes(self.zip64_eocd_disk)
            + bytes::u64_bytes(self.zip64_eocd_offset)
            + bytes::u32_bytes(self.total_disks)
    }

    /// How many bytes a record takes.
    pub proof fn lemma_length(self)
        ensures
            self.bytes().len() == 0x10,
    {
        reveal(Eocd64Locator::bytes);
        let p0 = bytes::u32_bytes(self.zip64_eocd_disk);
        assert(p0.len() == 0x4) by {
            bytes::lemma_number_lengths(0, self.zip64_eocd_disk, 0);
        }
        let p1 = p0 + bytes::u64_bytes(self.zip64_eocd_offset);
        assert(p1.len() == 0xc) by {
            bytes::lemma_number_lengths(0, 0, self.zip64_eocd_offset);
        }
        let p2 = p1 + bytes::u32_bytes(self.total_disks);
        assert(p2.len() == 0x10) by {
            bytes::lemma_number_lengths(0, self.total_disks, 0);
        }
    }

    /// A written record reads back as itself.
    pub proof fn law_read_back(self, s: Seq<u8>, at: int)
        requires
            bytes::holds_at(s, at, self.bytes()),
        ensures
            Self::at(s, at) == self,
    {
        reveal(Eocd64Locator::bytes);
        let p0 = bytes::u32_bytes(self.zip64_eocd_disk);
        let p1 = p0 + bytes::u64_bytes(self.zip64_eocd_offset);
        let p2 = p1 + bytes::u32_bytes(self.total_disks);
        bytes::lemma_holds_split(s, at, p1, bytes::u32_bytes(self.total_disks));
        bytes::lemma_holds_split(s, at, p0, bytes::u64_bytes(self.zip64_eocd_offset));
        bytes::lemma_le32_of_bytes(s, at, self.zip64_eocd_disk);
        bytes::lemma_le64_of_bytes(s, at + 0x4, self.zip64_eocd_offset);
        bytes::lemma_le32_of_bytes(s, at + 0xC, self.total_disks);
    }

    /// Read the record at `at`.
    pub fn read(data: &[u8], at: usize) -> (r: Self)
        requires
            at + Self::SIZE <= data@.len(),
        ensures
            r == Self::at(data@, at as int),
    {
        assert(data.len() == data@.len());
        Eocd64Locator {
            zip64_eocd_disk: get_u32(data, at),
            zip64_eocd_offset: get_u64(data, at + 0x4),
            total_disks: get_u32(data, at + 0xC),
        }
    }

    /// Append the bytes of this record.
    pub fn write(&self, out: &mut Vec<u8>)
        ensures
            final(out)@ == old(out)@ + self.bytes(),
    {
        proof {
            reveal(Eocd64Locator::bytes);
        }
        put_u32(out, self.zip64_eocd_disk);
        let ghost p0 = bytes::u32_bytes(self.zip64_eocd_disk);
        put_u64(out, self.zip64_eocd_offset);
        let ghost p1 = p0 + bytes::u64_bytes(self.zip64_eocd_offset);
        proof {
            bytes::lemma_joined(old(out)@, p0, bytes::u64_bytes(self.zip64_eocd_offset));
        }
        put_u32(out, self.total_disks);
        let ghost p2 = p1 + bytes::u32_bytes(self.total_disks);
        proof {
            bytes::lemma_joined(old(out)@, p1, bytes::u32_bytes(self.total_disks));
        }
    }
}

/// ZIP64 End of Central Directory Record, without its signature.
#[derive(Debug, Clone, Copy)]
pub struct Eocd64Record {
    /// Size of this record, not counting signature and this field.
    pub record_size: u64,
    /// Version made by.
    pub version_made_by: u16,
    /// Version needed to extract.
    pub version_needed: u16,
    /// This disk number.
    pub disk_number: u32,
    /// Disk where the central directory starts.
    pub central_dir_disk: u32,
    /// Number of central directory records on this disk.
    pub central_dir_count_disk: u64,
    /// Total number of central directory records.
    pub central_dir_count_total: u64,
    /// Size of the central directory in bytes.
    pub central_dir_size: u64,
    /// Offset of the start of the central directory.
    pub central_dir_offset: u64,
}

impl Eocd64Record {
    /// ZIP64 EOCD signature as a number.
    pub const SIGNATURE: u32 = 0x06064b50;

    /// Number of bytes on disk.
    pub const SIZE: usize = 0x34;

    /// The record whose bytes stand in `s` at `at`.
    pub open spec fn at(s: Seq<u8>, at: int) -> Self {
        Eocd64Record {
            record_size: bytes::le64(s, at),
            version_made_by: bytes::le16(s, at + 0x8),
            version_needed: bytes::le16(s, at + 0xA),
            disk_number: bytes::le32(s, at + 0xC),
            central_dir_disk: bytes::le32(s, at + 0x10),
            central_dir_count_disk: bytes::le64(s, at + 0x14),
            central_dir_count_total: bytes::le64(s, at + 0x1C),
            central_dir_size: bytes::le64(s, at + 0x24),
            central_dir_offset: bytes::le64(s, at + 0x2C),
        }
    }

    /// The bytes of this record.
    #[verifier::opaque]
    pub open spec fn bytes(self) -> Seq<u8> {
        bytes::u64_bytes(self.record_size)
            + bytes::u16_bytes(self.version_made_by)
            + bytes::u16_bytes(self.version_needed)
            + bytes::u32_bytes(self.disk_number)
            + bytes::u32_bytes(self.central_dir_disk)
            + bytes::u64_bytes(self.central_dir_count_disk)
            + bytes::u64_bytes(self.central_dir_count_total)
            + bytes::u64_bytes(self.central_dir_size)
            + bytes::u64_bytes(self.central_dir_offset)
    }

    /// How many bytes a record takes.
    pub proof fn lemma_length(self)
        ensures
            self.bytes().len() == 0x34,
    {
        reveal(Eocd64Record::bytes);
        let p0 = bytes::u64_bytes(self.record_size);
        assert(p0.len() == 0x8) by {
            bytes::lemma_number_lengths(0, 0, self.record_size);
        }
        let p1 = p0 + bytes::u16_bytes(self.version_made_by);
        assert(p1.len() == 0xa) by {
            bytes::lemma_number_lengths(self.version_made_by, 0, 0);
        }
        let p2 = p1 + bytes::u16_bytes(self.version_needed);
        assert(p2.len() == 0xc) by {
            bytes::lemma_number_lengths(self.version_needed, 0, 0);
        }
        let p3 = p2 + bytes::u32_bytes(self.disk_number);
        assert(p3.len() == 0x10) by {
            bytes::lemma_number_lengths(0, self.disk_number, 0);
        }
        let p4 = p3 + bytes::u32_bytes(self.central_dir_disk);
        assert(p4.len() == 0x14) by {
            bytes::lemma_number_lengths(0, self.central_dir_disk, 0);
        }
        let p5 = p4 + bytes::u64_bytes(self.central_dir_count_disk);
        assert(p5.len() == 0x1c) by {
            bytes::lemma_number_lengths(0, 0, self.central_dir_count_disk);
        }
        let p6 = p5 + bytes::u64_bytes(self.central_dir_count_total);
        assert(p6.len() == 0x24) by {
            bytes::lemma_number_lengths(0, 0, self.central_dir_count_total);
        }
        let p7 = p6 + bytes::u64_bytes(self.central_dir_size);
        assert(p7.len() == 0x2c) by {
            bytes::lemma_number_lengths(0, 0, self.central_dir_size);
        }
        let p8 = p7 + bytes::u64_bytes(self.central_dir_offset);
        assert(p8.len() == 0x34) by {
            bytes::lemma_number_lengths(0, 0, self.central_dir_offset);
        }
    }

    /// A written record reads back as itself.
    pub proof fn law_read_back(self, s: Seq<u8>, at: int)
        requires
            bytes::holds_at(s, at, self.bytes()),
        ensures
            Self::at(s, at) == self,
    {
        reveal(Eocd64Record::bytes);
        let p0 = bytes::u64_bytes(self.record_size);
        let p1 = p0 + bytes::u16_bytes(self.version_made_by);
        let p2 = p1 + bytes::u16_bytes(self.version_needed);
        let p3 = p2 + bytes::u32_bytes(self.disk_number);
        let p4 = p3 + bytes::u32_bytes(self.central_dir_disk);
        let p5 = p4 + bytes::u64_bytes(self.central_dir_count_disk);
        let p6 = p5 + bytes::u64_bytes(self.central_dir_count_total);
        let p7 = p6 + bytes::u64_bytes(self.central_dir_size);
        let p8 = p7 + bytes::u64_bytes(self.central_dir_offset);
        bytes::lemma_holds_split(s, at, p7, bytes::u64_bytes(self.central_dir_offset));
        bytes::lemma_holds_split(s, at, p6, bytes::u64_bytes(self.central_dir_size));
        bytes::lemma_holds_split(s, at, p5, bytes::u64_bytes(self.central_dir_count_total));
        bytes::lemma_holds_split(s, at, p4, bytes::u64_bytes(self.central_dir_count_disk));
        bytes::lemma_holds_split(s, at, p3, bytes::u32_bytes(self.central_dir_disk));
        bytes::lemma_holds_split(s, at, p2, bytes::u32_bytes(self.disk_number));
        bytes::lemma_holds_split(s, at, p1, bytes::u16_bytes(self.version_needed));
        bytes::lemma_holds_split(s, at, p0, bytes::u16_bytes(self.version_made_by));
        bytes::lemma_le64_of_bytes(s, at, self.record_size);
        bytes::lemma_le16_of_bytes(s, at + 0x8, self.version_made_by);
        bytes::lemma_le16_of_bytes(s, at + 0xA, self.version_needed);
        bytes::lemma_le32_of_bytes(s, at + 0xC, self.disk_number);
        bytes::lemma_le32_of_bytes(s, at + 0x10, self.central_dir_disk);
        bytes::lemma_le64_of_bytes(s, at + 0x14, self.central_dir_count_disk);
        bytes::lemma_le64_of_bytes(s, at + 0x1C, self.central_dir_count_total);
        bytes::lemma_le64_of_bytes(s, at + 0x24, self.central_dir_size);
        bytes::lemma_le64_of_bytes(s, at + 0x2C, self.central_dir_offset);
    }

    /// Read the record at `at`.
    pub fn read(data: &[u8], at: usize) -> (r: Self)
        requires
            at + Self::SIZE <= data@.len(),
        ensures
            r == Self::at(data@, at as int),
    {
        assert(data.len() == data@.len());
        Eocd64Record {
            record_size: get_u64(data, at),
            version_made_by: get_u16(data, at + 0x8),
            version_needed: get_u16(data, at + 0xA),
            disk_number: get_u32(data, at + 0xC),
            central_dir_disk: get_u32(data, at + 0x10),
            central_dir_count_disk: get_u64(data, at + 0x14),
            central_dir_count_total: get_u64(data, at + 0x1C),
            central_dir_size: get_u64(data, at + 0x24),
            central_dir_offset: get_u64(data, at + 0x2C),
        }
    }

    /// Append the bytes of this record.
    pub fn write(&self, out: &mut Vec<u8>)
        ensures
            final(out)@ == old(out)@ + self.bytes(),
    {
        proof {
            reveal(Eocd64Record::bytes);
        }
        put_u64(out, self.record_size);
        let ghost p0 = bytes::u64_bytes(self.record_size);
        put_u16(out, self.version_made_by);
        let ghost p1 = p0 + bytes::u16_bytes(self.version_made_by);
        proof {
            bytes::lemma_joined(old(out)@, p0, bytes::u16_bytes(self.version_made_by));
        }
        put_u16(out, self.version_needed);
        let ghost p2 = p1 + bytes::u16_bytes(self.version_needed);
        proof {
            bytes::lemma_joined(old(out)@, p1, bytes::u16_bytes(self.version_needed));
        }
        put_u32(out, self.disk_number);
        let ghost p3 = p2 + bytes::u32_bytes(self.disk_number);
        proof {
            bytes::lemma_joined(old(out)@, p2, bytes::u32_bytes(self.disk_number));
        }
        put_u32(out, self.central_dir_disk);
        let ghost p4 = p3 + bytes::u32_bytes(self.central_dir_disk);
        proof {
            bytes::lemma_joined(old(out)@, p3, bytes::u32_bytes(self.central_dir_disk));
        }
        put_u64(out, self.central_dir_count_disk);
        let ghost p5 = p4 + bytes::u64_bytes(self.central_dir_count_disk);
        proof {
            bytes::lemma_joined(old(out)@, p4, bytes::u64_bytes(self.central_dir_count_disk));
        }
        put_u64(out, self.central_dir_count_total);
        let ghost p6 = p5 + bytes::u64_bytes(self.central_dir_count_total);
        proof {
            bytes::lemma_joined(old(out)@, p5, bytes::u64_bytes(self.central_dir_count_total));
        }
        put_u64(out, self.central_dir_size);
        let ghost p7 = p6 + bytes::u64_bytes(self.central_dir_size);
        proof {
            bytes::lemma_joined(old(out)@, p6, bytes::u64_bytes(self.central_dir_size));
        }
        put_u64(out, self.central_dir_offset);
        let ghost p8 = p7 + bytes::u64_bytes(self.central_dir_offset);
        proof {
            bytes::lemma_joined(old(out)@, p7, bytes::u64_bytes(self.central_dir_offset));
        }
    }
}

} // verus!
