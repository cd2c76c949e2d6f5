//! What an opened archive holds.

use vstd::prelude::*;
use vstd::string::*;

use crate::zip::CompressionMethod;

verus! {

/// On-disk P4K format version detected at open time.
#[derive(Debug, Clone, Copy, PartialEq, Eq, Structural)]
pub enum P4kVersion {
    /// Legacy ZIP64-based format with per-entry local file headers.
    V1,
    /// "JiJi" trailer format. Entries point directly at compressed
    /// payload bytes with no local file header.
    V2,
}

/// Free byte range recorded in a P4K install block.
#[derive(Debug, Clone, Copy, PartialEq, Eq, Structural)]
pub struct P4kFreelistBlock {
    /// Absolute byte offset of the free range.
    pub offset: u64,
    /// Byte length of the free range.
    pub size: u64,
}

/// Archive-level layout metadata retained from the parsed CDR/EOCDR.
#[derive(Debug, Clone)]
pub struct P4kArchiveLayout {
    /// Total mapped file size, including trailing zero padding.
    pub file_size: u64,
    /// End of non-zero archive content after trimming trailing null padding.
    pub actual_content_end: u64,
    /// Physical sector size recorded by the P4K metadata, when present.
    pub physical_sector_size: Option<u64>,
    /// Absolute offset of the central directory block.
    pub cdr_offset: u64,
    /// Central directory byte size.
    pub cdr_size: u64,
    /// Absolute v2 name-table offset.
    pub name_table_offset: Option<u64>,
    /// v2 name-table byte size.
    pub name_table_size: u64,
    /// v2 payload end / install block start.
    pub end_of_payload: Option<u64>,
    /// Absolute install block offset.
    pub install_block_offset: Option<u64>,
    /// Install block span up to the CDR, including padding.
    pub install_block_size: Option<u64>,
    /// Offset of the v1 EOCD or v2 EOCDR.
    pub eocd_offset: u64,
    /// v2 EOCDR manifest digest bytes.
    pub manifest_sha256: Option<[u8; 64]>,
}

/// The layout metadata, with the digest as a byte sequence.
pub struct LayoutModel {
    pub file_size: u64,
    pub actual_content_end: u64,
    pub physical_sector_size: Option<u64>,
    pub cdr_offset: u64,
    pub cdr_size: u64,
    pub name_table_offset: Option<u64>,
    pub name_table_size: u64,
    pub end_of_payload: Option<u64>,
    pub install_block_offset: Option<u64>,
    pub install_block_size: Option<u64>,
    pub eocd_offset: u64,
    pub manifest_sha256: Option<Seq<u8>>,
}

impl View for P4kArchiveLayout {
    type V = LayoutModel;

    open spec fn view(&self) -> LayoutModel {
        LayoutModel {
            file_size: self.file_size,
            actual_content_end: self.actual_content_end,
            physical_sector_size: self.physical_sector_size,
            cdr_offset: self.cdr_offset,
            cdr_size: self.cdr_size,
            name_table_offset: self.name_table_offset,
            name_table_size: self.name_table_size,
            end_of_payload: self.end_of_payload,
            install_block_offset: self.install_block_offset,
            install_block_size: self.install_block_size,
            eocd_offset: self.eocd_offset,
            manifest_sha256: match self.manifest_sha256 {
                Some(digest) => Some(digest@),
                None => None,
            },
        }
    }
}

/// Metadata of one archive entry.
#[derive(Debug)]
pub struct P4kEntryCompact {
    /// File name.
    pub name: String,
    /// Compressed size.
    pub compressed_size: u64,
    /// Uncompressed size.
    pub uncompressed_size: u64,
    /// Compression method.
    pub compression_method: CompressionMethod,
    /// Whether the payload is encrypted.
    pub is_encrypted: bool,
    /// For v1: offset of the local file header.
    /// For v2: absolute offset of the compressed payload bytes.
    pub local_header_offset: u64,
    /// CRC32C of the uncompressed data.
    pub crc32: u32,
    /// DOS last-modified time.
    pub last_mod_file_time: u16,
    /// DOS last-modified date.
    pub last_mod_file_date: u16,
    /// RSA-1024 signature stored in P4K custom metadata.
    pub signature: [u8; 128],
    /// SHA-256 stored in P4K custom metadata.
    pub sha256: [u8; 32],
    /// Bytes already written to disk from the install block.
    pub bytes_already_written: u64,
}

/// The metadata of one archive entry, with its texts and digests as sequences.
pub struct EntryModel {
    pub name: Seq<char>,
    pub compressed_size: u64,
    pub uncompressed_size: u64,
    pub compression_method: CompressionMethod,
    pub is_encrypted: bool,
    pub local_header_offset: u64,
    pub crc32: u32,
    pub last_mod_file_time: u16,
    pub last_mod_file_date: u16,
    pub signature: Seq<u8>,
    pub sha256: Seq<u8>,
    pub bytes_already_written: u64,
}

impl EntryModel {
    /// What holds of every entry of an opened archive: its signature and digest
    /// have their sizes, and no more was written than the payload has.
    pub open spec fn is_sized(self) -> bool {
        &&& self.signature.len() == 128
        &&& self.sha256.len() == 32
        &&& self.bytes_already_written <= self.compressed_size
    }
}

impl View for P4kEntryCompact {
    type V = EntryModel;

    open spec fn view(&self) -> EntryModel {
        EntryModel {
            name: self.name@,
            compressed_size: self.compressed_size,
            uncompressed_size: self.uncompressed_size,
            compression_method: self.compression_method,
            is_encrypted: self.is_encrypted,
            local_header_offset: self.local_header_offset,
            crc32: self.crc32,
            last_mod_file_time: self.last_mod_file_time,
            last_mod_file_date: self.last_mod_file_date,
            signature: self.signature@,
            sha256: self.sha256@,
            bytes_already_written: self.bytes_already_written,
        }
    }
}

/// One archive entry, with its name borrowed from the archive.
#[derive(Debug, Clone, Copy)]
pub struct P4kEntryRef<'a> {
    /// File name/path within the archive.
    pub name: &'a str,
    /// Compressed size in bytes.
    pub compressed_size: u64,
    /// Uncompressed size in bytes.
    pub uncompressed_size: u64,
    /// Compression method.
    pub compression_method: CompressionMethod,
    /// Whether the entry is encrypted.
    pub is_encrypted: bool,
    /// Entry offset from the central directory.
    ///
    /// For v1 archives this is the ZIP local-file-header offset. For v2
    /// archives it points directly at the compressed payload bytes because
    /// v2 has no per-entry local header.
    pub local_header_offset: u64,
    /// CRC32C of the uncompressed data.
    pub crc32: u32,
    /// DOS last-modified time.
    pub last_mod_file_time: u16,
    /// DOS last-modified date.
    pub last_mod_file_date: u16,
    /// RSA-1024 signature stored in P4K custom metadata.
    pub signature: [u8; 128],
    /// SHA-256 of the raw stored payload bytes.
    pub sha256: [u8; 32],
    /// Bytes already written to disk from the install block.
    pub bytes_already_written: u64,
}

impl<'a> View for P4kEntryRef<'a> {
    type V = EntryModel;

    open spec fn view(&self) -> EntryModel {
        EntryModel {
            name: self.name@,
            compressed_size: self.compressed_size,
            uncompressed_size: self.uncompressed_size,
            compression_method: self.compression_method,
            is_encrypted: self.is_encrypted,
            local_header_offset: self.local_header_offset,
            crc32: self.crc32,
            last_mod_file_time: self.last_mod_file_time,
            last_mod_file_date: self.last_mod_file_date,
            signature: self.signature@,
            sha256: self.sha256@,
            bytes_already_written: self.bytes_already_written,
        }
    }
}

impl P4kEntryCompact {
    /// The same entry once more.
    pub fn duplicate(&self) -> (r: P4kEntryCompact)
        ensures
            r@ == self@,
    {
        P4kEntryCompact {
            name: String::from_str(self.name.as_str()),
            compressed_size: self.compressed_size,
            uncompressed_size: self.uncompressed_size,
            compression_method: self.compression_method,
            is_encrypted: self.is_encrypted,
            local_header_offset: self.local_header_offset,
            crc32: self.crc32,
            last_mod_file_time: self.last_mod_file_time,
            last_mod_file_date: self.last_mod_file_date,
            signature: self.signature,
            sha256: self.sha256,
            bytes_already_written: self.bytes_already_written,
        }
    }

    /// The entry with its name borrowed.
    pub fn entry_ref(&self) -> (r: P4kEntryRef<'_>)
        ensures
            r@ == self@,
    {
        P4kEntryRef {
            name: self.name.as_str(),
            compressed_size: self.compressed_size,
            uncompressed_size: self.uncompressed_size,
            compression_method: self.compression_method,
            is_encrypted: self.is_encrypted,
            local_header_offset: self.local_header_offset,
            crc32: self.crc32,
            last_mod_file_time: self.last_mod_file_time,
            last_mod_file_date: self.last_mod_file_date,
            signature: self.signature,
            sha256: self.sha256,
            bytes_already_written: self.bytes_already_written,
        }
    }
}

/// The models of a run of entries.
pub open spec fn entry_models(entries: Seq<P4kEntryCompact>) -> Seq<EntryModel> {
    Seq::new(entries.len(), |i: int| entries[i]@)
}

/// What the directory of an archive says.
#[derive(Debug)]
pub struct Directory {
    pub entries: Vec<P4kEntryCompact>,
    pub freelist_blocks: Vec<P4kFreelistBlock>,
    pub layout: P4kArchiveLayout,
}

/// What the directory of an archive says, as a value.
pub struct DirectoryModel {
    pub entries: Seq<EntryModel>,
    pub freelist_blocks: Seq<P4kFreelistBlock>,
    pub layout: LayoutModel,
}

impl View for Directory {
    type V = DirectoryModel;

    open spec fn view(&self) -> DirectoryModel {
        DirectoryModel {
            entries: entry_models(self.entries@),
            freelist_blocks: self.freelist_blocks@,
            layout: self.layout@,
        }
    }
}

} // verus!
