//! Reader and writer for P4K archives.
//!
//! A P4K archive is a customized ZIP64 archive (v1), or an archive with a flat
//! central directory behind its payloads (v2, known by its "JiJi" magic).
//! Entries can be stored, or compressed with DEFLATE or Zstandard, and
//! encrypted with AES-128-CBC.
//!
//! The library works on bytes: it opens archives that lie in memory, and writes
//! new ones to memory.

pub mod align;
pub mod archive;
pub mod bytes;
pub mod compare;
pub mod compare_laws;
pub mod compress;
pub mod crc;
pub mod crypto;
pub mod crypto_laws;
pub mod datetime;
pub mod decompress;
pub mod digest;
pub mod entry;
pub mod entry_laws;
pub mod error;
pub mod order;
pub mod path;
pub mod path_laws;
pub mod scan;
pub mod subarchive;
pub mod subarchive_laws;
pub mod text;
pub mod writer;
pub mod zip;

pub use archive::model::{P4kArchiveLayout, P4kEntryRef, P4kFreelistBlock, P4kVersion};
pub use archive::reader::{P4kArchive, P4kRawEntryRef};
pub use compare::{
    compare_archives, is_cryxml_extension, is_text_file, FileComparisonResult, P4kComparisonResult,
};
pub use crypto::signature_metadata_sha256;
pub use entry::P4kEntry;
pub use error::{Error, Result};
pub use subarchive::{
    parse_subarchive, parse_subarchive_cdr_entries, parse_subarchive_cdr_info,
    subarchive_eocdr_begin_offset, subarchive_eocdr_size, validate_subarchive_eocdr, SubArchive,
    SubArchiveCdrEntry, SubArchiveCdrInfo, SubArchiveStatus, SUBARCHIVE_EOCDR_SIZE,
};
pub use writer::builder::{P4kBuilder, P4kStagedEntry};
pub use writer::convert::convert_v1_to_v2;
pub use writer::options::{P4kEntryMetadata, P4kWriteStats, P4kWriterOptions};
