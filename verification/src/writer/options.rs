//! How an archive is to be written, and what was written.

use vstd::prelude::*;

use crate::align;
use crate::align::is_power_of_two;
use crate::bytes;
use crate::datetime;
use crate::datetime::dos_datetime_from_unix_secs;
use crate::error;
use crate::error::{invalid_input, Fault, Result};
use crate::zip::CompressionMethod;

verus! {

/// The sector size of archives that do not ask for another one.
pub const DEFAULT_SECTOR_SIZE: u64 = 4096;

/// Options controlling P4K creation.
#[derive(Debug, Clone)]
pub struct P4kWriterOptions {
    /// Physical sector size recorded in the archive and used for alignment.
    pub sector_size: u64,
    /// Compression method used by `P4kBuilder::add_bytes`.
    pub compression: CompressionMethod,
    /// Level of Zstandard compression.
    pub zstd_level: i32,
    /// Level of DEFLATE compression, at most ten.
    pub deflate_level: u32,
    /// Two SHA-256 digests stored verbatim in the v2 EOCDR. The first
    /// 32 bytes are the manifest hash in official archives.
    pub manifest_sha256: [u8; 64],
}

impl P4kWriterOptions {
    /// Whether these are the options of a writer that was told nothing.
    pub open spec fn is_default(self) -> bool {
        &&& self.sector_size == DEFAULT_SECTOR_SIZE
        &&& self.compression == CompressionMethod::Zstd
        &&& self.zstd_level == 1
        &&& self.deflate_level == 9
        &&& self.manifest_sha256@ == bytes::zeros(64)
    }
}

impl Default for P4kWriterOptions {
    fn default() -> (r: Self)
        ensures
            r.is_default(),
    {
        let manifest_sha256: [u8; 64] = [0u8; 64];
        assert(manifest_sha256@ =~= bytes::zeros(64));
        P4kWriterOptions {
            sector_size: DEFAULT_SECTOR_SIZE,
            compression: CompressionMethod::Zstd,
            zstd_level: 1,
            deflate_level: 9,
            manifest_sha256,
        }
    }
}

/// Summary returned after writing an archive.
#[derive(Debug, Clone, Copy, PartialEq, Eq, Structural)]
pub struct P4kWriteStats {
    /// Number of entries written.
    pub entry_count: usize,
    /// Offset behind the payload data.
    pub payload_end: u64,
    /// Offset where the central directory starts.
    pub cdr_offset: u64,
    /// Byte length of the central directory records.
    pub cdr_size: u64,
    /// Byte length of the name table.
    pub name_table_size: u64,
    /// Final file size, padding included.
    pub file_size: u64,
}

/// Metadata supplied for a newly staged entry.
///
/// Signatures are not made here: callers that sign externally supply the
/// resulting 128-byte field.
#[derive(Debug, Clone, Copy, PartialEq, Eq)]
pub struct P4kEntryMetadata {
    /// DOS last-modified time.
    pub last_mod_file_time: u16,
    /// DOS last-modified date.
    pub last_mod_file_date: u16,
    /// RSA-1024 signature field stored in P4K custom metadata.
    pub signature: [u8; 128],
}

/// Metadata supplied for an entry, with the signature as a byte sequence.
pub struct MetadataModel {
    pub last_mod_file_time: u16,
    pub last_mod_file_date: u16,
    pub signature: Seq<u8>,
}

impl View for P4kEntryMetadata {
    type V = MetadataModel;

    open spec fn view(&self) -> MetadataModel {
        MetadataModel {
            last_mod_file_time: self.last_mod_file_time,
            last_mod_file_date: self.last_mod_file_date,
            signature: self.signature@,
        }
    }
}

impl MetadataModel {
    /// Metadata of an unsigned entry with the given DOS time and date.
    pub open spec fn unsigned(time: u16, date: u16) -> MetadataModel {
        MetadataModel {
            last_mod_file_time: time,
            last_mod_file_date: date,
            signature: bytes::zeros(128),
        }
    }

    /// Metadata of an unsigned entry that was last changed at the given second
    /// of the Unix clock, or at a time that is not known.
    pub open spec fn modified(seconds: Option<u64>) -> MetadataModel {
        match seconds {
            Some(s) => MetadataModel::unsigned(
                datetime::dos_timestamp(s).0,
                datetime::dos_timestamp(s).1,
            ),
            None => MetadataModel::unsigned(0, 0),
        }
    }
}

impl P4kEntryMetadata {
    /// Metadata of an unsigned entry with the given DOS time and date.
    pub fn unsigned(time: u16, date: u16) -> (r: Self)
        ensures
            r@ == MetadataModel::unsigned(time, date),
    {
        let signature: [u8; 128] = [0u8; 128];
        assert(signature@ =~= bytes::zeros(128));
        P4kEntryMetadata { last_mod_file_time: time, last_mod_file_date: date, signature }
    }

    /// Metadata of an unsigned entry that was last changed at the given second
    /// of the Unix clock, or at a time that is not known.
    pub fn modified(seconds: Option<u64>) -> (r: Self)
        ensures
            r@ == MetadataModel::modified(seconds),
    {
        match seconds {
            Some(s) => {
                let (time, date) = dos_datetime_from_unix_secs(s);
                P4kEntryMetadata::unsigned(time, date)
            },
            None => P4kEntryMetadata::unsigned(0, 0),
        }
    }
}

impl Default for P4kEntryMetadata {
    fn default() -> (r: Self)
        ensures
            r@ == MetadataModel::unsigned(0, 0),
    {
        P4kEntryMetadata::unsigned(0, 0)
    }
}

/// What is wrong with the options.
pub open spec fn options_fault(options: P4kWriterOptions) -> Option<Fault> {
    if !align::is_pow2(options.sector_size as nat) {
        Some(error::invalid_input_fault("sector size must be a non-zero power of two"@))
    } else {
        None
    }
}

/// Check the options.
pub fn validate_options(options: &P4kWriterOptions) -> (r: Result<()>)
    ensures
        match r {
            Ok(_) => options_fault(*options) is None,
            Err(e) => options_fault(*options) == Some(e@),
        },
{
    if !is_power_of_two(options.sector_size) {
        return Err(invalid_input("sector size must be a non-zero power of two"));
    }
    Ok(())
}

} // verus!
