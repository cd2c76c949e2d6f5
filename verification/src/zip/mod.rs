//! ZIP format structures.
//!
//! The low-level records of v1 and v2 archives. All numbers are
//! little-endian and densely packed.

pub mod central_dir;
pub mod central_dir_v2;
pub mod eocd;
pub mod eocd_v2;
pub mod local;

use vstd::prelude::*;

pub use central_dir::{
    CentralDirectoryHeader, P4kEncryptionExtraField, P4kSha256ExtraField, P4kSignatureExtraField,
    P4kZip64ExtraField,
};
pub use central_dir_v2::{
    CentralDirectoryHeaderV2, CDR_V2_ENTRY_SIZE, CDR_V2_OFFSET_TO_FILENAME_OFFSET,
};
pub use eocd::{Eocd64Locator, Eocd64Record, EocdRecord};
pub use eocd_v2::{Eocd2Record, EOCD_V2_MAGIC, EOCD_V2_SIZE, EOCD_V2_VERSION};
pub use local::LocalFileHeader;

verus! {

/// Compression methods used in P4K archives.
#[derive(Debug, Clone, Copy, PartialEq, Eq, Structural)]
pub enum CompressionMethod {
    /// No compression (stored).
    Store,
    /// DEFLATE compression.
    Deflate,
    /// Zstandard compression using the ZIP APPNOTE method id.
    ZstdDeprecated,
    /// Zstandard compression (Star Citizen custom).
    Zstd,
    /// Xbox/zlib-wrapped DEFLATE compression.
    DeflateZlib,
}

/// The method with the given id, if there is one.
pub open spec fn method_of(id: u16) -> Option<CompressionMethod> {
    if id == 0 {
        Some(CompressionMethod::Store)
    } else if id == 8 {
        Some(CompressionMethod::Deflate)
    } else if id == 93 {
        Some(CompressionMethod::ZstdDeprecated)
    } else if id == 100 {
        Some(CompressionMethod::Zstd)
    } else if id == 101 {
        Some(CompressionMethod::DeflateZlib)
    } else {
        None
    }
}

impl CompressionMethod {
    /// The number that stands for the method on disk.
    pub open spec fn spec_id(self) -> u16 {
        match self {
            CompressionMethod::Store => 0,
            CompressionMethod::Deflate => 8,
            CompressionMethod::ZstdDeprecated => 93,
            CompressionMethod::Zstd => 100,
            CompressionMethod::DeflateZlib => 101,
        }
    }

    /// The number that stands for the method on disk.
    #[verifier::when_used_as_spec(spec_id)]
    pub fn id(self) -> (r: u16)
        ensures
            r == self.spec_id(),
    {
        match self {
            CompressionMethod::Store => 0,
            CompressionMethod::Deflate => 8,
            CompressionMethod::ZstdDeprecated => 93,
            CompressionMethod::Zstd => 100,
            CompressionMethod::DeflateZlib => 101,
        }
    }

    /// The method with the given id, or the id itself where there is none.
    pub fn try_from(value: u16) -> (r: std::result::Result<CompressionMethod, u16>)
        ensures
            r == (match method_of(value) {
                Some(method) => Ok::<CompressionMethod, u16>(method),
                None => Err::<CompressionMethod, u16>(value),
            }),
    {
        match value {
            0 => Ok(CompressionMethod::Store),
            8 => Ok(CompressionMethod::Deflate),
            93 => Ok(CompressionMethod::ZstdDeprecated),
            100 => Ok(CompressionMethod::Zstd),
            101 => Ok(CompressionMethod::DeflateZlib),
            other => Err(other),
        }
    }

    /// The id of a method names that method.
    pub proof fn law_method_of_id(self)
        ensures
            method_of(self.id()) == Some(self),
    {
    }
}

} // verus!
