//! Files that are read only when an archive is written.

use vstd::prelude::*;
use vstd::seq::*;
use vstd::seq_lib::*;
use vstd::slice::*;
use vstd::string::*;
use vstd::utf8::*;

use crate::crc;
use crate::crc::hash_bytes;
use crate::digest;
use crate::digest::sha256;
use crate::error;
use crate::error::{invalid_input, Fault, Result};
use crate::path;
use crate::path::normalize_archive_name;
use crate::writer::builder;
use crate::writer::builder::P4kStagedEntry;
use crate::writer::options::{MetadataModel, P4kEntryMetadata, P4kWriterOptions};
use crate::writer::staged;
use crate::writer::staged::{BuilderEntry, StagedModel};
use crate::zip::CompressionMethod;

verus! {

/// Whether a file is stored as it is, so that it need not be read before the
/// archive is written.
pub open spec fn is_deferred(options: P4kWriterOptions, length: u64, encrypted: bool) -> bool {
    length == 0 || (options.compression == CompressionMethod::Store && !encrypted)
}

/// Tell whether a file is stored as it is.
pub fn defers_file(options: &P4kWriterOptions, length: u64, encrypted: bool) -> (r: bool)
    ensures
        r == is_deferred(*options, length, encrypted),
{
    length == 0 || (options.compression == CompressionMethod::Store && !encrypted)
}

/// A file that is stored as it is, and read when the archive is written.
#[derive(Debug, Clone)]
pub struct DeferredFile {
    name: String,
    path: String,
    length: u64,
    metadata: P4kEntryMetadata,
}

/// What is known of a file before it is read.
pub struct DeferredModel {
    pub name: Seq<char>,
    pub path: Seq<char>,
    pub length: u64,
    pub metadata: MetadataModel,
}

impl View for DeferredFile {
    type V = DeferredModel;

    closed spec fn view(&self) -> DeferredModel {
        DeferredModel {
            name: self.name@,
            path: self.path@,
            length: self.length,
            metadata: self.metadata@,
        }
    }
}

impl DeferredModel {
    /// The entry that the file gives if it is found with these bytes.
    pub open spec fn entry(self, contents: Seq<u8>) -> StagedModel {
        StagedModel {
            name: self.name,
            payload: contents,
            uncompressed_size: contents.len() as u64,
            compression_method: CompressionMethod::Store,
            crc32: crc::crc32c(contents),
            last_mod_file_time: self.metadata.last_mod_file_time,
            last_mod_file_date: self.metadata.last_mod_file_date,
            encrypted: false,
            signature: self.metadata.signature,
            sha256: digest::sha256_of(contents),
        }
    }

    /// What is wrong with a file that is found with another length.
    pub open spec fn changed_fault(self) -> Fault {
        error::invalid_input_fault("staged file changed before archive write: "@ + self.path)
    }
}

impl DeferredFile {
    /// Take down a file at `path`, which has the given length, as an entry
    /// under the given name.
    pub fn new(path: &str, archive_name: &str, length: u64, metadata: P4kEntryMetadata) -> (r: Result<
        Self,
    >)
        ensures
            match r {
                Ok(file) => {
                    &&& path::archive_name_outcome(archive_name@) is Ok
                    &&& file@ == (DeferredModel {
                        name: decode_utf8(path::archive_name_outcome(archive_name@)->Ok_0),
                        path: path@,
                        length,
                        metadata: metadata@,
                    })
                    &&& staged::is_entry_name(file@.name)
                },
                Err(e) => path::archive_name_outcome(archive_name@) == Err::<Seq<u8>, Fault>(e@),
            },
    {
        let name = normalize_archive_name(archive_name)?;
        proof {
            path::law_archive_name_is_normal(archive_name@);
            encode_utf8_decode_utf8(name@);
        }
        Ok(DeferredFile { name, path: String::from_str(path), length, metadata })
    }

    /// Length of the file in bytes.
    pub fn length(&self) -> (r: u64)
        ensures
            r == self@.length,
    {
        self.length
    }

    /// Make the entry of the bytes that the file is found with.
    ///
    /// A file that has another length than before was changed, and is refused.
    pub fn resolve(&self, contents: &[u8]) -> (r: Result<P4kStagedEntry>)
        ensures
            match r {
                Ok(made) => {
                    &&& contents@.len() == self@.length
                    &&& made@ == self@.entry(contents@)
                    &&& made@.decoded() == Ok::<Seq<u8>, Fault>(contents@)
                    &&& staged::is_entry_name(self@.name) ==> made@.is_sound()
                },
                Err(e) => {
                    &&& contents@.len() != self@.length
                    &&& e@ == self@.changed_fault()
                },
            },
    {
        assert(contents.len() == contents@.len());
        if contents.len() as u64 != self.length {
            return Err(
                invalid_input(
                    String::from_str("staged file changed before archive write: ").concat(
                        self.path.as_str(),
                    ).as_str(),
                ),
            );
        }
        proof {
            assert(contents@.take(contents@.len() as int) =~= contents@);
        }
        let entry = BuilderEntry {
            name: self.name.clone(),
            payload: slice_to_vec(contents),
            uncompressed_size: contents.len() as u64,
            compression_method: CompressionMethod::Store,
            crc32: hash_bytes(contents),
            last_mod_file_time: self.metadata.last_mod_file_time,
            last_mod_file_date: self.metadata.last_mod_file_date,
            encrypted: false,
            signature: self.metadata.signature,
            sha256: sha256(contents),
        };
        Ok(P4kStagedEntry::of(entry))
    }
}

/// A file that is read only when the archive is written, and has not changed
/// until then, gives the entry that it would have given when it was added.
pub proof fn law_deferred_as_staged(
    options: P4kWriterOptions,
    archive_name: Seq<char>,
    path: Seq<char>,
    metadata: MetadataModel,
    encrypted: bool,
    contents: Seq<u8>,
)
    requires
        contents.len() <= u64::MAX,
        is_deferred(options, contents.len() as u64, encrypted),
        path::archive_name_outcome(archive_name) is Ok,
    ensures
        ({
            let file = DeferredModel {
                name: decode_utf8(path::archive_name_outcome(archive_name)->Ok_0),
                path,
                length: contents.len() as u64,
                metadata,
            };
            builder::bytes_outcome(
                options,
                archive_name,
                contents,
                options.compression,
                encrypted,
                metadata,
            ) == Ok::<StagedModel, Fault>(file.entry(contents))
        }),
{
}

} // verus!
