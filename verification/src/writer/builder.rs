//! Gathering of entries for a new archive.

use vstd::prelude::*;
use vstd::seq::*;
use vstd::seq_lib::*;
use vstd::slice::*;
use vstd::string::*;
use vstd::utf8::*;

use crate::compress;
use crate::compress::compress_bytes;
use crate::crc;
use crate::crc::hash_bytes;
use crate::crypto;
use crate::crypto::encrypt;
use crate::decompress;
use crate::digest;
use crate::digest::sha256;
use crate::error::{Error, Fault, Result};
use crate::path;
use crate::writer::options::{MetadataModel, P4kEntryMetadata, P4kWriterOptions};
use crate::writer::staged;
use crate::writer::staged::{
    build_entry_with_metadata, validate_memory_payload_metadata, validate_payload_size,
    BuilderEntry, StagedModel,
};
use crate::zip::CompressionMethod;

verus! {

/// How bytes are stored: nothing is neither compressed nor encrypted.
pub open spec fn storage(
    length: nat,
    method: CompressionMethod,
    encrypted: bool,
) -> (CompressionMethod, bool) {
    if length == 0 {
        (CompressionMethod::Store, false)
    } else {
        (method, encrypted)
    }
}

/// The payload of bytes that are compressed and then encrypted, or why there is none.
pub open spec fn payload_outcome(
    options: P4kWriterOptions,
    data: Seq<u8>,
    method: CompressionMethod,
    encrypted: bool,
) -> std::result::Result<Seq<u8>, Fault> {
    match compress::compress_outcome(data, method, options.zstd_level, options.deflate_level) {
        Err(fault) => Err(fault),
        Ok(packed) => if !encrypted {
            Ok(packed)
        } else if packed.len() != 0 && packed.len() + 15 > usize::MAX {
            Err(Fault::Encryption("encrypted data length overflow"@))
        } else {
            Ok(crypto::encrypted(packed))
        },
    }
}

/// Whether the options have a level for storing that many bytes with the method.
pub open spec fn can_stage(
    options: P4kWriterOptions,
    length: nat,
    method: CompressionMethod,
) -> bool {
    compress::level_fits(storage(length, method, false).0, options.deflate_level)
}

/// The entry that is made of bytes, or why there is none.
pub open spec fn bytes_outcome(
    options: P4kWriterOptions,
    name: Seq<char>,
    data: Seq<u8>,
    method: CompressionMethod,
    encrypted: bool,
    metadata: MetadataModel,
) -> std::result::Result<StagedModel, Fault> {
    let how = storage(data.len(), method, encrypted);
    match payload_outcome(options, data, how.0, how.1) {
        Err(fault) => Err(fault),
        Ok(payload) => match path::archive_name_outcome(name) {
            Err(fault) => Err(fault),
            Ok(normal) => Ok(
                StagedModel {
                    name: decode_utf8(normal),
                    payload,
                    uncompressed_size: data.len() as u64,
                    compression_method: how.0,
                    crc32: crc::crc32c(data),
                    last_mod_file_time: metadata.last_mod_file_time,
                    last_mod_file_date: metadata.last_mod_file_date,
                    encrypted: how.1,
                    signature: metadata.signature,
                    sha256: digest::sha256_of(payload),
                },
            ),
        },
    }
}

/// Compress bytes, and encrypt what comes out.
fn make_payload(
    options: &P4kWriterOptions,
    data: &[u8],
    method: CompressionMethod,
    encrypted: bool,
) -> (r: Result<Vec<u8>>)
    requires
        compress::level_fits(method, options.deflate_level),
    ensures
        decompress::bytes_outcome(r) == payload_outcome(*options, data@, method, encrypted),
        r matches Ok(payload) ==> {
            &&& encrypted ==> payload@.len() % 16 == 0
            &&& method == CompressionMethod::Store ==> payload@.len() >= data@.len()
            &&& method == CompressionMethod::Store && !encrypted ==> payload@ == data@
            &&& decompress::decode_outcome(
                if encrypted {
                    crypto::decrypted(payload@)
                } else {
                    payload@
                },
                method,
                data@.len(),
            ) == Ok::<Seq<u8>, Fault>(data@)
        },
{
    let packed: Vec<u8> = compress_bytes(data, method, options.zstd_level, options.deflate_level)?;
    if !encrypted {
        assert(packed@ + Seq::<u8>::empty() =~= packed@);
        return Ok(packed);
    }
    match encrypt(packed.as_slice()) {
        Ok(payload) => Ok(payload),
        Err(message) => Err(Error::Encryption(String::from_str(message))),
    }
}

/// Make an entry of bytes.
pub fn stage_bytes(
    options: &P4kWriterOptions,
    name: &str,
    data: &[u8],
    method: CompressionMethod,
    encrypted: bool,
    metadata: &P4kEntryMetadata,
) -> (r: Result<BuilderEntry>)
    requires
        can_stage(*options, data@.len(), method),
    ensures
        match r {
            Ok(made) => {
                &&& bytes_outcome(*options, name@, data@, method, encrypted, metadata@) == Ok::<
                    StagedModel,
                    Fault,
                >(made@)
                &&& made@.is_sound()
                &&& made@.decoded() == Ok::<Seq<u8>, Fault>(data@)
            },
            Err(e) => bytes_outcome(*options, name@, data@, method, encrypted, metadata@) == Err::<
                StagedModel,
                Fault,
            >(e@),
        },
{
    assert(data.len() == data@.len());
    let (method, encrypted) = if data.len() == 0 {
        (CompressionMethod::Store, false)
    } else {
        (method, encrypted)
    };
    let payload: Vec<u8> = make_payload(options, data, method, encrypted)?;
    let sha256: [u8; 32] = sha256(payload.as_slice());
    let entry = BuilderEntry {
        name: String::from_str(name),
        payload,
        uncompressed_size: data.len() as u64,
        compression_method: method,
        crc32: hash_bytes(data),
        last_mod_file_time: metadata.last_mod_file_time,
        last_mod_file_date: metadata.last_mod_file_date,
        encrypted,
        signature: metadata.signature,
        sha256,
    };
    build_entry_with_metadata(name, entry)
}

/// The entry that is made of a payload, or why there is none.
pub open spec fn payload_entry_outcome(name: Seq<char>, e: StagedModel) -> std::result::Result<
    StagedModel,
    Fault,
> {
    match staged::size_fault(
        e.payload.len(),
        e.uncompressed_size,
        e.compression_method,
        e.encrypted,
    ) {
        Some(fault) => Err(fault),
        None => match staged::metadata_fault(
            e.payload,
            e.uncompressed_size,
            e.compression_method,
            e.encrypted,
            e.crc32,
            e.sha256,
        ) {
            Some(fault) => Err(fault),
            None => match path::archive_name_outcome(name) {
                Err(fault) => Err(fault),
                Ok(normal) => Ok(StagedModel { name: decode_utf8(normal), ..e }),
            },
        },
    }
}

/// Make an entry of a payload.
///
/// `entry` holds everything but the name.
pub fn stage_payload(name: &str, entry: BuilderEntry) -> (r: Result<BuilderEntry>)
    ensures
        match r {
            Ok(made) => {
                &&& payload_entry_outcome(name@, entry@) == Ok::<StagedModel, Fault>(made@)
                &&& made@.is_sound()
            },
            Err(e) => payload_entry_outcome(name@, entry@) == Err::<StagedModel, Fault>(e@),
        },
{
    validate_payload_size(
        entry.payload.len(),
        entry.uncompressed_size,
        entry.compression_method,
        entry.encrypted,
    )?;
    validate_memory_payload_metadata(
        entry.payload.as_slice(),
        entry.uncompressed_size,
        entry.compression_method,
        entry.encrypted,
        entry.crc32,
        &entry.sha256,
    )?;
    proof {
        staged::lemma_checked_bytes(
            entry@.payload,
            entry@.uncompressed_size,
            entry@.compression_method,
            entry@.encrypted,
        );
    }
    build_entry_with_metadata(name, entry)
}

/// An entry that was staged apart from a builder.
///
/// Workers can compress and encrypt files into staged entries, which are then
/// appended to one builder in the order that the caller chooses.
#[derive(Debug, Clone)]
pub struct P4kStagedEntry {
    entry: BuilderEntry,
}

impl P4kStagedEntry {
    pub(crate) fn of(entry: BuilderEntry) -> (r: Self)
        ensures
            r@ == entry@,
    {
        P4kStagedEntry { entry }
    }
}

impl View for P4kStagedEntry {
    type V = StagedModel;

    closed spec fn view(&self) -> StagedModel {
        self.entry@
    }
}

/// The models of a run of staged entries.
pub open spec fn staged_entries(staged: Seq<P4kStagedEntry>) -> Seq<StagedModel> {
    Seq::new(staged.len(), |i: int| staged[i]@)
}

/// Builder for creating P4K archives.
#[derive(Debug, Clone)]
pub struct P4kBuilder {
    options: P4kWriterOptions,
    entries: Vec<BuilderEntry>,
}

/// What a builder holds.
pub struct BuilderModel {
    pub options: P4kWriterOptions,
    pub entries: Seq<StagedModel>,
}

impl View for P4kBuilder {
    type V = BuilderModel;

    closed spec fn view(&self) -> BuilderModel {
        BuilderModel { options: self.options, entries: staged::staged_models(self.entries@) }
    }
}

impl BuilderModel {
    /// Whether every entry has a name that can stand in an archive, and
    /// metadata that agree with its payload.
    pub open spec fn is_sound(self) -> bool {
        forall|i: int| 0 <= i < self.entries.len() ==> (#[trigger] self.entries[i]).is_sound()
    }

    /// Whether every entry can be written.
    pub open spec fn is_formed(self) -> bool {
        forall|i: int| 0 <= i < self.entries.len() ==> (#[trigger] self.entries[i]).is_formed()
    }

    /// The builder with one more entry.
    pub open spec fn with(self, entry: StagedModel) -> BuilderModel {
        BuilderModel { options: self.options, entries: self.entries.push(entry) }
    }
}

impl Default for P4kBuilder {
    fn default() -> (r: Self)
        ensures
            r@.entries == Seq::<StagedModel>::empty(),
            r@.is_sound(),
            r@.options.is_default(),
    {
        P4kBuilder::new()
    }
}

impl P4kBuilder {
    /// Create a builder with default writer options.
    pub fn new() -> (r: Self)
        ensures
            r@.entries == Seq::<StagedModel>::empty(),
            r@.is_sound(),
            r@.options.is_default(),
    {
        P4kBuilder::with_options(P4kWriterOptions::default())
    }

    /// Create a builder with explicit writer options.
    pub fn with_options(options: P4kWriterOptions) -> (r: Self)
        ensures
            r@ == (BuilderModel { options, entries: Seq::empty() }),
            r@.is_sound(),
    {
        let r = P4kBuilder { options, entries: Vec::new() };
        assert(r@.entries =~= Seq::empty());
        r
    }

    /// Borrow the writer options.
    pub fn options(&self) -> (r: &P4kWriterOptions)
        ensures
            *r == self@.options,
    {
        &self.options
    }

    /// Mutably borrow the writer options.
    pub fn options_mut(&mut self) -> (r: &mut P4kWriterOptions)
        ensures
            *r == old(self)@.options,
            final(self)@ == (BuilderModel { options: *final(r), entries: old(self)@.entries }),
    {
        &mut self.options
    }

    /// Number of entries currently staged.
    pub fn len(&self) -> (n: usize)
        ensures
            n == self@.entries.len(),
    {
        self.entries.len()
    }

    /// Whether no entries are staged.
    pub fn is_empty(&self) -> (r: bool)
        ensures
            r == (self@.entries.len() == 0),
    {
        self.entries.len() == 0
    }

    /// The entries in the order in which they were staged.
    pub fn entries(&self) -> (r: &Vec<BuilderEntry>)
        ensures
            staged::staged_models(r@) == self@.entries,
    {
        &self.entries
    }

    fn push(&mut self, entry: BuilderEntry) -> (r: &mut Self)
        ensures
            r@ == old(self)@.with(entry@),
            old(self)@.is_sound() && entry@.is_sound() ==> r@.is_sound(),
            *final(self) == *final(r),
    {
        let ghost before = self@;
        self.entries.push(entry);
        proof {
            assert(self@.entries =~= before.entries.push(entry@));
        }
        self
    }

    /// Move every staged entry from another builder behind those of this one.
    pub fn append(&mut self, other: Self) -> (r: &mut Self)
        ensures
            r@ == (BuilderModel {
                options: old(self)@.options,
                entries: old(self)@.entries + other@.entries,
            }),
            old(self)@.is_sound() && other@.is_sound() ==> r@.is_sound(),
            *final(self) == *final(r),
    {
        let ghost before = self@;
        let mut more: Vec<BuilderEntry> = other.entries;
        self.entries.append(&mut more);
        proof {
            assert(self@.entries =~= before.entries + other@.entries);
        }
        self
    }

    /// Append staged entries.
    pub fn append_staged(&mut self, staged: Vec<P4kStagedEntry>) -> (r: &mut Self)
        ensures
            r@ == (BuilderModel {
                options: old(self)@.options,
                entries: old(self)@.entries + staged_entries(staged@),
            }),
            old(self)@.is_sound() && (forall|i: int|
                0 <= i < staged@.len() ==> (#[trigger] staged@[i])@.is_sound()) ==> r@.is_sound(),
            *final(self) == *final(r),
    {
        let ghost before = self@;
        let ghost all = staged_entries(staged@);
        assert(all.take(0) =~= Seq::empty());
        assert(before.entries + all.take(0) =~= before.entries);
        for item in iter: staged
            invariant
                iter.seq() == staged@,
                all == staged_entries(staged@),
                self@.options == before.options,
                self@.entries == before.entries + all.take(iter.index() as int),
        {
            let ghost k = iter.index() as int;
            let ghost earlier = self@.entries;
            self.entries.push(item.entry);
            proof {
                assert(all[k] == item@);
                assert(self@.entries =~= earlier.push(item@));
                assert(before.entries + all.take(k + 1) =~= earlier.push(item@));
            }
        }
        proof {
            assert(all.take(all.len() as int) =~= all);
            assert forall|i: int| 0 <= i < self@.entries.len() implies self@.entries[i] == (if i
                < before.entries.len() {
                before.entries[i]
            } else {
                staged@[i - before.entries.len()]@
            }) by {}
        }
        self
    }

    /// Add uncompressed bytes with explicit compression, encryption,
    /// DOS timestamp, and signature metadata.
    pub fn add_bytes_with_entry_metadata(
        &mut self,
        name: &str,
        data: &[u8],
        method: CompressionMethod,
        encrypted: bool,
        metadata: P4kEntryMetadata,
    ) -> (r: Result<&mut Self>)
        requires
            can_stage(old(self)@.options, data@.len(), method),
        ensures
            ({
                let made = bytes_outcome(
                    old(self)@.options,
                    name@,
                    data@,
                    method,
                    encrypted,
                    metadata@,
                );
                match r {
                    Ok(b) => {
                        &&& made is Ok
                        &&& b@ == old(self)@.with(made->Ok_0)
                        &&& b@.entries.last().is_sound()
                        &&& old(self)@.is_sound() ==> b@.is_sound()
                        &&& b@.entries.last().decoded() == Ok::<Seq<u8>, Fault>(data@)
                        &&& *final(self) == *final(b)
                    },
                    Err(e) => {
                        &&& made == Err::<StagedModel, Fault>(e@)
                        &&& *final(self) == *old(self)
                    },
                }
            }),
    {
        let entry = stage_bytes(&self.options, name, data, method, encrypted, &metadata)?;
        Ok(self.push(entry))
    }

    /// Add uncompressed bytes, using the builder's configured compression method.
    pub fn add_bytes(&mut self, name: &str, data: &[u8]) -> (r: Result<&mut Self>)
        requires
            can_stage(old(self)@.options, data@.len(), old(self)@.options.compression),
        ensures
            ({
                let made = bytes_outcome(
                    old(self)@.options,
                    name@,
                    data@,
                    old(self)@.options.compression,
                    false,
                    MetadataModel::unsigned(0, 0),
                );
                match r {
                    Ok(b) => {
                        &&& made is Ok
                        &&& b@ == old(self)@.with(made->Ok_0)
                        &&& b@.entries.last().is_sound()
                        &&& old(self)@.is_sound() ==> b@.is_sound()
                        &&& b@.entries.last().decoded() == Ok::<Seq<u8>, Fault>(data@)
                        &&& *final(self) == *final(b)
                    },
                    Err(e) => {
                        &&& made == Err::<StagedModel, Fault>(e@)
                        &&& *final(self) == *old(self)
                    },
                }
            }),
    {
        let method = self.options.compression;
        self.add_bytes_with_entry_metadata(name, data, method, false, P4kEntryMetadata::default())
    }

    /// Add uncompressed bytes with an explicit compression method.
    pub fn add_bytes_with_method(
        &mut self,
        name: &str,
        data: &[u8],
        method: CompressionMethod,
    ) -> (r: Result<&mut Self>)
        requires
            can_stage(old(self)@.options, data@.len(), method),
        ensures
            ({
                let made = bytes_outcome(
                    old(self)@.options,
                    name@,
                    data@,
                    method,
                    false,
                    MetadataModel::unsigned(0, 0),
                );
                match r {
                    Ok(b) => {
                        &&& made is Ok
                        &&& b@ == old(self)@.with(made->Ok_0)
                        &&& b@.entries.last().is_sound()
                        &&& old(self)@.is_sound() ==> b@.is_sound()
                        &&& b@.entries.last().decoded() == Ok::<Seq<u8>, Fault>(data@)
                        &&& *final(self) == *final(b)
                    },
                    Err(e) => {
                        &&& made == Err::<StagedModel, Fault>(e@)
                        &&& *final(self) == *old(self)
                    },
                }
            }),
    {
        self.add_bytes_with_entry_metadata(name, data, method, false, P4kEntryMetadata::default())
    }

    /// Add uncompressed bytes as an encrypted entry, using the builder's
    /// configured compression method.
    pub fn add_bytes_encrypted(&mut self, name: &str, data: &[u8]) -> (r: Result<&mut Self>)
        requires
            can_stage(old(self)@.options, data@.len(), old(self)@.options.compression),
        ensures
            ({
                let made = bytes_outcome(
                    old(self)@.options,
                    name@,
                    data@,
                    old(self)@.options.compression,
                    true,
                    MetadataModel::unsigned(0, 0),
                );
                match r {
                    Ok(b) => {
                        &&& made is Ok
                        &&& b@ == old(self)@.with(made->Ok_0)
                        &&& b@.entries.last().is_sound()
                        &&& old(self)@.is_sound() ==> b@.is_sound()
                        &&& b@.entries.last().decoded() == Ok::<Seq<u8>, Fault>(data@)
                        &&& *final(self) == *final(b)
                    },
                    Err(e) => {
                        &&& made == Err::<StagedModel, Fault>(e@)
                        &&& *final(self) == *old(self)
                    },
                }
            }),
    {
        let method = self.options.compression;
        self.add_bytes_with_entry_metadata(name, data, method, true, P4kEntryMetadata::default())
    }

    /// Add uncompressed bytes as an encrypted entry with an explicit compression
    /// method.
    pub fn add_bytes_with_method_encrypted(
        &mut self,
        name: &str,
        data: &[u8],
        method: CompressionMethod,
    ) -> (r: Result<&mut Self>)
        requires
            can_stage(old(self)@.options, data@.len(), method),
        ensures
            ({
                let made = bytes_outcome(
                    old(self)@.options,
                    name@,
                    data@,
                    method,
                    true,
                    MetadataModel::unsigned(0, 0),
                );
                match r {
                    Ok(b) => {
                        &&& made is Ok
                        &&& b@ == old(self)@.with(made->Ok_0)
                        &&& b@.entries.last().is_sound()
                        &&& old(self)@.is_sound() ==> b@.is_sound()
                        &&& b@.entries.last().decoded() == Ok::<Seq<u8>, Fault>(data@)
                        &&& *final(self) == *final(b)
                    },
                    Err(e) => {
                        &&& made == Err::<StagedModel, Fault>(e@)
                        &&& *final(self) == *old(self)
                    },
                }
            }),
    {
        self.add_bytes_with_entry_metadata(name, data, method, true, P4kEntryMetadata::default())
    }

    /// Add the contents of a file that was last changed at the given second of
    /// the Unix clock, under `archive_name`.
    pub fn add_file(
        &mut self,
        contents: &[u8],
        modified: Option<u64>,
        archive_name: &str,
    ) -> (r: Result<&mut Self>)
        requires
            can_stage(old(self)@.options, contents@.len(), old(self)@.options.compression),
        ensures
            ({
                let made = bytes_outcome(
                    old(self)@.options,
                    archive_name@,
                    contents@,
                    old(self)@.options.compression,
                    false,
                    MetadataModel::modified(modified),
                );
                match r {
                    Ok(b) => {
                        &&& made is Ok
                        &&& b@ == old(self)@.with(made->Ok_0)
                        &&& b@.entries.last().is_sound()
                        &&& old(self)@.is_sound() ==> b@.is_sound()
                        &&& b@.entries.last().decoded() == Ok::<Seq<u8>, Fault>(contents@)
                        &&& *final(self) == *final(b)
                    },
                    Err(e) => {
                        &&& made == Err::<StagedModel, Fault>(e@)
                        &&& *final(self) == *old(self)
                    },
                }
            }),
    {
        self.add_file_with_entry_metadata(
            contents,
            archive_name,
            false,
            P4kEntryMetadata::modified(modified),
        )
    }

    /// Add the contents of a file as an encrypted entry.
    pub fn add_file_encrypted(
        &mut self,
        contents: &[u8],
        modified: Option<u64>,
        archive_name: &str,
    ) -> (r: Result<&mut Self>)
        requires
            can_stage(old(self)@.options, contents@.len(), old(self)@.options.compression),
        ensures
            ({
                let made = bytes_outcome(
                    old(self)@.options,
                    archive_name@,
                    contents@,
                    old(self)@.options.compression,
                    true,
                    MetadataModel::modified(modified),
                );
                match r {
                    Ok(b) => {
                        &&& made is Ok
                        &&& b@ == old(self)@.with(made->Ok_0)
                        &&& b@.entries.last().is_sound()
                        &&& old(self)@.is_sound() ==> b@.is_sound()
                        &&& b@.entries.last().decoded() == Ok::<Seq<u8>, Fault>(contents@)
                        &&& *final(self) == *final(b)
                    },
                    Err(e) => {
                        &&& made == Err::<StagedModel, Fault>(e@)
                        &&& *final(self) == *old(self)
                    },
                }
            }),
    {
        self.add_file_with_entry_metadata(
            contents,
            archive_name,
            true,
            P4kEntryMetadata::modified(modified),
        )
    }

    /// Add the contents of a file with explicit encryption, DOS timestamp, and
    /// signature metadata.
    ///
    /// Compression still follows the options.
    pub fn add_file_with_entry_metadata(
        &mut self,
        contents: &[u8],
        archive_name: &str,
        encrypted: bool,
        metadata: P4kEntryMetadata,
    ) -> (r: Result<&mut Self>)
        requires
            can_stage(old(self)@.options, contents@.len(), old(self)@.options.compression),
        ensures
            ({
                let made = bytes_outcome(
                    old(self)@.options,
                    archive_name@,
                    contents@,
                    old(self)@.options.compression,
                    encrypted,
                    metadata@,
                );
                match r {
                    Ok(b) => {
                        &&& made is Ok
                        &&& b@ == old(self)@.with(made->Ok_0)
                        &&& b@.entries.last().is_sound()
                        &&& old(self)@.is_sound() ==> b@.is_sound()
                        &&& b@.entries.last().decoded() == Ok::<Seq<u8>, Fault>(contents@)
                        &&& *final(self) == *final(b)
                    },
                    Err(e) => {
                        &&& made == Err::<StagedModel, Fault>(e@)
                        &&& *final(self) == *old(self)
                    },
                }
            }),
    {
        let method = self.options.compression;
        self.add_bytes_with_entry_metadata(archive_name, contents, method, encrypted, metadata)
    }

    /// Add already-compressed payload bytes with all metadata supplied by the
    /// caller.
    pub fn add_precompressed_with_metadata(
        &mut self,
        name: &str,
        payload: Vec<u8>,
        uncompressed_size: u64,
        method: CompressionMethod,
        crc32: u32,
        last_mod_file_time: u16,
        last_mod_file_date: u16,
        encrypted: bool,
        signature: [u8; 128],
        sha256: [u8; 32],
    ) -> (r: Result<&mut Self>)
        ensures
            ({
                let made = payload_entry_outcome(
                    name@,
                    StagedModel {
                        name: name@,
                        payload: payload@,
                        uncompressed_size,
                        compression_method: method,
                        crc32,
                        last_mod_file_time,
                        last_mod_file_date,
                        encrypted,
                        signature: signature@,
                        sha256: sha256@,
                    },
                );
                match r {
                    Ok(b) => {
                        &&& made is Ok
                        &&& b@ == old(self)@.with(made->Ok_0)
                        &&& b@.entries.last().is_sound()
                        &&& old(self)@.is_sound() ==> b@.is_sound()
                        &&& *final(self) == *final(b)
                    },
                    Err(e) => {
                        &&& made == Err::<StagedModel, Fault>(e@)
                        &&& *final(self) == *old(self)
                    },
                }
            }),
    {
        let entry = BuilderEntry {
            name: String::from_str(name),
            payload,
            uncompressed_size,
            compression_method: method,
            crc32,
            last_mod_file_time,
            last_mod_file_date,
            encrypted,
            signature,
            sha256,
        };
        let made = stage_payload(name, entry)?;
        Ok(self.push(made))
    }

    /// Add already-compressed payload bytes.
    pub fn add_precompressed(
        &mut self,
        name: &str,
        payload: Vec<u8>,
        uncompressed_size: u64,
        method: CompressionMethod,
        crc32: u32,
        encrypted: bool,
        signature: [u8; 128],
    ) -> (r: Result<&mut Self>)
        ensures
            ({
                let made = payload_entry_outcome(
                    name@,
                    StagedModel {
                        name: name@,
                        payload: payload@,
                        uncompressed_size,
                        compression_method: method,
                        crc32,
                        last_mod_file_time: 0,
                        last_mod_file_date: 0,
                        encrypted,
                        signature: signature@,
                        sha256: digest::sha256_of(payload@),
                    },
                );
                match r {
                    Ok(b) => {
                        &&& made is Ok
                        &&& b@ == old(self)@.with(made->Ok_0)
                        &&& b@.entries.last().is_sound()
                        &&& old(self)@.is_sound() ==> b@.is_sound()
                        &&& *final(self) == *final(b)
                    },
                    Err(e) => {
                        &&& made == Err::<StagedModel, Fault>(e@)
                        &&& *final(self) == *old(self)
                    },
                }
            }),
    {
        let digest: [u8; 32] = sha256(payload.as_slice());
        self.add_precompressed_with_metadata(
            name,
            payload,
            uncompressed_size,
            method,
            crc32,
            0,
            0,
            encrypted,
            signature,
            digest,
        )
    }

    /// Stage the contents of a file that was last changed at the given second
    /// of the Unix clock, using explicit writer options.
    ///
    /// The entry is not tied to a builder and can be made on a worker thread.
    pub fn stage_file_with_options(
        options: &P4kWriterOptions,
        contents: &[u8],
        modified: Option<u64>,
        archive_name: &str,
        encrypted: bool,
    ) -> (r: Result<P4kStagedEntry>)
        requires
            can_stage(*options, contents@.len(), options.compression),
        ensures
            match r {
                Ok(made) => {
                    &&& bytes_outcome(
                        *options,
                        archive_name@,
                        contents@,
                        options.compression,
                        encrypted,
                        MetadataModel::modified(modified),
                    ) == Ok::<StagedModel, Fault>(made@)
                    &&& made@.is_sound()
                    &&& made@.decoded() == Ok::<Seq<u8>, Fault>(contents@)
                },
                Err(e) => bytes_outcome(
                    *options,
                    archive_name@,
                    contents@,
                    options.compression,
                    encrypted,
                    MetadataModel::modified(modified),
                ) == Err::<StagedModel, Fault>(e@),
            },
    {
        let metadata = P4kEntryMetadata::modified(modified);
        let entry = stage_bytes(
            options,
            archive_name,
            contents,
            options.compression,
            encrypted,
            &metadata,
        )?;
        Ok(P4kStagedEntry { entry })
    }
}

} // verus!
