//! Entries that are ready to be written.

use vstd::prelude::*;
use vstd::slice::*;
use vstd::string::*;
use vstd::utf8::*;

use crate::archive::payload;
use crate::bytes::same_bytes;
use crate::crc;
use crate::crc::hash_bytes;
use crate::crypto;
use crate::crypto::DecryptReader;
use crate::decompress;
use crate::decompress::{decode, validate_decompressed_size};
use crate::digest;
use crate::digest::sha256;
use crate::error;
use crate::error::{invalid_input, Error, Fault, Result};
use crate::path;
use crate::path::normalize_archive_name;
use crate::zip::CompressionMethod;

verus! {

/// One entry that is ready to be written.
#[derive(Debug, Clone)]
pub struct BuilderEntry {
    /// Normalized path within the archive.
    pub name: String,
    /// Stored payload bytes.
    pub payload: Vec<u8>,
    /// Size of the data that the payload decodes to.
    pub uncompressed_size: u64,
    /// Compression method.
    pub compression_method: CompressionMethod,
    /// CRC32C of the uncompressed data.
    pub crc32: u32,
    /// DOS last-modified time.
    pub last_mod_file_time: u16,
    /// DOS last-modified date.
    pub last_mod_file_date: u16,
    /// Whether the payload is encrypted.
    pub encrypted: bool,
    /// RSA-1024 signature.
    pub signature: [u8; 128],
    /// SHA-256 of the payload.
    pub sha256: [u8; 32],
}

/// An entry that is ready to be written, as a value.
pub struct StagedModel {
    pub name: Seq<char>,
    pub payload: Seq<u8>,
    pub uncompressed_size: u64,
    pub compression_method: CompressionMethod,
    pub crc32: u32,
    pub last_mod_file_time: u16,
    pub last_mod_file_date: u16,
    pub encrypted: bool,
    pub signature: Seq<u8>,
    pub sha256: Seq<u8>,
}

impl View for BuilderEntry {
    type V = StagedModel;

    open spec fn view(&self) -> StagedModel {
        StagedModel {
            name: self.name@,
            payload: self.payload@,
            uncompressed_size: self.uncompressed_size,
            compression_method: self.compression_method,
            crc32: self.crc32,
            last_mod_file_time: self.last_mod_file_time,
            last_mod_file_date: self.last_mod_file_date,
            encrypted: self.encrypted,
            signature: self.signature@,
            sha256: self.sha256@,
        }
    }
}

/// Whether a name can stand in an archive: it is normal, relative, and free of
/// NUL bytes.
pub open spec fn is_entry_name(name: Seq<char>) -> bool {
    let n = encode_utf8(name);
    &&& path::is_normalized(n, false)
    &&& n.len() > 0
    &&& n[0] != path::SLASH
    &&& !n.contains(0u8)
}

impl StagedModel {
    /// What the payload decodes to.
    pub open spec fn decoded(self) -> std::result::Result<Seq<u8>, Fault> {
        payload::decode_payload_outcome(
            self.payload,
            self.compression_method,
            self.uncompressed_size,
            self.encrypted,
        )
    }

    /// Whether the name can stand in an archive.
    pub open spec fn is_named(self) -> bool {
        is_entry_name(self.name)
    }

    /// Whether the entry can be written: its name can stand in an archive, and
    /// its signature and digest have their sizes.
    pub open spec fn is_formed(self) -> bool {
        &&& self.is_named()
        &&& self.signature.len() == 128
        &&& self.sha256.len() == 32
    }

    /// What holds of every staged entry: it can be written, and its metadata
    /// agree with its payload.
    pub open spec fn is_sound(self) -> bool {
        &&& self.is_formed()
        &&& self.sha256 == digest::sha256_of(self.payload)
        &&& self.decoded() is Ok
        &&& crc::crc32c(self.decoded()->Ok_0) == self.crc32
    }
}

/// The models of a run of staged entries.
pub open spec fn staged_models(entries: Seq<BuilderEntry>) -> Seq<StagedModel> {
    Seq::new(entries.len(), |i: int| entries[i]@)
}

/// What is wrong with the size of a payload.
pub open spec fn size_fault(
    payload_len: nat,
    uncompressed_size: u64,
    method: CompressionMethod,
    encrypted: bool,
) -> Option<Fault> {
    if encrypted && payload_len % 16 != 0 {
        Some(error::invalid_input_fault("encrypted payload must be block-aligned"@))
    } else if method == CompressionMethod::Store && encrypted && payload_len < uncompressed_size {
        Some(
            error::invalid_input_fault(
                "encrypted stored payload must be at least uncompressed_size"@,
            ),
        )
    } else if method == CompressionMethod::Store && !encrypted && payload_len
        != uncompressed_size {
        Some(error::invalid_input_fault("stored payload size must match uncompressed_size"@))
    } else {
        None
    }
}

/// What is wrong with the digest that is given for a payload.
pub open spec fn digest_fault(payload: Seq<u8>, sha256: Seq<u8>) -> Option<Fault> {
    if digest::sha256_of(payload) != sha256 {
        Some(
            error::invalid_input_fault(
                "payload SHA-256 metadata does not match raw payload bytes"@,
            ),
        )
    } else {
        None
    }
}

/// What an encrypted stored payload decodes to that holds so many bytes.
///
/// Blocks are decrypted one by one as bytes are asked for: a last block that is
/// cut short does not matter where the blocks in front of it hold enough.
pub open spec fn unsealed_outcome(payload: Seq<u8>, expected: nat) -> std::result::Result<
    Seq<u8>,
    Fault,
> {
    let plain = crypto::decrypted(payload);
    if expected <= plain.len() {
        Ok(plain.take(expected as int))
    } else if payload.len() % 16 != 0 {
        Err(Fault::Decompression("encrypted data length must be a multiple of 16 bytes"@))
    } else {
        Err(decompress::size_fault("stored"@, plain.len(), expected))
    }
}

/// The bytes whose checksum is given for a stored payload.
pub open spec fn stored_outcome(
    payload: Seq<u8>,
    uncompressed_size: u64,
    encrypted: bool,
) -> std::result::Result<Seq<u8>, Fault> {
    if uncompressed_size > usize::MAX {
        Err(error::invalid_input_fault("uncompressed size overflows usize"@))
    } else if encrypted {
        unsealed_outcome(payload, uncompressed_size as nat)
    } else {
        Ok(payload)
    }
}

/// The bytes whose checksum is given for a payload.
pub open spec fn memory_outcome(
    payload: Seq<u8>,
    uncompressed_len: nat,
    method: CompressionMethod,
    encrypted: bool,
) -> std::result::Result<Seq<u8>, Fault> {
    if method == CompressionMethod::Store && !encrypted && payload.len() != uncompressed_len {
        Err(error::invalid_input_fault("stored payload size must match uncompressed_size"@))
    } else if method == CompressionMethod::Store && encrypted {
        unsealed_outcome(payload, uncompressed_len)
    } else {
        decompress::decode_outcome(
            if encrypted {
                crypto::decrypted(payload)
            } else {
                payload
            },
            method,
            uncompressed_len,
        )
    }
}

/// What is wrong with the checksum that is given for some bytes.
pub open spec fn checksum_fault(
    data: std::result::Result<Seq<u8>, Fault>,
    crc32: u32,
    message: Seq<char>,
) -> Option<Fault> {
    match data {
        Err(fault) => Some(fault),
        Ok(data) => if crc::crc32c(data) != crc32 {
            Some(error::invalid_input_fault(message))
        } else {
            None
        },
    }
}

/// What is wrong with a payload and the metadata given for it.
pub open spec fn metadata_fault(
    payload: Seq<u8>,
    uncompressed_size: u64,
    method: CompressionMethod,
    encrypted: bool,
    crc32: u32,
    sha256: Seq<u8>,
) -> Option<Fault> {
    match digest_fault(payload, sha256) {
        Some(fault) => Some(fault),
        None => if uncompressed_size > usize::MAX {
            Some(error::invalid_input_fault("uncompressed size overflows usize"@))
        } else {
            checksum_fault(
                memory_outcome(payload, uncompressed_size as nat, method, encrypted),
                crc32,
                "payload CRC32C metadata does not match uncompressed bytes"@,
            )
        },
    }
}

/// What is wrong with a new entry.
pub open spec fn entry_fault(name: Seq<char>, e: StagedModel) -> Option<Fault> {
    match path::archive_name_outcome(name) {
        Err(fault) => Some(fault),
        Ok(_) => match size_fault(
            e.payload.len(),
            e.uncompressed_size,
            e.compression_method,
            e.encrypted,
        ) {
            Some(fault) => Some(fault),
            None => match digest_fault(e.payload, e.sha256) {
                Some(fault) => Some(fault),
                None => if e.compression_method == CompressionMethod::Store {
                    checksum_fault(
                        stored_outcome(e.payload, e.uncompressed_size, e.encrypted),
                        e.crc32,
                        "stored payload CRC32C metadata does not match uncompressed bytes"@,
                    )
                } else {
                    None
                },
            },
        },
    }
}

/// Check the size of a payload.
pub fn validate_payload_size(
    payload_len: usize,
    uncompressed_size: u64,
    method: CompressionMethod,
    encrypted: bool,
) -> (r: Result<()>)
    ensures
        match r {
            Ok(_) => size_fault(payload_len as nat, uncompressed_size, method, encrypted) is None,
            Err(e) => size_fault(payload_len as nat, uncompressed_size, method, encrypted) == Some(
                e@,
            ),
        },
{
    if encrypted && payload_len % 16 != 0 {
        return Err(invalid_input("encrypted payload must be block-aligned"));
    }
    if method == CompressionMethod::Store {
        if encrypted {
            if (payload_len as u64) < uncompressed_size {
                return Err(
                    invalid_input("encrypted stored payload must be at least uncompressed_size"),
                );
            }
        } else if payload_len as u64 != uncompressed_size {
            return Err(invalid_input("stored payload size must match uncompressed_size"));
        }
    }
    Ok(())
}

/// Check the digest that is given for a payload.
pub fn validate_payload_digest(payload: &[u8], expected: &[u8; 32]) -> (r: Result<()>)
    ensures
        match r {
            Ok(_) => digest_fault(payload@, expected@) is None,
            Err(e) => digest_fault(payload@, expected@) == Some(e@),
        },
{
    let actual: [u8; 32] = sha256(payload);
    if !same_bytes(actual.as_slice(), expected.as_slice()) {
        return Err(invalid_input("payload SHA-256 metadata does not match raw payload bytes"));
    }
    Ok(())
}

/// Decrypt the first bytes of a stored payload.
fn unseal(payload: &[u8], expected: usize) -> (r: Result<Vec<u8>>)
    ensures
        decompress::bytes_outcome(r) == unsealed_outcome(payload@, expected as nat),
{
    let mut reader = DecryptReader::new(payload);
    let mut out: Vec<u8> = Vec::new();
    match reader.read(&mut out, expected) {
        Ok(n) => {
            validate_decompressed_size("stored", n, expected)?;
            assert(out@ =~= crypto::decrypted(payload@).take(expected as int));
            Ok(out)
        },
        Err(_) => Err(
            Error::Decompression(
                String::from_str("encrypted data length must be a multiple of 16 bytes"),
            ),
        ),
    }
}

/// Compute the checksum of what a payload decodes to.
///
/// An encrypted payload must consist of whole blocks, as a payload of good size
/// does. Of a stored one that is not asked.
pub(crate) fn crc32_memory_payload(
    payload: &[u8],
    uncompressed_len: usize,
    method: CompressionMethod,
    encrypted: bool,
) -> (r: Result<u32>)
    requires
        encrypted && method != CompressionMethod::Store ==> payload@.len() % 16 == 0,
    ensures
        ({
            let data = memory_outcome(payload@, uncompressed_len as nat, method, encrypted);
            match r {
                Ok(crc32) => data is Ok && crc32 == crc::crc32c(data->Ok_0),
                Err(e) => data == Err::<Seq<u8>, Fault>(e@),
            }
        }),
{
    assert(payload.len() == payload@.len());
    if method == CompressionMethod::Store && !encrypted && payload.len() != uncompressed_len {
        return Err(invalid_input("stored payload size must match uncompressed_size"));
    }
    let data: Vec<u8> = if !encrypted {
        decode(payload, method, uncompressed_len)?
    } else if method == CompressionMethod::Store {
        unseal(payload, uncompressed_len)?
    } else {
        let mut plain: Vec<u8> = Vec::new();
        let mut reader = DecryptReader::new(payload);
        reader.read_to_end(&mut plain)?;
        assert(plain@ =~= crypto::decrypted(payload@));
        decode(plain.as_slice(), method, uncompressed_len)?
    };
    Ok(hash_bytes(data.as_slice()))
}

/// Check the checksum that is given for a stored payload.
pub fn validate_stored_crc32_metadata(
    payload: &[u8],
    uncompressed_size: u64,
    encrypted: bool,
    expected_crc32: u32,
) -> (r: Result<()>)
    ensures
        ({
            let fault = checksum_fault(
                stored_outcome(payload@, uncompressed_size, encrypted),
                expected_crc32,
                "stored payload CRC32C metadata does not match uncompressed bytes"@,
            );
            match r {
                Ok(_) => fault is None,
                Err(e) => fault == Some(e@),
            }
        }),
{
    if uncompressed_size > usize::MAX as u64 {
        return Err(invalid_input("uncompressed size overflows usize"));
    }
    let actual: u32 = if encrypted {
        let data: Vec<u8> = unseal(payload, uncompressed_size as usize)?;
        hash_bytes(data.as_slice())
    } else {
        hash_bytes(payload)
    };
    if actual != expected_crc32 {
        return Err(
            invalid_input("stored payload CRC32C metadata does not match uncompressed bytes"),
        );
    }
    Ok(())
}

/// Check the metadata that are given for a payload.
///
/// What is asked of an encrypted payload is asked here too.
pub(crate) fn validate_memory_payload_metadata(
    payload: &[u8],
    uncompressed_size: u64,
    method: CompressionMethod,
    encrypted: bool,
    expected_crc32: u32,
    expected_sha256: &[u8; 32],
) -> (r: Result<()>)
    requires
        encrypted && method != CompressionMethod::Store ==> payload@.len() % 16 == 0,
    ensures
        ({
            let fault = metadata_fault(
                payload@,
                uncompressed_size,
                method,
                encrypted,
                expected_crc32,
                expected_sha256@,
            );
            match r {
                Ok(_) => fault is None,
                Err(e) => fault == Some(e@),
            }
        }),
{
    validate_payload_digest(payload, expected_sha256)?;
    if uncompressed_size > usize::MAX as u64 {
        return Err(invalid_input("uncompressed size overflows usize"));
    }
    let actual: u32 = crc32_memory_payload(
        payload,
        uncompressed_size as usize,
        method,
        encrypted,
    )?;
    if actual != expected_crc32 {
        return Err(invalid_input("payload CRC32C metadata does not match uncompressed bytes"));
    }
    Ok(())
}

/// Of a payload of good size the checksum is given for what it decodes to.
pub proof fn lemma_checked_bytes(
    payload: Seq<u8>,
    uncompressed_size: u64,
    method: CompressionMethod,
    encrypted: bool,
)
    requires
        size_fault(payload.len(), uncompressed_size, method, encrypted) is None,
    ensures
        uncompressed_size <= usize::MAX ==> memory_outcome(
            payload,
            uncompressed_size as nat,
            method,
            encrypted,
        ) == payload::decode_payload_outcome(payload, method, uncompressed_size, encrypted),
        method == CompressionMethod::Store ==> stored_outcome(
            payload,
            uncompressed_size,
            encrypted,
        ) == payload::decode_payload_outcome(payload, method, uncompressed_size, encrypted),
{
    if method == CompressionMethod::Store {
        crypto::lemma_decrypted_length(payload);
        assert(payload.take(payload.len() as int) =~= payload);
    }
}

/// A good entry under its normalized name.
pub open spec fn named(name: Seq<char>, e: StagedModel) -> StagedModel {
    StagedModel { name: decode_utf8(path::archive_name_outcome(name)->Ok_0), ..e }
}

/// Make an entry under the given name.
///
/// `entry` holds everything but the name.
pub fn build_entry_with_metadata(name: &str, entry: BuilderEntry) -> (r: Result<BuilderEntry>)
    ensures
        match r {
            Ok(made) => {
                &&& entry_fault(name@, entry@) is None
                &&& made@ == named(name@, entry@)
                &&& made@.is_named()
            },
            Err(e) => entry_fault(name@, entry@) == Some(e@),
        },
{
    let normal = normalize_archive_name(name)?;
    validate_payload_size(
        entry.payload.len(),
        entry.uncompressed_size,
        entry.compression_method,
        entry.encrypted,
    )?;
    validate_payload_digest(entry.payload.as_slice(), &entry.sha256)?;
    if entry.compression_method == CompressionMethod::Store {
        validate_stored_crc32_metadata(
            entry.payload.as_slice(),
            entry.uncompressed_size,
            entry.encrypted,
            entry.crc32,
        )?;
    }
    proof {
        path::law_archive_name_is_normal(name@);
        encode_utf8_decode_utf8(normal@);
    }
    Ok(BuilderEntry { name: normal, ..entry })
}

} // verus!
