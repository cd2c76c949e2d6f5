//! Payloads of an opened archive: where they stand and what they decode to.

use vstd::prelude::*;
use vstd::seq::*;
use vstd::seq_lib::*;
use vstd::slice::*;
use vstd::string::*;

use crate::align;
use crate::align::v1_local_record_size_from_name_len;
use crate::archive::local;
use crate::archive::local::{
    checked_local_record_size, local_payload_offset, read_local_header, zip_local_payload_offset,
};
use crate::archive::model::{EntryModel, P4kEntryRef};
use crate::archive::placement;
use crate::archive::placement::V1PayloadPlacement;
use crate::bytes::same_bytes;
use crate::crypto;
use crate::crypto::DecryptReader;
use crate::decompress;
use crate::decompress::decode;
use crate::digest;
use crate::digest::{is_digest_given, sha256};
use crate::error;
use crate::error::{invalid_input, unexpected_eof, Error, Fault, Result};
use crate::text;
use crate::text::dec;
use crate::zip::{CompressionMethod, LocalFileHeader};

verus! {

/// What is wrong with a range of the file.
pub open spec fn range_fault(
    data: Seq<u8>,
    offset: u64,
    size: u64,
    eof_message: Seq<char>,
) -> Option<Fault> {
    if offset > usize::MAX {
        Some(error::invalid_input_fault("payload offset overflows usize"@))
    } else if size > usize::MAX {
        Some(error::invalid_input_fault("payload size overflows usize"@))
    } else if offset + size > usize::MAX {
        Some(error::invalid_input_fault("payload range overflow"@))
    } else if offset + size > data.len() {
        Some(error::eof_fault(eof_message))
    } else {
        None
    }
}

/// Whether a range lies in the file.
pub open spec fn range_fits(data: Seq<u8>, offset: u64, size: u64) -> bool {
    offset + size <= data.len()
}

/// A range of the file.
pub fn slice_range<'a>(data: &'a [u8], offset: u64, size: u64, eof_message: &str) -> (r: Result<
    &'a [u8],
>)
    ensures
        match r {
            Ok(part) => {
                &&& range_fault(data@, offset, size, eof_message@) is None
                &&& range_fits(data@, offset, size)
                &&& part@ == data@.subrange(offset as int, offset + size)
            },
            Err(e) => range_fault(data@, offset, size, eof_message@) == Some(e@),
        },
{
    assert(data.len() == data@.len());
    if offset > usize::MAX as u64 {
        return Err(invalid_input("payload offset overflows usize"));
    }
    if size > usize::MAX as u64 {
        return Err(invalid_input("payload size overflows usize"));
    }
    let start: usize = offset as usize;
    let end: usize = match start.checked_add(size as usize) {
        Some(v) => v,
        None => return Err(invalid_input("payload range overflow")),
    };
    if end > data.len() {
        return Err(unexpected_eof(eof_message));
    }
    Ok(slice_subrange(data, start, end))
}

/// Check that a range lies in the file.
pub fn payload_range_fits(data: &[u8], offset: u64, size: u64) -> (r: bool)
    ensures
        r == range_fits(data@, offset, size),
{
    assert(data.len() == data@.len());
    let length: u64 = data.len() as u64;
    offset <= length && size <= length - offset
}

/// Where the payload of an entry stands: where its digest says, else where
/// its header says; and whether its digest was found to match.
pub open spec fn selected(
    data: Seq<u8>,
    at: int,
    header: LocalFileHeader,
    compressed_size: u64,
    sha256: Seq<u8>,
) -> std::result::Result<(usize, bool), Fault> {
    match local::zip_payload_outcome(at, header) {
        Err(fault) => Err(fault),
        Ok(zip) => match local::payload_outcome(at, header) {
            Err(fault) => Err(fault),
            Ok(aligned) => if compressed_size == 0 || !digest::digest_given(sha256) {
                Ok((aligned, false))
            } else if compressed_size > usize::MAX {
                Err(error::invalid_input_fault("compressed size overflows usize"@))
            } else if placement::digest_matches(data, zip as int, compressed_size, sha256) {
                Ok((zip, true))
            } else if placement::digest_matches(data, aligned as int, compressed_size, sha256) {
                Ok((aligned, true))
            } else {
                Ok((aligned, false))
            },
        },
    }
}

fn digest_at(data: &[u8], offset: usize, length: usize, expected: &[u8; 32]) -> (r: bool)
    requires
        length <= u64::MAX,
    ensures
        r == placement::digest_matches(data@, offset as int, length as u64, expected@),
{
    assert(data.len() == data@.len());
    if offset > data.len() || length > data.len() - offset {
        return false;
    }
    let actual = sha256(slice_subrange(data, offset, offset + length));
    same_bytes(actual.as_slice(), expected.as_slice())
}

/// Select where the payload of an entry stands.
pub fn select_v1_payload_offset(
    data: &[u8],
    local_header_offset: usize,
    header: &LocalFileHeader,
    compressed_size: u64,
    expected_sha256: &[u8; 32],
) -> (r: Result<(usize, bool)>)
    ensures
        error::outcome(r) == selected(
            data@,
            local_header_offset as int,
            *header,
            compressed_size,
            expected_sha256@,
        ),
{
    let zip: usize = zip_local_payload_offset(local_header_offset, header)?;
    let aligned: usize = local_payload_offset(local_header_offset, header)?;
    if compressed_size == 0 || !is_digest_given(expected_sha256) {
        return Ok((aligned, false));
    }
    if compressed_size > usize::MAX as u64 {
        return Err(invalid_input("compressed size overflows usize"));
    }
    let length: usize = compressed_size as usize;
    if digest_at(data, zip, length, expected_sha256) {
        return Ok((zip, true));
    }
    if digest_at(data, aligned, length, expected_sha256) {
        return Ok((aligned, true));
    }
    Ok((aligned, false))
}

/// Where the payload of a v1 entry stands if payloads are placed as the
/// archive was found to place them.
pub open spec fn preferred(
    data: Seq<u8>,
    sector_size: Option<u64>,
    found: V1PayloadPlacement,
    e: EntryModel,
) -> Option<usize> {
    let at = e.local_header_offset as int;
    let header = local::header_at(data, at);
    match found {
        V1PayloadPlacement::Unknown => None,
        V1PayloadPlacement::ZipLocalSector => match sector_size {
            Some(size) => if at + size <= u64::MAX && at + size <= usize::MAX {
                Some((at + size) as usize)
            } else {
                None
            },
            None => None,
        },
        V1PayloadPlacement::ZipLocal => match local::zip_payload_outcome(at, header) {
            Ok(offset) => Some(offset),
            Err(_) => None,
        },
        V1PayloadPlacement::AlignedRecord => match sector_size {
            Some(size) => {
                let record = align::v1_record_size(header.file_name_length as int, size as int);
                if align::is_pow2(size as nat) && header.file_name_length + size + 0x3D + size - 1
                    <= u64::MAX && at + record <= u64::MAX && at + record <= usize::MAX {
                    Some((at + record) as usize)
                } else {
                    None
                }
            },
            None => None,
        },
    }
}

fn preferred_v1_payload_offset(
    data: &[u8],
    sector_size: Option<u64>,
    found: V1PayloadPlacement,
    entry: &P4kEntryRef<'_>,
    header: &LocalFileHeader,
) -> (r: Option<usize>)
    requires
        entry.local_header_offset <= usize::MAX,
        *header == local::header_at(data@, entry.local_header_offset as int),
    ensures
        r == preferred(data@, sector_size, found, entry@),
{
    let offset: u64 = match found {
        V1PayloadPlacement::Unknown => return None,
        V1PayloadPlacement::ZipLocalSector => match sector_size {
            Some(size) => match entry.local_header_offset.checked_add(size) {
                Some(offset) => offset,
                None => return None,
            },
            None => return None,
        },
        V1PayloadPlacement::ZipLocal => match zip_local_payload_offset(
            entry.local_header_offset as usize,
            header,
        ) {
            Ok(offset) => return Some(offset),
            Err(_) => return None,
        },
        V1PayloadPlacement::AlignedRecord => match sector_size {
            Some(size) => match v1_local_record_size_from_name_len(
                header.file_name_length as u64,
                size,
            ) {
                Some(record) => match entry.local_header_offset.checked_add(record) {
                    Some(offset) => offset,
                    None => return None,
                },
                None => return None,
            },
            None => return None,
        },
    };
    if offset > usize::MAX as u64 {
        return None;
    }
    Some(offset as usize)
}

/// Where a payload starts, how far behind its header, and whether its digest
/// was found to match.
#[derive(Debug, Clone, Copy)]
pub struct PayloadLocation {
    pub offset: u64,
    pub local_record_size: u64,
    pub sha256_verified: bool,
}

/// A location whose payload starts at `offset`, if the payload lies in the file.
pub open spec fn located(data: Seq<u8>, e: EntryModel, offset: usize, verified: bool) -> std::result::Result<
    PayloadLocation,
    Fault,
> {
    match range_fault(data, offset as u64, e.compressed_size, "entry data out of bounds"@) {
        Some(fault) => Err(fault),
        None => match local::record_size_between(e.local_header_offset as int, offset as int) {
            Err(fault) => Err(fault),
            Ok(size) => Ok(
                PayloadLocation {
                    offset: offset as u64,
                    local_record_size: size,
                    sha256_verified: verified,
                },
            ),
        },
    }
}

/// Where the payload of a v1 entry stands, or what is wrong with the entry.
pub open spec fn location_outcome(
    data: Seq<u8>,
    sector_size: Option<u64>,
    found: V1PayloadPlacement,
    e: EntryModel,
) -> std::result::Result<PayloadLocation, Fault> {
    let at = e.local_header_offset as int;
    let choice = preferred(data, sector_size, found, e);
    match local::header_fault(data, sector_size, e) {
        Some(fault) => Err(fault),
        None => if e.compressed_size != 0 && choice is Some {
            located(data, e, choice->Some_0, false)
        } else {
            match selected(data, at, local::header_at(data, at), e.compressed_size, e.sha256) {
                Err(fault) => Err(fault),
                Ok((offset, verified)) => located(data, e, offset, verified),
            }
        },
    }
}

fn locate(data: &[u8], entry: &P4kEntryRef<'_>, offset: usize, verified: bool) -> (r: Result<
    PayloadLocation,
>)
    requires
        entry.local_header_offset <= usize::MAX,
    ensures
        error::outcome(r) == located(data@, entry@, offset, verified),
{
    slice_range(data, offset as u64, entry.compressed_size, "entry data out of bounds")?;
    let size: u64 = checked_local_record_size(entry.local_header_offset as usize, offset)?;
    Ok(
        PayloadLocation {
            offset: offset as u64,
            local_record_size: size,
            sha256_verified: verified,
        },
    )
}

/// Find where the payload of a v1 entry stands.
pub fn payload_location_by_local_header(
    data: &[u8],
    sector_size: Option<u64>,
    found: V1PayloadPlacement,
    entry: &P4kEntryRef<'_>,
) -> (r: Result<PayloadLocation>)
    ensures
        error::outcome(r) == location_outcome(data@, sector_size, found, entry@),
{
    assert(data.len() == data@.len());
    let header = read_local_header(data, sector_size, entry)?;
    if entry.compressed_size != 0 {
        if let Some(offset) = preferred_v1_payload_offset(
            data,
            sector_size,
            found,
            entry,
            &header,
        ) {
            return locate(data, entry, offset, false);
        }
    }
    let (offset, verified) = select_v1_payload_offset(
        data,
        entry.local_header_offset as usize,
        &header,
        entry.compressed_size,
        &entry.sha256,
    )?;
    locate(data, entry, offset, verified)
}

/// What a stored payload decodes to, or why it does not.
pub open spec fn decode_payload_outcome(
    payload: Seq<u8>,
    method: CompressionMethod,
    uncompressed_size: u64,
    encrypted: bool,
) -> std::result::Result<Seq<u8>, Fault> {
    if uncompressed_size > usize::MAX {
        Err(error::invalid_input_fault("uncompressed size overflows usize"@))
    } else if method == CompressionMethod::Store && !encrypted && payload.len()
        != uncompressed_size {
        Err(
            Fault::Decompression(
                "stored entry size mismatch: expected "@ + text::dec_text(uncompressed_size as nat)
                    + ", got "@ + text::dec_text(payload.len()),
            ),
        )
    } else if encrypted && payload.len() % 16 != 0 {
        Err(Fault::Decryption("data length must be a multiple of 16 bytes"@))
    } else {
        decompress::decode_outcome(
            if encrypted {
                crypto::decrypted(payload)
            } else {
                payload
            },
            method,
            uncompressed_size as nat,
        )
    }
}

/// Decode a stored payload.
pub fn decode_payload_to_vec(
    payload: &[u8],
    method: CompressionMethod,
    uncompressed_size: u64,
    encrypted: bool,
) -> (r: Result<Vec<u8>>)
    ensures
        decompress::bytes_outcome(r) == decode_payload_outcome(
            payload@,
            method,
            uncompressed_size,
            encrypted,
        ),
{
    if uncompressed_size > usize::MAX as u64 {
        return Err(invalid_input("uncompressed size overflows usize"));
    }
    let expected_size: usize = uncompressed_size as usize;
    if method == CompressionMethod::Store && !encrypted && payload.len() != expected_size {
        return Err(
            Error::Decompression(
                String::from_str("stored entry size mismatch: expected ").concat(
                    dec(uncompressed_size).as_str(),
                ).concat(", got ").concat(dec(payload.len() as u64).as_str()),
            ),
        );
    }
    if encrypted {
        if payload.len() % 16 != 0 {
            return Err(
                Error::Decryption(String::from_str("data length must be a multiple of 16 bytes")),
            );
        }
        let mut plain: Vec<u8> = Vec::new();
        let mut reader = DecryptReader::new(payload);
        reader.read_to_end(&mut plain)?;
        assert(plain@ =~= crypto::decrypted(payload@));
        decode(plain.as_slice(), method, expected_size)
    } else {
        decode(payload, method, expected_size)
    }
}

} // verus!
