//! Where the payload of an entry of a version 1 file is found.
use vstd::prelude::*;
use vstd::utf8::*;

use crate::align;
use crate::archive::local;
use crate::archive::model::EntryModel;
use crate::archive::payload;
use crate::archive::payload::PayloadLocation;
use crate::archive::placement::V1PayloadPlacement;
use crate::archive::reader::ArchiveModel;
use crate::archive::reader_laws;
use crate::digest;
use crate::bytes;
use crate::error::Fault;
use crate::path;

verus! {

/// A local file header stands at `at`, under one of its two signatures.
pub open spec fn has_local_header(data: Seq<u8>, at: int) -> bool {
    &&& at + 30 <= data.len()
    &&& bytes::le32(data, at) == 0x0403_4B50 || bytes::le32(data, at) == 0x1403_4B50
}

/// How long the local file header at `at` is, with its name and its extra fields.
pub open spec fn local_span(data: Seq<u8>, at: int) -> int {
    30 + bytes::le16(data, at + 26) + bytes::le16(data, at + 28)
}

/// How far behind `at` the payload of an aligned record starts: behind the header
/// where that is a plain one, and behind the name and a sector more, up to the next
/// sector, where it fills one.
pub open spec fn local_record_size(data: Seq<u8>, at: int) -> int {
    let span = local_span(data, at);
    if bytes::le32(data, at + 18) == 0xFFFF_FFFF && bytes::le32(data, at + 22) == 0xFFFF_FFFF
        && bytes::le16(data, at + 28) >= 36 && align::is_pow2(span as nat) {
        align::aligned_up(bytes::le16(data, at + 26) + span + 61, span)
    } else {
        span
    }
}

/// The local file header of an entry agrees with it: it names the entry, gives its
/// checksum, and its ZIP64 field gives the sizes and nothing or the offset.
pub open spec fn has_own_header(data: Seq<u8>, sector: Option<u64>, e: EntryModel) -> bool {
    let at = e.local_header_offset as int;
    let n = bytes::le16(data, at + 26);
    let extra = bytes::le16(data, at + 28);
    let x = at + 30 + n;
    &&& has_local_header(data, at)
    &&& bytes::le16(data, at + 4) == 45
    &&& bytes::le16(data, at + 6) == 0
    &&& bytes::le32(data, at + 14) == e.crc32
    &&& bytes::le32(data, at + 18) == 0xFFFF_FFFF
    &&& bytes::le32(data, at + 22) == 0xFFFF_FFFF
    &&& sector is Some ==> local_span(data, at) == sector->Some_0
    &&& at + local_span(data, at) <= data.len()
    &&& n == encode_utf8(e.name).len()
    &&& path::normalized(data.subrange(at + 30, x), true) == path::normalized(
        encode_utf8(e.name),
        true,
    )
    &&& extra >= 36
    &&& bytes::le16(data, x) == 1
    &&& bytes::le16(data, x + 2) == 0x20
    &&& bytes::le64(data, x + 4) == e.uncompressed_size
    &&& bytes::le64(data, x + 12) == e.compressed_size
    &&& bytes::le64(data, x + 20) == 0 || bytes::le64(data, x + 20) == at
    &&& bytes::le32(data, x + 28) == 0
    &&& bytes::le16(data, x + 32) == 0x666
    &&& bytes::le16(data, x + 34) == extra - 32
}

/// The header of an entry is accepted if and only if it is the entry's own.
pub proof fn law_local_header(data: Seq<u8>, sector: Option<u64>, e: EntryModel)
    requires
        data.len() <= usize::MAX,
    ensures
        local::header_fault(data, sector, e) is None <==> has_own_header(data, sector, e),
{
}

/// The size of a local record is told if and only if a header stands there.
pub proof fn law_local_record_size(data: Seq<u8>, at: u64, size: u64)
    requires
        data.len() + 0x10_0000 <= usize::MAX,
    ensures
        local::record_size_outcome(data, at) == Ok::<u64, Fault>(size) <==> has_local_header(
            data,
            at as int,
        ) && size == local_record_size(data, at as int),
{
    lemma_record_bound(data, at as int);
}

proof fn lemma_record_bound(data: Seq<u8>, at: int)
    ensures
        local_span(data, at) <= local_record_size(data, at) <= 0x8_0000,
{
    let span = local_span(data, at);
    align::lemma_aligned_up(bytes::le16(data, at + 26) + span + 61, span);
}

/// Where the search for the payload of an entry ends that goes by its digest: right
/// behind the header if the bytes there have it, and behind the aligned record
/// otherwise.
pub open spec fn searched_place(data: Seq<u8>, e: EntryModel) -> int {
    let at = e.local_header_offset as int;
    let near = at + local_span(data, at);
    if e.compressed_size > 0 && has_digest(e) && is_digest_of(data, near, e) {
        near
    } else {
        at + local_record_size(data, at)
    }
}

/// A digest is recorded of the entry: one of zeroes alone stands for none.
pub open spec fn has_digest(e: EntryModel) -> bool {
    exists|j: int| 0 <= j < e.sha256.len() && e.sha256[j] != 0
}

/// The bytes at `at`, as many as the entry has compressed, have its digest.
pub open spec fn is_digest_of(data: Seq<u8>, at: int, e: EntryModel) -> bool {
    at + e.compressed_size <= data.len() && digest::sha256_of(
        data.subrange(at, at + e.compressed_size),
    ) == e.sha256
}

/// Where the payload of an entry is: at the place that the placement found for the
/// whole archive gives, where there is one, and where the search ends otherwise.
pub open spec fn payload_place(
    data: Seq<u8>,
    sector: Option<u64>,
    found: V1PayloadPlacement,
    e: EntryModel,
) -> int {
    let at = e.local_header_offset as int;
    let n = bytes::le16(data, at + 26);
    if e.compressed_size == 0 {
        at + local_record_size(data, at)
    } else if found == V1PayloadPlacement::ZipLocal || (found == V1PayloadPlacement::ZipLocalSector
        && sector is Some) {
        at + local_span(data, at)
    } else if found == V1PayloadPlacement::AlignedRecord && sector is Some && align::is_pow2(
        sector->Some_0 as nat,
    ) {
        at + align::aligned_up(n + sector->Some_0 + 61, sector->Some_0 as int)
    } else {
        searched_place(data, e)
    }
}

/// The payload of an entry is located if and only if its own header stands at its
/// offset and the payload lies in the file; it is located at its place, right behind
/// its local record, and counts as verified only where its digest was found.
pub proof fn law_payload_location(a: ArchiveModel, e: EntryModel, l: PayloadLocation)
    requires
        a.data.len() + 0x10_0000 <= usize::MAX,
    ensures
        a.location(e) == Ok::<PayloadLocation, Fault>(l) ==> {
            let at = e.local_header_offset as int;
            &&& has_own_header(a.data, a.sector_size(), e)
            &&& l.offset == payload_place(a.data, a.sector_size(), a.placement, e)
            &&& l.offset + e.compressed_size <= a.data.len()
            &&& l.local_record_size == l.offset - at
            &&& l.sha256_verified ==> has_digest(e) && is_digest_of(a.data, l.offset as int, e)
        },
        has_own_header(a.data, a.sector_size(), e) && payload_place(
            a.data,
            a.sector_size(),
            a.placement,
            e,
        ) + e.compressed_size <= a.data.len() ==> a.location(e) is Ok,
{
    let data = a.data;
    let at = e.local_header_offset as int;
    law_local_header(data, a.sector_size(), e);
    lemma_record_bound(data, at);
    if has_own_header(data, a.sector_size(), e) {
        if a.sector_size() is Some {
            let sector = a.sector_size()->Some_0 as int;
            align::lemma_aligned_up(bytes::le16(data, at + 26) + sector + 61, sector);
        }
        lemma_selected(data, e);
    }
}

proof fn lemma_selected(data: Seq<u8>, e: EntryModel)
    requires
        data.len() + 0x10_0000 <= usize::MAX,
        e.local_header_offset + local_span(data, e.local_header_offset as int) <= data.len(),
    ensures
        ({
            let at = e.local_header_offset as int;
            let found = payload::selected(
                data,
                at,
                local::header_at(data, at),
                e.compressed_size,
                e.sha256,
            );
            &&& e.compressed_size <= usize::MAX ==> found is Ok
            &&& found is Ok ==> found->Ok_0.0 == searched_place(data, e)
            &&& found is Ok && found->Ok_0.1 ==> has_digest(e) && is_digest_of(
                data,
                searched_place(data, e),
                e,
            )
        }),
{
    let at = e.local_header_offset as int;
    lemma_record_bound(data, at);
    assert(has_digest(e) <==> digest::digest_given(e.sha256));
}

/// Reading an entry of a version 1 file gives the bytes that the range of the file
/// stands for where the search for its payload ends, and nothing where its own header
/// does not stand at its offset or where the range stands for nothing.
pub proof fn law_read_v1(a: ArchiveModel, e: EntryModel, out: Seq<u8>)
    requires
        a.data.len() + 0x10_0000 <= usize::MAX,
        e.uncompressed_size <= usize::MAX,
    ensures
        a.read_v1(e) == Ok::<Seq<u8>, Fault>(out) <==> {
            let at = searched_place(a.data, e);
            &&& has_own_header(a.data, a.sector_size(), e)
            &&& at + e.compressed_size <= a.data.len()
            &&& reader_laws::stands_for(
                a.data.subrange(at, at + e.compressed_size),
                e.compression_method,
                e.uncompressed_size,
                e.is_encrypted,
                out,
            )
        },
{
    let at = searched_place(a.data, e);
    law_local_header(a.data, a.sector_size(), e);
    if has_own_header(a.data, a.sector_size(), e) {
        lemma_selected(a.data, e);
        lemma_record_bound(a.data, e.local_header_offset as int);
        reader_laws::law_decoded(
            a.data.subrange(at, at + e.compressed_size),
            e.compression_method,
            e.uncompressed_size,
            e.is_encrypted,
            out,
        );
    }
}

/// Where no local header stands at the offset of an entry that lies in the file, the
/// four bytes that stand there are told.
pub proof fn law_bad_signature(data: Seq<u8>, sector: Option<u64>, e: EntryModel)
    requires
        data.len() <= usize::MAX,
        e.local_header_offset + 4 <= data.len(),
        bytes::le32(data, e.local_header_offset as int) != 0x0403_4B50,
        bytes::le32(data, e.local_header_offset as int) != 0x1403_4B50,
    ensures
        local::header_fault(data, sector, e) == Some(
            Fault::InvalidSignature {
                expected: 0x0403_4B50,
                actual: bytes::le32(data, e.local_header_offset as int),
            },
        ),
{
}


} // verus!
