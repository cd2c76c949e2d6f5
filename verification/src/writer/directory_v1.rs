//! The directory of a written v1 archive reads back as what was written.

use vstd::prelude::*;
use vstd::seq::*;
use vstd::seq_lib::*;
use vstd::utf8::*;

use crate::archive::model::EntryModel;
use crate::archive::v1;
use crate::bytes;
use crate::error::Fault;
use crate::path;
use crate::text;
use crate::writer::image_v1;
use crate::writer::staged::StagedModel;
use crate::zip::central_dir::extra_field;
use crate::zip::{CentralDirectoryHeader, P4kEncryptionExtraField, P4kZip64ExtraField};

verus! {

/// The directory entry of a staged entry whose local record starts at `at`.
pub open spec fn v1_entry(e: StagedModel, at: int) -> EntryModel {
    EntryModel {
        name: e.name,
        compressed_size: e.payload.len() as u64,
        uncompressed_size: e.uncompressed_size,
        compression_method: e.compression_method,
        is_encrypted: e.encrypted,
        local_header_offset: at as u64,
        crc32: e.crc32,
        last_mod_file_time: e.last_mod_file_time,
        last_mod_file_date: e.last_mod_file_date,
        signature: e.signature,
        sha256: e.sha256,
        bytes_already_written: e.payload.len() as u64,
    }
}

/// The directory entries of an archive that starts at `start`.
pub open spec fn v1_entries(entries: Seq<StagedModel>, start: int, sector: int) -> Seq<
    EntryModel,
> {
    Seq::new(
        entries.len(),
        |i: int| v1_entry(entries[i], image_v1::record_at(entries, start, sector, i)),
    )
}

/// What the extra fields of a directory record are in the directory.
pub open spec fn extra_stands(cd: Seq<u8>, at: int, e: StagedModel, offset: int) -> bool {
    let encryption = P4kEncryptionExtraField::at(cd, at + 0xA4);
    &&& P4kZip64ExtraField::at(cd, at) == image_v1::zip64_field(e, offset)
    &&& bytes::le16(cd, at + 0x20) == extra_field::P4K_5000
    &&& bytes::le16(cd, at + 0x22) == extra_field::P4K_5000_TOTAL_SIZE
    &&& cd.subrange(at + 0x24, at + 0xA4) == e.signature
    &&& encryption.id == extra_field::P4K_5002
    &&& encryption.size == extra_field::P4K_5002_TOTAL_SIZE
    &&& encryption.encryption == (if e.encrypted {
        1u16
    } else {
        0u16
    })
    &&& bytes::le16(cd, at + 0xAA) == extra_field::P4K_5003
    &&& bytes::le16(cd, at + 0xAC) == extra_field::P4K_5003_TOTAL_SIZE
    &&& cd.subrange(at + 0xAE, at + 0xCE) == e.sha256
    &&& at + 0xCE <= cd.len()
}

/// A field of an id, a size and a value.
proof fn lemma_field_stands(cd: Seq<u8>, at: int, id: u16, size: u16, value: Seq<u8>)
    requires
        bytes::holds_at(cd, at, bytes::u16_bytes(id) + bytes::u16_bytes(size) + value),
    ensures
        bytes::le16(cd, at) == id,
        bytes::le16(cd, at + 2) == size,
        bytes::holds_at(cd, at + 4, value),
{
    let a = bytes::u16_bytes(id);
    let b = bytes::u16_bytes(size);
    bytes::lemma_number_lengths(id, 0, 0);
    bytes::lemma_number_lengths(size, 0, 0);
    bytes::lemma_holds_split(cd, at, a + b, value);
    bytes::lemma_holds_split(cd, at, a, b);
    bytes::lemma_le16_of_bytes(cd, at, id);
    bytes::lemma_le16_of_bytes(cd, at + 2, size);
}

proof fn lemma_extra_length(e: StagedModel, offset: int)
    requires
        e.signature.len() == 128,
        e.sha256.len() == 32,
    ensures
        image_v1::central_extra_bytes(e, offset).len() == 0xCE,
{
    image_v1::zip64_field(e, offset).lemma_length();
    bytes::lemma_number_lengths(extra_field::P4K_5000, 0, 0);
    bytes::lemma_number_lengths(extra_field::P4K_5000_TOTAL_SIZE, 0, 0);
    bytes::lemma_number_lengths(extra_field::P4K_5002, 0, 0);
    bytes::lemma_number_lengths(extra_field::P4K_5002_TOTAL_SIZE, 0, 0);
    bytes::lemma_number_lengths(extra_field::P4K_5003, 0, 0);
    bytes::lemma_number_lengths(extra_field::P4K_5003_TOTAL_SIZE, 0, 0);
}

proof fn lemma_extra_stands(cd: Seq<u8>, at: int, e: StagedModel, offset: int)
    requires
        e.signature.len() == 128,
        e.sha256.len() == 32,
        bytes::holds_at(cd, at, image_v1::central_extra_bytes(e, offset)),
    ensures
        extra_stands(cd, at, e, offset),
{
    let flag: u16 = if e.encrypted {
        1
    } else {
        0
    };
    let zip64 = image_v1::zip64_field(e, offset);
    let a = zip64.bytes();
    let b = bytes::u16_bytes(extra_field::P4K_5000) + bytes::u16_bytes(
        extra_field::P4K_5000_TOTAL_SIZE,
    ) + e.signature;
    let c = bytes::u16_bytes(extra_field::P4K_5002) + bytes::u16_bytes(
        extra_field::P4K_5002_TOTAL_SIZE,
    ) + bytes::u16_bytes(flag);
    let d = bytes::u16_bytes(extra_field::P4K_5003) + bytes::u16_bytes(
        extra_field::P4K_5003_TOTAL_SIZE,
    ) + e.sha256;
    lemma_extra_length(e, offset);
    zip64.lemma_length();
    bytes::lemma_number_lengths(flag, 0, 0);
    bytes::lemma_number_lengths(extra_field::P4K_5000, 0, 0);
    bytes::lemma_number_lengths(extra_field::P4K_5000_TOTAL_SIZE, 0, 0);
    bytes::lemma_number_lengths(extra_field::P4K_5002, 0, 0);
    bytes::lemma_number_lengths(extra_field::P4K_5002_TOTAL_SIZE, 0, 0);
    bytes::lemma_holds_split(cd, at, a + b + c, d);
    bytes::lemma_holds_split(cd, at, a + b, c);
    bytes::lemma_holds_split(cd, at, a, b);
    zip64.law_read_back(cd, at);
    lemma_field_stands(
        cd,
        at + 0x20,
        extra_field::P4K_5000,
        extra_field::P4K_5000_TOTAL_SIZE,
        e.signature,
    );
    lemma_field_stands(
        cd,
        at + 0xA4,
        extra_field::P4K_5002,
        extra_field::P4K_5002_TOTAL_SIZE,
        bytes::u16_bytes(flag),
    );
    bytes::lemma_le16_of_bytes(cd, at + 0xA8, flag);
    lemma_field_stands(
        cd,
        at + 0xAA,
        extra_field::P4K_5003,
        extra_field::P4K_5003_TOTAL_SIZE,
        e.sha256,
    );
}

/// How many bytes a directory record takes.
pub open spec fn central_len(e: StagedModel) -> int {
    46 + image_v1::name_len(e) + 0xCE
}

pub proof fn lemma_central_record_length(e: StagedModel, offset: int)
    requires
        e.signature.len() == 128,
        e.sha256.len() == 32,
    ensures
        image_v1::central_record_bytes(e, offset).len() == central_len(e),
{
    image_v1::central_header(e).lemma_length();
    bytes::lemma_number_lengths(0, CentralDirectoryHeader::SIGNATURE, 0);
    lemma_extra_length(e, offset);
}

/// A name that can stand in an archive is kept when its bytes are read.
pub proof fn lemma_name_kept(e: StagedModel)
    requires
        e.is_named(),
    ensures
        text::lossy_text(path::normalized(encode_utf8(e.name), false)) == e.name,
{
    path::law_normalized_fixpoint(encode_utf8(e.name), false);
    encode_utf8_valid_utf8(e.name);
    encode_utf8_decode_utf8(e.name);
}

proof fn lemma_packed_time(e: StagedModel)
    ensures
        v1::dos_time(image_v1::packed_time(e)) == e.last_mod_file_time,
        v1::dos_date(image_v1::packed_time(e)) == e.last_mod_file_date,
{
}

/// A directory record that was written for an entry reads back as that entry,
/// wherever it stands, and the next record starts right behind it.
pub proof fn law_central_record_reads_back(
    cd: Seq<u8>,
    at: int,
    e: StagedModel,
    offset: int,
    index: int,
)
    requires
        e.is_formed(),
        image_v1::name_len(e) <= u16::MAX,
        bytes::holds_at(cd, at, image_v1::central_record_bytes(e, offset)),
        cd.len() <= usize::MAX,
    ensures
        v1::zip64_entry_outcome(cd, at, index) == Ok::<(EntryModel, int), Fault>(
            (v1_entry(e, offset), at + image_v1::central_record_bytes(e, offset).len()),
        ),
{
    let header = image_v1::central_header(e);
    let name = encode_utf8(e.name);
    let a = bytes::u32_bytes(CentralDirectoryHeader::SIGNATURE);
    let extra = image_v1::central_extra_bytes(e, offset);
    let extra_at = at + 46 + name.len();
    lemma_central_record_length(e, offset);
    bytes::lemma_number_lengths(0, CentralDirectoryHeader::SIGNATURE, 0);
    header.lemma_length();
    lemma_extra_length(e, offset);
    bytes::lemma_holds_split(cd, at, a + header.bytes() + name, extra);
    bytes::lemma_holds_split(cd, at, a + header.bytes(), name);
    bytes::lemma_holds_split(cd, at, a, header.bytes());
    bytes::lemma_le32_of_bytes(cd, at, CentralDirectoryHeader::SIGNATURE);
    header.law_read_back(cd, at + 4);
    lemma_extra_stands(cd, extra_at, e, offset);
    lemma_name_kept(e);
    lemma_packed_time(e);
    e.compression_method.law_method_of_id();
    assert(v1::record_bounds_fault(cd, at, index) is None);
    assert(v1::extras_fault(cd, extra_at) is None);
    assert(v1::zip64_entry(cd, at) == v1_entry(e, offset));
}

proof fn lemma_central_grows(entries: Seq<StagedModel>, start: int, sector: int, k: int, n: int)
    requires
        0 <= k <= n,
    ensures
        image_v1::central_bytes(entries, start, sector, k).len() <= image_v1::central_bytes(
            entries,
            start,
            sector,
            n,
        ).len(),
        bytes::holds_at(
            image_v1::central_bytes(entries, start, sector, n),
            0,
            image_v1::central_bytes(entries, start, sector, k),
        ),
    decreases n - k,
{
    let part = image_v1::central_bytes(entries, start, sector, k);
    let all = image_v1::central_bytes(entries, start, sector, n);
    if k < n {
        let short = image_v1::central_bytes(entries, start, sector, n - 1);
        lemma_central_grows(entries, start, sector, k, n - 1);
        assert(all.subrange(0, part.len() as int) =~= short.subrange(0, part.len() as int));
    } else {
        assert(all.subrange(0, part.len() as int) =~= part);
    }
}

/// The directory records read back as the entries, one behind the other.
pub proof fn lemma_central_reads_back(entries: Seq<StagedModel>, start: int, sector: int, k: int)
    requires
        0 <= k <= entries.len(),
        forall|i: int|
            0 <= i < entries.len() ==> (#[trigger] entries[i]).is_formed() && image_v1::name_len(
                entries[i],
            ) <= u16::MAX,
        image_v1::central_bytes(entries, start, sector, entries.len() as int).len() <= usize::MAX,
    ensures
        v1::entries_outcome(
            image_v1::central_bytes(entries, start, sector, entries.len() as int),
            true,
            k as nat,
        ) == Ok::<(Seq<EntryModel>, int), Fault>(
            (
                v1_entries(entries, start, sector).take(k),
                image_v1::central_bytes(entries, start, sector, k).len() as int,
            ),
        ),
    decreases k,
{
    let n = entries.len() as int;
    let cd = image_v1::central_bytes(entries, start, sector, n);
    let all = v1_entries(entries, start, sector);
    if k > 0 {
        let e = entries[k - 1];
        let offset = image_v1::record_at(entries, start, sector, k - 1);
        let before = image_v1::central_bytes(entries, start, sector, k - 1);
        let record = image_v1::central_record_bytes(e, offset);
        assert(e.is_formed());
        lemma_central_reads_back(entries, start, sector, k - 1);
        lemma_central_grows(entries, start, sector, k, n);
        bytes::lemma_holds_split(cd, 0, before, record);
        lemma_central_record_length(e, offset);
        law_central_record_reads_back(cd, before.len() as int, e, offset, k - 1);
        assert(all.take(k) =~= all.take(k - 1).push(all[k - 1]));
    } else {
        assert(all.take(0) =~= Seq::empty());
    }
}

} // verus!
