//! What reading and verifying an opened archive are good for.

use vstd::prelude::*;
use vstd::seq::*;
use vstd::seq_lib::*;

use crate::archive::model::{EntryModel, P4kVersion};
use crate::archive::payload;
use crate::archive::reader;
use crate::archive::reader::ArchiveModel;
use crate::bytes;
use crate::crc;
use crate::crypto;
use crate::decompress;
use crate::digest;
use crate::error::Fault;
use crate::order;
use crate::zip::CompressionMethod;

verus! {

/// Whether `out` is what a stored payload stands for: as many bytes as it
/// should hold, which come out of it when it is first decrypted, where it is
/// encrypted, and then decoded.
pub open spec fn stands_for(
    stored: Seq<u8>,
    method: CompressionMethod,
    size: u64,
    encrypted: bool,
    out: Seq<u8>,
) -> bool {
    let plain = if encrypted {
        crypto::decrypted(stored)
    } else {
        stored
    };
    &&& out.len() == size
    &&& encrypted ==> stored.len() % 16 == 0
    &&& match method {
        CompressionMethod::Store => {
            &&& !encrypted ==> out == stored
            &&& out.len() <= plain.len()
            &&& out == plain.take(out.len() as int)
        },
        CompressionMethod::Deflate => decompress::deflate_decoded(plain) == Ok::<
            Seq<u8>,
            Seq<char>,
        >(out),
        CompressionMethod::DeflateZlib => decompress::zlib_decoded(plain) == Ok::<
            Seq<u8>,
            Seq<char>,
        >(out),
        CompressionMethod::Zstd => decompress::zstd_decoded(plain) == Ok::<Seq<u8>, Seq<char>>(out),
        CompressionMethod::ZstdDeprecated => decompress::zstd_decoded(plain) == Ok::<
            Seq<u8>,
            Seq<char>,
        >(out),
    }
}

/// A stored payload decodes to exactly the bytes that it stands for.
pub proof fn law_decoded(
    stored: Seq<u8>,
    method: CompressionMethod,
    size: u64,
    encrypted: bool,
    out: Seq<u8>,
)
    requires
        size <= usize::MAX,
    ensures
        payload::decode_payload_outcome(stored, method, size, encrypted) == Ok::<Seq<u8>, Fault>(
            out,
        ) <==> stands_for(stored, method, size, encrypted, out),
{
    if method == CompressionMethod::Store && !encrypted {
        assert(stored.take(stored.len() as int) =~= stored);
    }
}

proof fn lemma_extracted(stored: Seq<u8>, e: EntryModel, out: Seq<u8>)
    requires
        e.uncompressed_size <= usize::MAX,
    ensures
        reader::decode_extracted(stored, e) == Ok::<Seq<u8>, Fault>(out) <==> stands_for(
            stored,
            e.compression_method,
            e.uncompressed_size,
            e.is_encrypted,
            out,
        ),
{
    law_decoded(stored, e.compression_method, e.uncompressed_size, e.is_encrypted, out);
    if e.compression_method == CompressionMethod::Store && !e.is_encrypted {
        assert(stored.take(stored.len() as int) =~= stored);
    }
}

/// Reading and extracting an entry of a v2 archive give the bytes that the
/// range of the file stands for that starts at the offset of the entry and has
/// its compressed size, and nothing where there is no such range or where it
/// stands for nothing.
pub proof fn law_contents_v2(a: ArchiveModel, e: EntryModel, out: Seq<u8>)
    requires
        a.version == P4kVersion::V2,
        a.data.len() <= usize::MAX,
        e.uncompressed_size <= usize::MAX,
        e.compressed_size > 0,
    ensures
        a.read(e) == Ok::<Seq<u8>, Fault>(out) <==> {
            &&& e.local_header_offset + e.compressed_size <= a.data.len()
            &&& stands_for(
                a.data.subrange(
                    e.local_header_offset as int,
                    e.local_header_offset + e.compressed_size,
                ),
                e.compression_method,
                e.uncompressed_size,
                e.is_encrypted,
                out,
            )
        },
        a.extracted(e) == Ok::<Seq<u8>, Fault>(out) <==> a.read(e) == Ok::<Seq<u8>, Fault>(out),
{
    let stored = a.data.subrange(
        e.local_header_offset as int,
        e.local_header_offset + e.compressed_size,
    );
    law_decoded(stored, e.compression_method, e.uncompressed_size, e.is_encrypted, out);
    lemma_extracted(stored, e, out);
}

/// An entry of a v2 archive that is empty, compressed and not, reads as nothing,
/// wherever it says that it starts. One for which no bytes are stored reads and
/// extracts otherwise as what no bytes stand for, where it starts in the file.
pub proof fn law_contents_v2_empty(a: ArchiveModel, e: EntryModel, out: Seq<u8>)
    requires
        a.version == P4kVersion::V2,
        a.data.len() <= usize::MAX,
        e.uncompressed_size <= usize::MAX,
        e.compressed_size == 0,
    ensures
        e.uncompressed_size == 0 ==> (a.read(e) == Ok::<Seq<u8>, Fault>(out) <==> out.len() == 0),
        e.uncompressed_size > 0 ==> (a.read(e) == Ok::<Seq<u8>, Fault>(out) <==> {
            &&& e.local_header_offset <= a.data.len()
            &&& stands_for(
                Seq::empty(),
                e.compression_method,
                e.uncompressed_size,
                e.is_encrypted,
                out,
            )
        }),
        a.extracted(e) == Ok::<Seq<u8>, Fault>(out) <==> {
            &&& e.local_header_offset <= a.data.len()
            &&& stands_for(
                Seq::empty(),
                e.compression_method,
                e.uncompressed_size,
                e.is_encrypted,
                out,
            )
        },
{
    let stored = a.data.subrange(
        e.local_header_offset as int,
        e.local_header_offset + e.compressed_size,
    );
    if e.local_header_offset <= a.data.len() {
        assert(stored =~= Seq::empty());
        lemma_extracted(stored, e, out);
        law_decoded(stored, e.compression_method, e.uncompressed_size, e.is_encrypted, out);
    }
    if out.len() == 0 {
        assert(out =~= Seq::empty());
    }
}

/// Extracting an entry of a v1 archive gives the bytes that the range of the
/// file stands for that starts where the payload is found. Reading it gives the
/// bytes that some range of the file stands for.
pub proof fn law_contents_v1(a: ArchiveModel, e: EntryModel, out: Seq<u8>)
    requires
        a.version == P4kVersion::V1,
        a.data.len() <= usize::MAX,
        e.uncompressed_size <= usize::MAX,
    ensures
        a.extracted(e) == Ok::<Seq<u8>, Fault>(out) <==> {
            let at = a.location(e)->Ok_0.offset;
            &&& a.location(e) is Ok
            &&& at + e.compressed_size <= a.data.len()
            &&& stands_for(
                a.data.subrange(at as int, at + e.compressed_size),
                e.compression_method,
                e.uncompressed_size,
                e.is_encrypted,
                out,
            )
        },
        a.read(e) == Ok::<Seq<u8>, Fault>(out) ==> exists|at: int|
            0 <= at && at + e.compressed_size <= a.data.len() && stands_for(
                #[trigger] a.data.subrange(at, at + e.compressed_size),
                e.compression_method,
                e.uncompressed_size,
                e.is_encrypted,
                out,
            ),
{
    if a.location(e) is Ok {
        let at = a.location(e)->Ok_0.offset;
        let stored = a.data.subrange(at as int, at + e.compressed_size);
        lemma_extracted(stored, e, out);
    }
    if a.read(e) == Ok::<Seq<u8>, Fault>(out) {
        let header = crate::archive::local::header_at(a.data, e.local_header_offset as int);
        let at = payload::selected(
            a.data,
            e.local_header_offset as int,
            header,
            e.compressed_size,
            e.sha256,
        )->Ok_0.0 as int;
        law_decoded(
            a.data.subrange(at, at + e.compressed_size),
            e.compression_method,
            e.uncompressed_size,
            e.is_encrypted,
            out,
        );
    }
}

/// The legacy form of an entry keeps its name, sizes, method, encryption flag,
/// offset, checksum and times, and so the entry can be read through it: in a v2
/// archive with the same result, and in a v1 archive too, if the payload is
/// found without its digest.
pub proof fn law_legacy_form(a: ArchiveModel, e: EntryModel)
    ensures
        ({
            let legacy = reader::legacy_entry(e);
            let back = reader::entry_of_legacy(legacy);
            &&& legacy.name == e.name && back.name == e.name
            &&& legacy.compressed_size == e.compressed_size && back.compressed_size
                == e.compressed_size
            &&& legacy.uncompressed_size == e.uncompressed_size && back.uncompressed_size
                == e.uncompressed_size
            &&& legacy.compression_method == e.compression_method && back.compression_method
                == e.compression_method
            &&& legacy.is_encrypted == e.is_encrypted && back.is_encrypted == e.is_encrypted
            &&& legacy.local_header_offset == e.local_header_offset && back.local_header_offset
                == e.local_header_offset
            &&& legacy.crc32 == e.crc32 && back.crc32 == e.crc32
            &&& legacy.dos_datetime / 0x1_0000 == e.last_mod_file_date
            &&& legacy.dos_datetime % 0x1_0000 == e.last_mod_file_time
            &&& back.last_mod_file_date == e.last_mod_file_date
            &&& back.last_mod_file_time == e.last_mod_file_time
            &&& a.version == P4kVersion::V2 ==> a.read(back) == a.read(e)
            &&& a.version == P4kVersion::V1 && (e.compressed_size == 0 || e.sha256 == bytes::zeros(
                32,
            )) ==> a.read(back) == a.read(e)
        }),
{
    let legacy = reader::legacy_entry(e);
    let back = reader::entry_of_legacy(legacy);
    assert(e.last_mod_file_date * 0x1_0000 + e.last_mod_file_time <= u32::MAX);
    assert(a.read(back) == a.read(e) || a.version == P4kVersion::V1);
}

/// The range of the file that starts at `at` and has the compressed size of an
/// entry, if the file has it, with the digest that is recorded of the entry.
pub open spec fn has_digest_at(a: ArchiveModel, e: EntryModel, at: int) -> bool {
    &&& 0 <= at
    &&& at + e.compressed_size <= a.data.len()
    &&& digest::sha256_of(a.data.subrange(at, at + e.compressed_size)) == e.sha256
}

/// The digest of an entry of a v2 archive is verified if and only if the bytes at
/// its offset have the recorded digest, whatever the method and the encryption.
pub proof fn law_digest_verified_v2(a: ArchiveModel, e: EntryModel)
    requires
        a.version == P4kVersion::V2,
        a.data.len() <= usize::MAX,
    ensures
        a.digest_fault(e) is None <==> has_digest_at(a, e, e.local_header_offset as int),
        e.compressed_size > 0 ==> (a.fast_digest_fault(e) is None <==> has_digest_at(
            a,
            e,
            e.local_header_offset as int,
        )),
        e.compressed_size == 0 ==> (a.fast_digest_fault(e) is None <==> digest::sha256_of(
            Seq::empty(),
        ) == e.sha256),
{
}

/// The digest of an entry of a v1 archive is verified if and only if the payload
/// is found and the bytes there have the recorded digest, whatever the method
/// and the encryption. With a try at the known offset first, no other bytes pass
/// than such with the recorded digest, and none fail that pass without the try.
pub proof fn law_digest_verified_v1(a: ArchiveModel, e: EntryModel)
    requires
        a.version == P4kVersion::V1,
        a.data.len() <= usize::MAX,
    ensures
        a.digest_fault(e) is None <==> a.location(e) is Ok && has_digest_at(
            a,
            e,
            a.location(e)->Ok_0.offset as int,
        ),
        a.fast_digest_fault(e) is None && e.compressed_size > 0 ==> exists|at: int| #[trigger]
            has_digest_at(a, e, at),
        e.compressed_size == 0 ==> (a.fast_digest_fault(e) is None <==> digest::sha256_of(
            Seq::empty(),
        ) == e.sha256),
        a.digest_fault(e) is None && usize::MAX == u64::MAX ==> a.fast_digest_fault(e) is None,
{
    let l = a.location(e);
    if l is Ok {
        let at = l->Ok_0.offset as int;
        if e.compressed_size == 0 {
            assert(a.data.subrange(at, at) =~= Seq::empty());
        }
        assert(l->Ok_0.sha256_verified ==> has_digest_at(a, e, at));
        assert(a.digest_fault(e) is None ==> has_digest_at(a, e, at));
    }
    if a.fast_digest_fault(e) is None && e.compressed_size > 0 {
        let known = a.known_offset(e.name, e.local_header_offset);
        if a.digest_fault(e) is Some {
            assert(has_digest_at(a, e, known->Some_0 as int));
        }
    }
}

/// The checksum of an entry is verified if and only if the entry can be extracted
/// and what comes out has the recorded checksum; an entry is sound if and only if
/// its digest and its checksum are verified.
pub proof fn law_integrity_verified(a: ArchiveModel, e: EntryModel)
    ensures
        a.checksum_fault(e) is None <==> a.extracted(e) is Ok && crc::crc32c(
            a.extracted(e)->Ok_0,
        ) == e.crc32,
        a.integrity_fault(e) is None <==> {
            &&& a.digest_fault(e) is None
            &&& a.extracted(e) is Ok
            &&& crc::crc32c(a.extracted(e)->Ok_0) == e.crc32
        },
        a.fast_integrity_fault(e) is None <==> {
            &&& a.fast_digest_fault(e) is None
            &&& a.extracted(e) is Ok
            &&& crc::crc32c(a.extracted(e)->Ok_0) == e.crc32
        },
{
}

/// Whether the stored bytes of an entry are found and have the recorded digest.
pub open spec fn has_recorded_digest(a: ArchiveModel, e: EntryModel) -> bool {
    match a.version {
        P4kVersion::V2 => has_digest_at(a, e, e.local_header_offset as int),
        P4kVersion::V1 => a.location(e) is Ok && has_digest_at(
            a,
            e,
            a.location(e)->Ok_0.offset as int,
        ),
    }
}

/// Verifying all digests passes if and only if the stored bytes of every entry
/// are found and have the digest that is recorded of them.
pub proof fn law_all_digests_verified(a: ArchiveModel)
    requires
        a.data.len() <= usize::MAX,
        a.directory.entries.len() <= usize::MAX,
    ensures
        reader::first_fault(
            reader::digest_faults(a),
            reader::in_sequence(a.directory.entries.len()),
            0,
        ) is None <==> forall|i: int|
            0 <= i < a.directory.entries.len() ==> has_recorded_digest(
                a,
                #[trigger] a.directory.entries[i],
            ),
{
    let n = a.directory.entries.len();
    let faults = reader::digest_faults(a);
    let sequence = reader::in_sequence(n);
    assert forall|i: usize| 0 <= i < faults.len() implies #[trigger] sequence.contains(i) by {
        assert(sequence[i as int] == i);
    }
    reader::law_first_fault(faults, sequence);
    assert forall|i: int| 0 <= i < n implies (#[trigger] faults[i] is None <==> has_recorded_digest(
        a,
        a.directory.entries[i],
    )) by {
        if a.version == P4kVersion::V2 {
            law_digest_verified_v2(a, a.directory.entries[i]);
        } else {
            law_digest_verified_v1(a, a.directory.entries[i]);
        }
    }
    if forall|i: int|
        0 <= i < n ==> has_recorded_digest(a, #[trigger] a.directory.entries[i]) {
        assert forall|i: int| 0 <= i < faults.len() implies (#[trigger] faults[i]) is None by {
            assert(has_recorded_digest(a, a.directory.entries[i]));
        }
    }
    if forall|i: int| 0 <= i < faults.len() ==> (#[trigger] faults[i]) is None {
        assert forall|i: int| 0 <= i < n implies has_recorded_digest(
            a,
            #[trigger] a.directory.entries[i],
        ) by {
            assert(faults[i] is None);
        }
    }
}

/// Whether bytes with the digest that is recorded of an entry stand in the file,
/// and whether what is extracted of the entry has its checksum.
pub open spec fn is_intact(a: ArchiveModel, e: EntryModel) -> bool {
    &&& a.extracted(e) is Ok
    &&& crc::crc32c(a.extracted(e)->Ok_0) == e.crc32
    &&& if e.compressed_size == 0 {
        digest::sha256_of(Seq::empty()) == e.sha256
    } else if a.version == P4kVersion::V2 {
        has_digest_at(a, e, e.local_header_offset as int)
    } else {
        exists|at: int| #[trigger] has_digest_at(a, e, at)
    }
}

/// Where verifying the integrity of an archive passes, every entry is intact: no
/// entry is left out, whatever its method, its encryption and its place in the
/// file. The digests alone are verified of every entry too.
pub proof fn law_integrity_covers_all(a: ArchiveModel)
    requires
        a.data.len() <= usize::MAX,
        a.directory.entries.len() <= usize::MAX,
    ensures
        reader::first_fault(reader::fast_integrity_faults(a), a.physical_order(), 0) is None
            ==> forall|i: int|
            0 <= i < a.directory.entries.len() ==> is_intact(a, #[trigger] a.directory.entries[i]),
        reader::first_fault(reader::fast_integrity_faults(a), a.physical_order(), 0) is None
            <==> forall|i: int|
            0 <= i < a.directory.entries.len() ==> {
                let e = #[trigger] a.directory.entries[i];
                &&& a.fast_digest_fault(e) is None
                &&& a.extracted(e) is Ok
                &&& crc::crc32c(a.extracted(e)->Ok_0) == e.crc32
            },
        reader::first_fault(reader::fast_digest_faults(a), a.physical_order(), 0) is None
            <==> forall|i: int|
            0 <= i < a.directory.entries.len() ==> a.fast_digest_fault(
                #[trigger] a.directory.entries[i],
            ) is None,
{
    let n = a.directory.entries.len();
    let offsets = a.sort_offsets();
    let whole = reader::fast_integrity_faults(a);
    let digests = reader::fast_digest_faults(a);
    order::law_order_exists(offsets);
    reader::law_first_fault(whole, a.physical_order());
    reader::law_first_fault(digests, a.physical_order());
    assert forall|i: int| 0 <= i < n implies {
        let e = #[trigger] a.directory.entries[i];
        &&& whole[i] == a.fast_integrity_fault(e)
        &&& digests[i] == a.fast_digest_fault(e)
        &&& a.fast_integrity_fault(e) is None ==> is_intact(a, e)
    } by {
        let e = a.directory.entries[i];
        law_integrity_verified(a, e);
        if a.version == P4kVersion::V2 {
            law_digest_verified_v2(a, e);
        } else {
            law_digest_verified_v1(a, e);
        }
    }
    if forall|i: int| 0 <= i < n ==> (#[trigger] whole[i]) is None {
        assert forall|i: int| 0 <= i < n implies a.fast_integrity_fault(
            #[trigger] a.directory.entries[i],
        ) is None by {
            assert(whole[i] is None);
        }
    }
    if forall|i: int| 0 <= i < n ==> (#[trigger] digests[i]) is None {
        assert forall|i: int| 0 <= i < n implies a.fast_digest_fault(
            #[trigger] a.directory.entries[i],
        ) is None by {
            assert(digests[i] is None);
        }
    }
    if exists|i: int| 0 <= i < n && !((#[trigger] whole[i]) is None) {
        let i = choose|i: int| 0 <= i < n && !((#[trigger] whole[i]) is None);
        assert(a.fast_integrity_fault(a.directory.entries[i]) is Some);
    }
    if exists|i: int| 0 <= i < n && !((#[trigger] digests[i]) is None) {
        let i = choose|i: int| 0 <= i < n && !((#[trigger] digests[i]) is None);
        assert(a.fast_digest_fault(a.directory.entries[i]) is Some);
    }
}

} // verus!
