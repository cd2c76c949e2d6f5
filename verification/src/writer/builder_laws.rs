//! What is staged, and what is accepted to be staged.
use vstd::prelude::*;
use vstd::seq::*;
use vstd::seq_lib::*;
use vstd::utf8::*;

use crate::align;
use crate::archive::reader_laws;
use crate::compress;
use crate::crc;
use crate::crypto;
use crate::datetime;
use crate::digest;
use crate::error::Fault;
use crate::path;
use crate::path_laws;
use crate::writer::builder;
use crate::writer::deferred;
use crate::writer::options;
use crate::writer::options::{MetadataModel, P4kWriterOptions};
use crate::writer::staged;
use crate::writer::staged::StagedModel;
use crate::zip::CompressionMethod;

verus! {

/// What the method makes of the data, at the level that the options give for it.
pub open spec fn is_packed(
    options: P4kWriterOptions,
    data: Seq<u8>,
    method: CompressionMethod,
    packed: Seq<u8>,
) -> bool {
    match method {
        CompressionMethod::Store => packed == data,
        CompressionMethod::Deflate => compress::deflate_encoded(data, options.deflate_level) == Ok::<
            Seq<u8>,
            Seq<char>,
        >(packed),
        CompressionMethod::DeflateZlib => compress::zlib_encoded(data, options.deflate_level)
            == Ok::<Seq<u8>, Seq<char>>(packed),
        CompressionMethod::Zstd => compress::zstd_encoded(data, options.zstd_level) == Ok::<
            Seq<u8>,
            Seq<char>,
        >(packed),
        CompressionMethod::ZstdDeprecated => compress::zstd_encoded(data, options.zstd_level)
            == Ok::<Seq<u8>, Seq<char>>(packed),
    }
}

/// The name is accepted, and the entry stands under its normal form.
pub open spec fn is_named_by(e: StagedModel, name: Seq<char>) -> bool {
    let raw = encode_utf8(name);
    &&& raw.len() > 0
    &&& forall|j: int| 0 <= j < raw.len() ==> raw[j] != 0
    &&& encode_utf8(e.name) == path::normalized(raw, false)
    &&& path_laws::is_plain_path(encode_utf8(e.name))
}

proof fn lemma_named(name: Seq<char>, e: StagedModel)
    ensures
        path::archive_name_outcome(name) is Ok && e.name == decode_utf8(
            path::archive_name_outcome(name)->Ok_0,
        ) <==> is_named_by(e, name),
{
    let raw = encode_utf8(name);
    let n = path::normalized(raw, false);
    path_laws::law_archive_name(name, n);
    encode_utf8_valid_utf8(name);
    path::law_normalized_valid(raw, false);
    decode_utf8_encode_utf8(n);
    encode_utf8_decode_utf8(e.name);
    if path::archive_name_outcome(name) is Ok {
        assert(path::archive_name_outcome(name) == Ok::<Seq<u8>, Fault>(n));
    }
}

/// Bytes are staged under a name that is accepted, with the timestamp and the
/// signature that were given, their own length and checksum, and the digest of what
/// is stored: the bytes as the method packs them, encrypted where that was asked for.
/// Where there are no bytes, nothing is stored, plain. What the method cannot pack is
/// not staged.
pub proof fn law_staged_bytes(
    options: P4kWriterOptions,
    name: Seq<char>,
    data: Seq<u8>,
    method: CompressionMethod,
    encrypted: bool,
    metadata: MetadataModel,
    e: StagedModel,
    packed: Seq<u8>,
)
    requires
        data.len() <= u64::MAX,
        packed.len() + 15 <= usize::MAX,
    ensures
        (data.len() > 0 ==> is_packed(options, data, method, packed)) ==> (builder::bytes_outcome(
            options,
            name,
            data,
            method,
            encrypted,
            metadata,
        ) == Ok::<StagedModel, Fault>(e) <==> {
            &&& is_named_by(e, name)
            &&& e.uncompressed_size == data.len()
            &&& e.crc32 == crc::crc32c(data)
            &&& e.last_mod_file_time == metadata.last_mod_file_time
            &&& e.last_mod_file_date == metadata.last_mod_file_date
            &&& e.signature == metadata.signature
            &&& e.sha256 == digest::sha256_of(e.payload)
            &&& data.len() == 0 ==> {
                &&& e.payload.len() == 0
                &&& e.compression_method == CompressionMethod::Store
                &&& !e.encrypted
            }
            &&& data.len() > 0 ==> {
                &&& e.compression_method == method
                &&& e.encrypted == encrypted
                &&& e.payload == if encrypted {
                    crypto::encrypted(packed)
                } else {
                    packed
                }
            }
        }),
        builder::bytes_outcome(options, name, data, method, encrypted, metadata) is Ok && data.len()
            > 0 ==> exists|p: Seq<u8>| #[trigger] is_packed(options, data, method, p),
{
    lemma_named(name, e);
    if data.len() == 0 {
        assert(data =~= Seq::empty());
        if e.payload.len() == 0 {
            assert(e.payload =~= data);
        }
    } else if builder::bytes_outcome(options, name, data, method, encrypted, metadata) is Ok {
        let p = compress::compress_outcome(
            data,
            method,
            options.zstd_level,
            options.deflate_level,
        )->Ok_0;
        assert(is_packed(options, data, method, p));
    }
}

/// A payload that is stored as it is given is staged if and only if its name is
/// accepted, it has the digest that was given, and it stands for bytes of the size and
/// the checksum that were given; nothing that was given of it is changed but for its
/// name.
pub proof fn law_staged_payload(name: Seq<char>, given: StagedModel, e: StagedModel)
    requires
        given.uncompressed_size <= usize::MAX,
    ensures
        builder::payload_entry_outcome(name, given) == Ok::<StagedModel, Fault>(e) <==> {
            &&& is_named_by(e, name)
            &&& e == StagedModel { name: e.name, ..given }
            &&& digest::sha256_of(given.payload) == given.sha256
            &&& exists|out: Seq<u8>| #[trigger]
                reader_laws::stands_for(
                    given.payload,
                    given.compression_method,
                    given.uncompressed_size,
                    given.encrypted,
                    out,
                ) && crc::crc32c(out) == given.crc32
        },
{
    lemma_named(name, e);
    lemma_named(name, staged::named(name, given));
    crypto::lemma_decrypted_length(given.payload);
    let outcome = staged::memory_outcome(
        given.payload,
        given.uncompressed_size as nat,
        given.compression_method,
        given.encrypted,
    );
    if given.compression_method == CompressionMethod::Store && !given.encrypted {
        assert(given.payload.take(given.payload.len() as int) =~= given.payload);
    }
    if builder::payload_entry_outcome(name, given) == Ok::<StagedModel, Fault>(e) {
        let out = outcome->Ok_0;
        assert(reader_laws::stands_for(
            given.payload,
            given.compression_method,
            given.uncompressed_size,
            given.encrypted,
            out,
        ));
    }
    if exists|out: Seq<u8>| #[trigger]
        reader_laws::stands_for(
            given.payload,
            given.compression_method,
            given.uncompressed_size,
            given.encrypted,
            out,
        ) && crc::crc32c(out) == given.crc32 {
        let out = choose|out: Seq<u8>| #[trigger]
            reader_laws::stands_for(
                given.payload,
                given.compression_method,
                given.uncompressed_size,
                given.encrypted,
                out,
            ) && crc::crc32c(out) == given.crc32;
        assert(outcome == Ok::<Seq<u8>, Fault>(out));
    }
}

/// A payload passes without being unpacked if and only if its name is accepted, it has
/// the digest that was given, its size fits its method and encryption, and, where it
/// is stored without a method, it has the checksum that was given.
pub proof fn law_checked_payload(name: Seq<char>, given: StagedModel)
    requires
        given.uncompressed_size <= usize::MAX,
    ensures
        staged::entry_fault(name, given) is None <==> {
            let raw = encode_utf8(name);
            let plain = crypto::decrypted(given.payload);
            let size = given.uncompressed_size as int;
            &&& raw.len() > 0
            &&& forall|j: int| 0 <= j < raw.len() ==> raw[j] != 0
            &&& path_laws::is_plain_path(path::normalized(raw, false))
            &&& digest::sha256_of(given.payload) == given.sha256
            &&& given.encrypted ==> given.payload.len() % 16 == 0
            &&& given.compression_method == CompressionMethod::Store && !given.encrypted ==> {
                &&& given.payload.len() == size
                &&& crc::crc32c(given.payload) == given.crc32
            }
            &&& given.compression_method == CompressionMethod::Store && given.encrypted ==> {
                &&& given.payload.len() >= size
                &&& crc::crc32c(plain.take(size)) == given.crc32
            }
        },
{
    path_laws::law_archive_name(name, path::normalized(encode_utf8(name), false));
    crypto::lemma_decrypted_length(given.payload);
}

/// The options are accepted if and only if the sector size is a power of two.
pub proof fn law_options(given: P4kWriterOptions)
    ensures
        options::options_fault(given) is None <==> exists|k: nat|
            given.sector_size == #[trigger] vstd::arithmetic::power2::pow2(k),
{
    align::law_powers_of_two(given.sector_size as nat);
}

/// A file that was modified at a known second is stamped with it, and another with
/// nothing; neither is signed.
pub proof fn law_modified(seconds: Option<u64>)
    ensures
        ({
            let m = MetadataModel::modified(seconds);
            &&& m.signature.len() == 128
            &&& forall|j: int| 0 <= j < 128 ==> m.signature[j] == 0
            &&& seconds is None ==> m.last_mod_file_time == 0 && m.last_mod_file_date == 0
            &&& seconds is Some ==> (m.last_mod_file_time, m.last_mod_file_date)
                == datetime::dos_timestamp(seconds->Some_0)
        }),
{
}

/// A writer that was told nothing uses sectors of 4096 bytes and Zstandard at its
/// lowest level, and knows of no manifest.
pub proof fn law_default_options(given: P4kWriterOptions)
    requires
        given.is_default(),
    ensures
        given.sector_size == 4096,
        given.compression == CompressionMethod::Zstd,
        given.zstd_level == 1,
        given.deflate_level == 9,
        forall|j: int| 0 <= j < 64 ==> given.manifest_sha256@[j] == 0,
{
}

/// A file is left to be read later if and only if what is stored of it is the file
/// itself: where it is empty, or where it is stored plain.
pub proof fn law_left_for_later(
    options: P4kWriterOptions,
    name: Seq<char>,
    data: Seq<u8>,
    encrypted: bool,
    metadata: MetadataModel,
)
    requires
        data.len() <= u64::MAX,
    ensures
        deferred::is_deferred(options, data.len() as u64, encrypted) <==> data.len() == 0 || (
        options.compression == CompressionMethod::Store && !encrypted),
        deferred::is_deferred(options, data.len() as u64, encrypted) && builder::bytes_outcome(
            options,
            name,
            data,
            options.compression,
            encrypted,
            metadata,
        ) is Ok ==> builder::bytes_outcome(
            options,
            name,
            data,
            options.compression,
            encrypted,
            metadata,
        )->Ok_0.payload == data,
{
}


} // verus!
