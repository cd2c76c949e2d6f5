//! How blocks are chained, and what a signature is made over.
use vstd::prelude::*;
use vstd::utf8::*;

use crate::bytes;
use crate::crypto;

verus! {

/// Decrypting undoes one block at a time, whole blocks alone: every byte of a block is
/// what AES takes the block back to at that place, crossed with the byte sixteen
/// before in what was encrypted, and with nothing in the first block.
pub proof fn law_decrypted_byte(data: Seq<u8>, i: int)
    ensures
        crypto::decrypted(data).len() == data.len() - data.len() % 16,
        0 <= i < data.len() - data.len() % 16 ==> {
            let start = i - i % 16;
            let plain = crypto::aes_decrypted(
                seq![
                    0x5Eu8,
                    0x7Au8,
                    0x20u8,
                    0x02u8,
                    0x30u8,
                    0x2Eu8,
                    0xEBu8,
                    0x1Au8,
                    0x3Bu8,
                    0xB6u8,
                    0x17u8,
                    0xC3u8,
                    0x0Fu8,
                    0xDEu8,
                    0x1Eu8,
                    0x47u8,
                ],
                data.subrange(start, start + 16),
            );
            crypto::decrypted(data)[i] == plain[i % 16] ^ if i < 16 {
                0u8
            } else {
                data[i - 16]
            }
        },
{
    crypto::lemma_decrypted_length(data);
    if 0 <= i < data.len() - data.len() % 16 {
        let start = i - i % 16;
        let key = crypto::P4K_AES_KEY@;
        crypto::lemma_unchained_block(key, bytes::zeros(16), data, start);
        let block = crypto::unchained(key, bytes::zeros(16), data).subrange(start, start + 16);
        assert(block[i % 16] == crypto::decrypted(data)[i]);
        assert(key =~= seq![
            0x5Eu8,
            0x7Au8,
            0x20u8,
            0x02u8,
            0x30u8,
            0x2Eu8,
            0xEBu8,
            0x1Au8,
            0x3Bu8,
            0xB6u8,
            0x17u8,
            0xC3u8,
            0x0Fu8,
            0xDEu8,
            0x1Eu8,
            0x47u8,
        ]);
    }
}

/// What is encrypted is filled up with zeroes to whole blocks, and no further.
pub proof fn law_padded(data: Seq<u8>)
    ensures
        crypto::padded(data).len() % 16 == 0,
        data.len() <= crypto::padded(data).len() < data.len() + 16,
        forall|i: int| 0 <= i < data.len() ==> #[trigger] crypto::padded(data)[i] == data[i],
        forall|i: int|
            data.len() <= i < crypto::padded(data).len() ==> #[trigger] crypto::padded(data)[i]
                == 0,
{
}

/// A signature is made over the checksum, the compressed size, the uncompressed size
/// and the name, in this order; where the name is put in lower case, capital letters
/// and backslashes are replaced and all else is kept.
pub proof fn law_signature_metadata(
    name: Seq<char>,
    crc32: u32,
    compressed_size: u64,
    uncompressed_size: u64,
    lowercase: bool,
)
    ensures
        ({
            let made = crypto::signature_metadata(
                name,
                crc32,
                compressed_size,
                uncompressed_size,
                lowercase,
            );
            let raw = encode_utf8(name);
            &&& made.len() == 20 + raw.len()
            &&& bytes::le32(made, 0) == crc32
            &&& bytes::le64(made, 4) == compressed_size
            &&& bytes::le64(made, 12) == uncompressed_size
            &&& forall|i: int|
                0 <= i < raw.len() ==> #[trigger] made[20 + i] == if lowercase && 0x41 <= raw[i]
                    <= 0x5A {
                    (raw[i] + 0x20) as u8
                } else if lowercase && raw[i] == 0x5C {
                    0x2F
                } else {
                    raw[i]
                }
        }),
{
    let made = crypto::signature_metadata(
        name,
        crc32,
        compressed_size,
        uncompressed_size,
        lowercase,
    );
    bytes::lemma_number_lengths(0, crc32, compressed_size);
    bytes::lemma_number_lengths(0, crc32, uncompressed_size);
    assert(made.subrange(0, 4) =~= bytes::u32_bytes(crc32));
    assert(made.subrange(4, 12) =~= bytes::u64_bytes(compressed_size));
    assert(made.subrange(12, 20) =~= bytes::u64_bytes(uncompressed_size));
    bytes::lemma_le32_of_bytes(made, 0, crc32);
    bytes::lemma_le64_of_bytes(made, 4, compressed_size);
    bytes::lemma_le64_of_bytes(made, 12, uncompressed_size);
}

} // verus!
