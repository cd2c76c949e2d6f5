//! P4K encryption and decryption with AES-128-CBC.
//!
//! The first previous block is all zeroes, so this is AES-128-CBC with a
//! zero IV. A payload is padded with zeroes to a whole number of blocks.

use vstd::prelude::*;
use vstd::arithmetic::div_mod::*;
use vstd::seq::*;
use vstd::seq_lib::*;
use vstd::slice::*;
use vstd::string::*;
use vstd::utf8::*;

use crate::bytes;
use crate::bytes::{get_array, put_bytes, put_u32, put_u64};
use crate::digest;
use crate::digest::sha256;
use crate::error::{Error, Fault, IoErrorKind, Result};
use crate::path;

verus! {

/// The AES-128 key used for P4K encryption.
///
/// This is hardcoded in the game client and is not a secret.
pub const P4K_AES_KEY: [u8; 16] = [
    0x5E, 0x7A, 0x20, 0x02, 0x30, 0x2E, 0xEB, 0x1A, 0x3B, 0xB6, 0x17, 0xC3, 0x0F, 0xDE, 0x1E, 0x47,
];

/// What AES-128 makes of one block under a key.
pub uninterp spec fn aes_encrypted(key: Seq<u8>, block: Seq<u8>) -> Seq<u8>;

/// What AES-128 takes one block back to under a key.
pub uninterp spec fn aes_decrypted(key: Seq<u8>, block: Seq<u8>) -> Seq<u8>;

/// `encrypt_block` of `aes::Aes128` under the given key: the result depends on
/// key and block alone, and decrypting it gives the block back.
#[verifier::external_body]
fn encrypt_aes_block(key: &[u8; 16], block: &[u8; 16]) -> (r: [u8; 16])
    ensures
        r@ == aes_encrypted(key@, block@),
        aes_decrypted(key@, r@) == block@,
{
    let cipher = <aes::Aes128 as aes::cipher::KeyInit>::new(key.into());
    let mut out = aes::Block::from(*block);
    aes::cipher::BlockEncrypt::encrypt_block(&cipher, &mut out);
    out.into()
}

/// `decrypt_block` of `aes::Aes128` under the given key: the result depends on
/// key and block alone.
#[verifier::external_body]
fn decrypt_aes_block(key: &[u8; 16], block: &[u8; 16]) -> (r: [u8; 16])
    ensures
        r@ == aes_decrypted(key@, block@),
{
    let cipher = <aes::Aes128 as aes::cipher::KeyInit>::new(key.into());
    let mut out = aes::Block::from(*block);
    aes::cipher::BlockDecrypt::decrypt_block(&cipher, &mut out);
    out.into()
}

/// Two blocks, bit by bit.
pub open spec fn xored(a: Seq<u8>, b: Seq<u8>) -> Seq<u8> {
    Seq::new(16, |i: int| a[i] ^ b[i])
}

/// The CBC chain over whole blocks: each block is mixed with the one that
/// came out before it.
pub open spec fn chained(key: Seq<u8>, previous: Seq<u8>, data: Seq<u8>) -> Seq<u8>
    decreases data.len(),
{
    if data.len() < 16 {
        Seq::empty()
    } else {
        let block = aes_encrypted(key, xored(data.take(16), previous));
        block + chained(key, block, data.skip(16))
    }
}

/// The CBC chain taken back.
pub open spec fn unchained(key: Seq<u8>, previous: Seq<u8>, data: Seq<u8>) -> Seq<u8>
    decreases data.len(),
{
    if data.len() < 16 {
        Seq::empty()
    } else {
        xored(aes_decrypted(key, data.take(16)), previous) + unchained(
            key,
            data.take(16),
            data.skip(16),
        )
    }
}

/// How many zeroes pad `length` bytes to whole blocks.
pub open spec fn padding(length: nat) -> nat {
    ((16 - length % 16) % 16) as nat
}

/// The data with its padding.
pub open spec fn padded(data: Seq<u8>) -> Seq<u8> {
    data + bytes::zeros(padding(data.len()))
}

/// What P4K encryption makes of data.
pub open spec fn encrypted(data: Seq<u8>) -> Seq<u8> {
    chained(P4K_AES_KEY@, bytes::zeros(16), padded(data))
}

/// What P4K decryption makes of data.
pub open spec fn decrypted(data: Seq<u8>) -> Seq<u8> {
    unchained(P4K_AES_KEY@, bytes::zeros(16), data)
}

/// `encrypt_padded_mut` without padding of `cbc::Encryptor` over
/// `aes::Aes128`: the CBC chain over the blocks. Taking it back gives the data.
#[verifier::external_body]
fn encrypt_cbc(key: &[u8; 16], iv: &[u8; 16], data: &[u8]) -> (r: Vec<u8>)
    requires
        data@.len() % 16 == 0,
    ensures
        r@ == chained(key@, iv@, data@),
        r@.len() == data@.len(),
        unchained(key@, iv@, r@) == data@,
{
    let cipher: cbc::Encryptor<aes::Aes128> = aes::cipher::KeyIvInit::new(key.into(), iv.into());
    let mut out = data.to_vec();
    let n = out.len();
    let _ = aes::cipher::BlockEncryptMut::encrypt_padded_mut::<
        aes::cipher::block_padding::NoPadding,
    >(cipher, &mut out, n);
    out
}

/// `decrypt_padded_mut` without padding of `cbc::Decryptor` over
/// `aes::Aes128`: the CBC chain over the blocks, taken back.
#[verifier::external_body]
fn decrypt_cbc(key: &[u8; 16], iv: &[u8; 16], data: &[u8]) -> (r: Vec<u8>)
    requires
        data@.len() % 16 == 0,
    ensures
        r@ == unchained(key@, iv@, data@),
        r@.len() == data@.len(),
{
    let cipher: cbc::Decryptor<aes::Aes128> = aes::cipher::KeyIvInit::new(key.into(), iv.into());
    let mut out = data.to_vec();
    let _ = aes::cipher::BlockDecryptMut::decrypt_padded_mut::<
        aes::cipher::block_padding::NoPadding,
    >(cipher, &mut out);
    out
}

/// Encrypt payload bytes to a new buffer.
///
/// Readers must use the stored uncompressed size to tell real trailing zero
/// bytes from padding: decrypting gives the data with its padding.
pub fn encrypt(data: &[u8]) -> (r: std::result::Result<Vec<u8>, &'static str>)
    ensures
        match r {
            Ok(out) => {
                &&& data@.len() == 0 || data@.len() + 15 <= usize::MAX
                &&& out@ == encrypted(data@)
                &&& out@.len() == data@.len() + padding(data@.len())
                &&& decrypted(out@) == padded(data@)
            },
            Err(message) => {
                &&& data@.len() != 0
                &&& data@.len() + 15 > usize::MAX
                &&& message@ == "encrypted data length overflow"@
            },
        },
{
    assert(data.len() == data@.len());
    if data.len() == 0 {
        proof {
            assert(padded(data@) =~= Seq::<u8>::empty());
        }
        return Ok(Vec::new());
    }
    if data.len() > usize::MAX - 15 {
        return Err("encrypted data length overflow");
    }
    let mut buffer: Vec<u8> = slice_to_vec(data);
    while buffer.len() % 16 != 0
        invariant
            data@.len() <= buffer@.len() <= data@.len() + padding(data@.len()),
            data@.len() + 15 <= usize::MAX,
            buffer@ == data@ + bytes::zeros((buffer@.len() - data@.len()) as nat),
        decreases data@.len() + padding(data@.len()) - buffer@.len(),
    {
        let ghost before = buffer@;
        buffer.push(0);
        assert(buffer@ =~= data@ + bytes::zeros((buffer@.len() - data@.len()) as nat));
    }
    assert(buffer@.len() == data@.len() + padding(data@.len()));
    let iv: [u8; 16] = [0u8; 16];
    assert(iv@ =~= bytes::zeros(16));
    Ok(encrypt_cbc(&P4K_AES_KEY, &iv, buffer.as_slice()))
}

/// Decrypt data to a new buffer, padding included.
pub fn decrypt(data: &[u8]) -> (r: std::result::Result<Vec<u8>, &'static str>)
    ensures
        match r {
            Ok(out) => {
                &&& data@.len() % 16 == 0
                &&& out@ == decrypted(data@)
                &&& out@.len() == data@.len()
            },
            Err(message) => {
                &&& data@.len() % 16 != 0
                &&& message@ == "data length must be a multiple of 16 bytes"@
            },
        },
{
    if data.len() == 0 {
        return Ok(Vec::new());
    }
    if data.len() % 16 != 0 {
        return Err("data length must be a multiple of 16 bytes");
    }
    let iv: [u8; 16] = [0u8; 16];
    assert(iv@ =~= bytes::zeros(16));
    Ok(decrypt_cbc(&P4K_AES_KEY, &iv, data))
}

/// Decrypt data in place, and give its length.
pub fn decrypt_in_place(data: &mut Vec<u8>) -> (r: std::result::Result<usize, &'static str>)
    ensures
        match r {
            Ok(length) => {
                &&& old(data)@.len() % 16 == 0
                &&& final(data)@ == decrypted(old(data)@)
                &&& length == old(data)@.len()
            },
            Err(message) => {
                &&& old(data)@.len() % 16 != 0
                &&& final(data)@ == old(data)@
                &&& message@ == "data length must be a multiple of 16 bytes"@
            },
        },
{
    match decrypt(data.as_slice()) {
        Ok(out) => {
            *data = out;
            Ok(data.len())
        },
        Err(message) => Err(message),
    }
}

/// The block that the next one is mixed with, after the given blocks.
pub open spec fn chain_end(key: Seq<u8>, previous: Seq<u8>, data: Seq<u8>) -> Seq<u8>
    decreases data.len(),
{
    if data.len() < 16 {
        previous
    } else {
        chain_end(key, aes_encrypted(key, xored(data.take(16), previous)), data.skip(16))
    }
}

/// The chain over one more block.
proof fn lemma_chained_more(key: Seq<u8>, previous: Seq<u8>, data: Seq<u8>, block: Seq<u8>)
    requires
        data.len() % 16 == 0,
        block.len() == 16,
    ensures
        chain_end(key, previous, data + block) == aes_encrypted(
            key,
            xored(block, chain_end(key, previous, data)),
        ),
        chained(key, previous, data + block) == chained(key, previous, data) + chain_end(
            key,
            previous,
            data + block,
        ),
    decreases data.len(),
{
    reveal_with_fuel(chained, 2);
    reveal_with_fuel(chain_end, 2);
    let all = data + block;
    if data.len() == 0 {
        assert(all.take(16) =~= block);
        assert(all.skip(16) =~= Seq::empty());
        assert(chained(key, previous, all) =~= chained(key, previous, data) + chain_end(
            key,
            previous,
            all,
        ));
    } else {
        let first = aes_encrypted(key, xored(data.take(16), previous));
        assert(all.take(16) =~= data.take(16));
        assert(all.skip(16) =~= data.skip(16) + block);
        lemma_chained_more(key, first, data.skip(16), block);
        assert(chained(key, previous, all) =~= chained(key, previous, data) + chain_end(
            key,
            previous,
            all,
        ));
    }
}

fn xor_blocks(a: &[u8; 16], b: &[u8; 16]) -> (r: [u8; 16])
    ensures
        r@ == xored(a@, b@),
{
    let mut r: [u8; 16] = [0u8; 16];
    let mut i: usize = 0;
    while i < 16
        invariant
            i <= 16,
            forall|j: int| 0 <= j < i ==> r@[j] == a@[j] ^ b@[j],
        decreases 16 - i,
    {
        r[i] = a[i] ^ b[i];
        i += 1;
    }
    assert(r@ =~= xored(a@, b@));
    r
}

/// Encrypts bytes as they come, block by block.
pub struct EncryptWriter {
    inner: Vec<u8>,
    start: usize,
    previous: [u8; 16],
    partial: [u8; 16],
    partial_len: usize,
    fed: Ghost<Seq<u8>>,
}

impl EncryptWriter {
    /// What was given to encrypt so far.
    pub closed spec fn fed(&self) -> Seq<u8> {
        self.fed@
    }

    /// What stood in the buffer at first.
    pub closed spec fn prefix(&self) -> Seq<u8> {
        self.inner@.take(self.start as int)
    }

    spec fn whole(&self) -> Seq<u8> {
        self.fed@.take(self.fed@.len() - self.partial_len)
    }

    /// What the parts of a writer keep to.
    pub closed spec fn wf(&self) -> bool {
        &&& self.start <= self.inner@.len()
        &&& self.partial_len < 16
        &&& self.partial_len <= self.fed@.len()
        &&& self.whole().len() % 16 == 0
        &&& self.inner@.skip(self.start as int) == chained(
            P4K_AES_KEY@,
            bytes::zeros(16),
            self.whole(),
        )
        &&& self.previous@ == chain_end(P4K_AES_KEY@, bytes::zeros(16), self.whole())
        &&& self.partial@.take(self.partial_len as int) == self.fed@.skip(
            self.fed@.len() - self.partial_len,
        )
    }

    /// A writer that appends to `inner`.
    pub fn new(inner: Vec<u8>) -> (w: Self)
        ensures
            w.wf(),
            w.fed() == Seq::<u8>::empty(),
            w.prefix() == inner@,
    {
        let previous: [u8; 16] = [0u8; 16];
        let start: usize = inner.len();
        let w = EncryptWriter {
            inner,
            start,
            previous,
            partial: [0u8; 16],
            partial_len: 0,
            fed: Ghost(Seq::empty()),
        };
        proof {
            assert(previous@ =~= bytes::zeros(16));
            assert(w.inner@.take(w.start as int) =~= w.inner@);
            assert(w.inner@.skip(w.start as int) =~= Seq::<u8>::empty());
            assert(w.partial@.take(0) =~= Seq::<u8>::empty());
            assert(w.fed@.skip(0) =~= Seq::<u8>::empty());
        }
        w
    }

    /// Take one more byte.
    fn push(&mut self, byte: u8)
        requires
            old(self).wf(),
        ensures
            final(self).wf(),
            final(self).fed() == old(self).fed().push(byte),
            final(self).prefix() == old(self).prefix(),
    {
        let ghost before = *self;
        let ghost n = before.fed@.len();
        let ghost p = before.partial_len as int;
        self.partial[self.partial_len] = byte;
        self.partial_len += 1;
        self.fed = Ghost(self.fed@.push(byte));
        proof {
            assert(self.whole() =~= before.whole());
            let old_tail = before.fed@.skip(n - p);
            assert forall|i: int| 0 <= i < p + 1 implies self.partial@[i] == self.fed@[n - p + i] by {
                if i < p {
                    assert(before.partial@.take(p)[i] == before.partial@[i]);
                    assert(old_tail[i] == before.fed@[n - p + i]);
                }
            }
            assert(self.partial@.take(p + 1) =~= self.fed@.skip(n - p));
        }
        if self.partial_len == 16 {
            let mixed = xor_blocks(&self.partial, &self.previous);
            let block = encrypt_aes_block(&P4K_AES_KEY, &mixed);
            let ghost key = P4K_AES_KEY@;
            let ghost iv = bytes::zeros(16);
            proof {
                assert(self.partial@.take(16) =~= self.partial@);
                lemma_chained_more(key, iv, before.whole(), self.partial@);
                assert(before.whole() + self.partial@ =~= self.fed@);
            }
            put_bytes(&mut self.inner, block.as_slice());
            self.previous = block;
            self.partial_len = 0;
            proof {
                assert(self.whole() =~= self.fed@);
                assert(self.inner@.skip(self.start as int) =~= before.inner@.skip(
                    self.start as int,
                ) + block@);
                assert(self.partial@.take(0) =~= self.fed@.skip(self.fed@.len() as int));
            }
        }
        assert(self.inner@.take(self.start as int) =~= before.inner@.take(self.start as int));
    }

    /// Take more bytes, and say how many were taken: all of them.
    pub fn write(&mut self, buf: &[u8]) -> (n: usize)
        requires
            old(self).wf(),
        ensures
            final(self).wf(),
            final(self).fed() == old(self).fed() + buf@,
            final(self).prefix() == old(self).prefix(),
            n == buf@.len(),
    {
        let mut i: usize = 0;
        assert(buf@.take(0) =~= Seq::empty());
        assert(self.fed() + buf@.take(0) =~= self.fed());
        while i < buf.len()
            invariant
                i <= buf@.len(),
                self.wf(),
                self.fed() == old(self).fed() + buf@.take(i as int),
                self.prefix() == old(self).prefix(),
            decreases buf@.len() - i,
        {
            self.push(buf[i]);
            assert(buf@.take(i + 1) =~= buf@.take(i as int).push(buf@[i as int]));
            assert((old(self).fed() + buf@.take(i as int)).push(buf@[i as int]) =~= old(self).fed()
                + buf@.take(i + 1));
            i += 1;
        }
        assert(buf@.take(i as int) =~= buf@);
        buf.len()
    }

    /// Pad what is left, and give the buffer and how many bytes were appended.
    ///
    /// However the bytes were split over the writes, they are encrypted as if
    /// they had come at once.
    pub fn finish(self) -> (r: (Vec<u8>, u64))
        requires
            self.wf(),
        ensures
            r.0@ == self.prefix() + encrypted(self.fed()),
            r.1 == encrypted(self.fed()).len(),
    {
        let mut w = self;
        let ghost data = self.fed();
        let mut pad: usize = 0;
        assert(w.fed() =~= data + bytes::zeros(0));
        while w.partial_len != 0
            invariant
                w.wf(),
                w.prefix() == self.prefix(),
                data == self.fed(),
                pad <= padding(data.len()),
                w.fed() == data + bytes::zeros(pad as nat),
            decreases 16 - pad,
        {
            assert(w.whole().len() % 16 == 0);
            assert((data.len() + pad) % 16 == w.partial_len);
            w.push(0);
            pad += 1;
            assert((data + bytes::zeros((pad - 1) as nat)).push(0u8) =~= data + bytes::zeros(
                pad as nat,
            ));
        }
        proof {
            assert(w.whole() =~= w.fed());
            assert((data.len() + pad) % 16 == 0);
            assert(w.fed() =~= padded(data));
            assert(w.inner@ =~= w.inner@.take(w.start as int) + w.inner@.skip(w.start as int));
        }
        let count: usize = w.inner.len() - w.start;
        (w.inner, count as u64)
    }
}

/// Bytes are encrypted in pieces of this size.
pub const BUFFER_SIZE: usize = 0x2_0000;

/// Encrypt `reader` in pieces, append the result to `writer`, and say how many
/// bytes were appended.
pub fn encrypt_reader_to_writer(reader: &[u8], writer: &mut Vec<u8>) -> (written: u64)
    ensures
        final(writer)@ == old(writer)@ + encrypted(reader@),
        written == encrypted(reader@).len(),
{
    let mut out: Vec<u8> = Vec::new();
    std::mem::swap(&mut out, writer);
    let mut w = EncryptWriter::new(out);
    let mut at: usize = 0;
    assert(reader@.take(0) =~= Seq::empty());
    while at < reader.len()
        invariant
            at <= reader@.len(),
            w.wf(),
            w.fed() == reader@.take(at as int),
            w.prefix() == old(writer)@,
        decreases reader@.len() - at,
    {
        let next: usize = if reader.len() - at > BUFFER_SIZE {
            at + BUFFER_SIZE
        } else {
            reader.len()
        };
        w.write(slice_subrange(reader, at, next));
        assert(reader@.take(next as int) =~= reader@.take(at as int) + reader@.subrange(
            at as int,
            next as int,
        ));
        at = next;
    }
    assert(reader@.take(at as int) =~= reader@);
    let (out, written) = w.finish();
    *writer = out;
    written
}

proof fn lemma_unchained_length(key: Seq<u8>, previous: Seq<u8>, data: Seq<u8>)
    ensures
        unchained(key, previous, data).len() == data.len() / 16 * 16,
    decreases data.len(),
{
    if data.len() >= 16 {
        lemma_unchained_length(key, data.take(16), data.skip(16));
    }
}

/// Decrypting gives the whole blocks.
pub proof fn lemma_decrypted_length(data: Seq<u8>)
    ensures
        decrypted(data).len() == data.len() / 16 * 16,
{
    lemma_unchained_length(P4K_AES_KEY@, bytes::zeros(16), data);
}

/// One block of the chain, taken back.
pub proof fn lemma_unchained_block(key: Seq<u8>, previous: Seq<u8>, data: Seq<u8>, at: int)
    requires
        0 <= at,
        at % 16 == 0,
        at + 16 <= data.len(),
    ensures
        at + 16 <= unchained(key, previous, data).len(),
        unchained(key, previous, data).subrange(at, at + 16) == xored(
            aes_decrypted(key, data.subrange(at, at + 16)),
            if at == 0 {
                previous
            } else {
                data.subrange(at - 16, at)
            },
        ),
    decreases at,
{
    lemma_unchained_length(key, previous, data);
    let all = unchained(key, previous, data);
    let rest = unchained(key, data.take(16), data.skip(16));
    let first = xored(aes_decrypted(key, data.take(16)), previous);
    assert(all == first + rest);
    if at == 0 {
        assert(data.take(16) =~= data.subrange(0, 16));
        assert(all.subrange(0, 16) =~= first);
    } else {
        lemma_unchained_block(key, data.take(16), data.skip(16), at - 16);
        assert(all.subrange(at, at + 16) =~= rest.subrange(at - 16, at));
        assert(data.skip(16).subrange(at - 16, at) =~= data.subrange(at, at + 16));
        if at == 16 {
            assert(data.take(16) =~= data.subrange(0, 16));
        } else {
            assert(data.skip(16).subrange(at - 32, at - 16) =~= data.subrange(at - 16, at));
        }
    }
}

/// Decrypts bytes as they are asked for, block by block.
pub struct DecryptReader<'a> {
    inner: &'a [u8],
    taken: usize,
    previous: [u8; 16],
    pending: [u8; 16],
    pending_pos: usize,
    pending_len: usize,
}

impl<'a> DecryptReader<'a> {
    /// The bytes that are decrypted.
    pub closed spec fn source(&self) -> Seq<u8> {
        self.inner@
    }

    /// How many decrypted bytes were handed out.
    pub closed spec fn given(&self) -> int {
        self.taken - (self.pending_len - self.pending_pos)
    }

    /// What the parts of a reader keep to.
    pub closed spec fn wf(&self) -> bool {
        &&& self.taken <= self.inner@.len()
        &&& self.taken % 16 == 0
        &&& self.pending_pos <= self.pending_len
        &&& self.pending_len == 0 || (self.pending_len == 16 && self.taken >= 16)
        &&& self.previous@ == if self.taken == 0 {
            bytes::zeros(16)
        } else {
            self.inner@.subrange(self.taken - 16, self.taken as int)
        }
        &&& self.pending_len == 16 ==> self.pending@ == decrypted(self.inner@).subrange(
            self.taken - 16,
            self.taken as int,
        )
    }

    /// A reader of the given bytes.
    pub fn new(inner: &'a [u8]) -> (r: Self)
        ensures
            r.wf(),
            r.source() == inner@,
            r.given() == 0,
    {
        let previous: [u8; 16] = [0u8; 16];
        assert(previous@ =~= bytes::zeros(16));
        DecryptReader {
            inner,
            taken: 0,
            previous,
            pending: [0u8; 16],
            pending_pos: 0,
            pending_len: 0,
        }
    }

    /// Decrypt the next block, if there is one.
    fn refill(&mut self) -> (r: Result<()>)
        requires
            old(self).wf(),
            old(self).pending_pos == old(self).pending_len,
        ensures
            final(self).wf(),
            final(self).source() == old(self).source(),
            final(self).given() == old(self).given(),
            match r {
                Ok(_) => if old(self).given() == old(self).source().len() {
                    final(self).pending_pos == final(self).pending_len
                } else {
                    &&& final(self).pending_pos == 0
                    &&& final(self).pending_len == 16
                },
                Err(e) => {
                    &&& old(self).given() < old(self).source().len() < old(self).given() + 16
                    &&& e@ == partial_block_fault()
                },
            },
    {
        assert(self.inner.len() == self.inner@.len());
        let left: usize = self.inner.len() - self.taken;
        if left == 0 {
            return Ok(());
        }
        if left < 16 {
            return Err(
                Error::Io {
                    kind: IoErrorKind::InvalidData,
                    message: String::from_str(
                        "encrypted data length must be a multiple of 16 bytes",
                    ),
                },
            );
        }
        let block: [u8; 16] = get_array::<16>(self.inner, self.taken);
        let plain = decrypt_aes_block(&P4K_AES_KEY, &block);
        proof {
            lemma_unchained_block(
                P4K_AES_KEY@,
                bytes::zeros(16),
                self.inner@,
                self.taken as int,
            );
        }
        self.pending = xor_blocks(&plain, &self.previous);
        self.previous = block;
        self.taken += 16;
        self.pending_pos = 0;
        self.pending_len = 16;
        Ok(())
    }

    /// Hand out up to `limit` further bytes: append them to `out`, and say how
    /// many there were.
    pub fn read(&mut self, out: &mut Vec<u8>, limit: usize) -> (r: Result<usize>)
        requires
            old(self).wf(),
        ensures
            final(self).wf(),
            final(self).source() == old(self).source(),
            match r {
                Ok(n) => {
                    let plain = decrypted(old(self).source());
                    let from = old(self).given();
                    &&& n == if from + limit <= plain.len() {
                        limit as int
                    } else {
                        plain.len() - from
                    }
                    &&& limit == 0 || from + limit <= plain.len() || old(self).source().len() % 16
                        == 0
                    &&& final(out)@ == old(out)@ + plain.subrange(from, from + n)
                    &&& final(self).given() == from + n
                },
                Err(e) => {
                    &&& old(self).source().len() % 16 != 0
                    &&& limit > 0
                    &&& old(self).given() + limit > decrypted(old(self).source()).len()
                    &&& e@ == partial_block_fault()
                    &&& final(out)@ == old(out)@
                },
            },
    {
        let ghost plain = decrypted(self.inner@);
        let ghost from = self.given();
        proof {
            lemma_unchained_length(P4K_AES_KEY@, bytes::zeros(16), self.inner@);
        }
        let mut copied: Vec<u8> = Vec::new();
        assert(plain.subrange(from, from) =~= Seq::empty());
        while copied.len() < limit
            invariant_except_break
                copied@.len() <= limit,
            invariant
                self.wf(),
                self.source() == old(self).source(),
                plain == decrypted(self.inner@),
                plain.len() == self.inner@.len() / 16 * 16,
                from == old(self).given(),
                0 <= from,
                self.given() == from + copied@.len(),
                self.given() <= plain.len(),
                copied@ == plain.subrange(from, self.given()),
                out@ == old(out)@,
            ensures
                copied@.len() <= limit,
                copied@.len() == limit || (self.given() == plain.len() && self.inner@.len() % 16
                    == 0),
            decreases limit - copied@.len(),
        {
            if self.pending_pos == self.pending_len {
                match self.refill() {
                    Ok(_) => {},
                    Err(e) => return Err(e),
                }
                if self.pending_pos == self.pending_len {
                    break;
                }
            }
            let ghost before = self.given();
            let byte: u8 = self.pending[self.pending_pos];
            proof {
                assert(byte == plain.subrange(
                    self.taken - 16,
                    self.taken as int,
                )[self.pending_pos as int]);
                assert(byte == plain[before]);
                assert(plain.subrange(from, before + 1) =~= plain.subrange(from, before).push(
                    byte,
                ));
            }
            copied.push(byte);
            self.pending_pos += 1;
        }
        put_bytes(out, copied.as_slice());
        Ok(copied.len())
    }

    /// Hand out all that is left.
    pub fn read_to_end(&mut self, out: &mut Vec<u8>) -> (r: Result<usize>)
        requires
            old(self).wf(),
        ensures
            final(self).wf(),
            final(self).source() == old(self).source(),
            match r {
                Ok(n) => {
                    let plain = decrypted(old(self).source());
                    &&& old(self).source().len() % 16 == 0
                    &&& n == plain.len() - old(self).given()
                    &&& final(out)@ == old(out)@ + plain.skip(old(self).given())
                    &&& final(self).given() == plain.len()
                },
                Err(e) => {
                    &&& old(self).source().len() % 16 != 0
                    &&& e@ == partial_block_fault()
                    &&& final(out)@ == old(out)@
                },
            },
    {
        let ghost plain = decrypted(self.inner@);
        let ghost from = self.given();
        proof {
            assert(self.inner.len() == self.inner@.len());
            lemma_unchained_length(P4K_AES_KEY@, bytes::zeros(16), self.inner@);
            lemma_fundamental_div_mod(self.inner@.len() as int, 16);
        }
        let available: usize = self.inner.len() - self.taken + (self.pending_len
            - self.pending_pos);
        let n: usize = self.read(out, available)?;
        proof {
            assert(plain.subrange(from, from + n) =~= plain.skip(from));
        }
        Ok(n)
    }
}

/// The fault of a block that is cut short.
pub open spec fn partial_block_fault() -> Fault {
    Fault::Io {
        kind: IoErrorKind::InvalidData,
        message: "encrypted data length must be a multiple of 16 bytes"@,
    }
}

/// What is signed of an entry: checksum, sizes and name.
pub open spec fn signature_metadata(
    name: Seq<char>,
    crc32: u32,
    compressed_size: u64,
    uncompressed_size: u64,
    lowercase_normalize: bool,
) -> Seq<u8> {
    let raw = encode_utf8(name);
    bytes::u32_bytes(crc32) + bytes::u64_bytes(compressed_size) + bytes::u64_bytes(
        uncompressed_size,
    ) + if lowercase_normalize {
        path::lower_bytes(path::replaced(raw, path::BACKSLASH, path::SLASH))
    } else {
        raw
    }
}

/// The bytes that are signed of an entry.
///
/// With `lowercase_normalize` the name is made small and its backslashes
/// become slashes. It is not normalized further, so duplicate separators,
/// `./`, `../` and trailing spaces stay.
pub fn signature_metadata_bytes(
    name: &str,
    crc32: u32,
    compressed_size: u64,
    uncompressed_size: u64,
    lowercase_normalize: bool,
) -> (r: Vec<u8>)
    ensures
        r@ == signature_metadata(
            name@,
            crc32,
            compressed_size,
            uncompressed_size,
            lowercase_normalize,
        ),
{
    let mut out: Vec<u8> = Vec::new();
    put_u32(&mut out, crc32);
    assert(out@ =~= bytes::u32_bytes(crc32));
    put_u64(&mut out, compressed_size);
    put_u64(&mut out, uncompressed_size);
    let raw = name.as_bytes();
    if !lowercase_normalize {
        put_bytes(&mut out, raw);
        return out;
    }
    let ghost head = out@;
    let ghost target = path::lower_bytes(path::replaced(raw@, path::BACKSLASH, path::SLASH));
    let mut i: usize = 0;
    assert(head + target.take(0) =~= head);
    while i < raw.len()
        invariant
            i <= raw@.len(),
            target == path::lower_bytes(path::replaced(raw@, path::BACKSLASH, path::SLASH)),
            target.len() == raw@.len(),
            out@ == head + target.take(i as int),
        decreases raw@.len() - i,
    {
        let byte: u8 = raw[i];
        if byte == path::BACKSLASH {
            out.push(path::SLASH);
        } else if 0x41 <= byte && byte <= 0x5A {
            out.push(byte + 0x20);
        } else {
            out.push(byte);
        }
        assert(out@ =~= head + target.take(i + 1));
        i += 1;
    }
    assert(target.take(i as int) =~= target);
    out
}

/// Compute the digest that is signed into the signature field of an entry.
pub fn signature_metadata_sha256(
    name: &str,
    crc32: u32,
    compressed_size: u64,
    uncompressed_size: u64,
    lowercase_normalize: bool,
) -> (r: [u8; 32])
    ensures
        r@ == digest::sha256_of(
            signature_metadata(
                name@,
                crc32,
                compressed_size,
                uncompressed_size,
                lowercase_normalize,
            ),
        ),
{
    sha256(
        signature_metadata_bytes(
            name,
            crc32,
            compressed_size,
            uncompressed_size,
            lowercase_normalize,
        ).as_slice(),
    )
}

} // verus!
