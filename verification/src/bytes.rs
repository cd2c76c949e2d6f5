//! Little-endian integers and runs of bytes.

use vstd::prelude::*;
use vstd::slice::*;

verus! {

/// The little-endian `u16` at `at`.
#[verifier::opaque]
pub open spec fn le16(s: Seq<u8>, at: int) -> u16 {
    (s[at] + 0x100 * s[at + 1]) as u16
}

/// The little-endian `u32` at `at`.
#[verifier::opaque]
pub open spec fn le32(s: Seq<u8>, at: int) -> u32 {
    (s[at] + 0x100 * s[at + 1] + 0x1_0000 * s[at + 2] + 0x100_0000 * s[at + 3]) as u32
}

/// The little-endian `u64` at `at`.
#[verifier::opaque]
pub open spec fn le64(s: Seq<u8>, at: int) -> u64 {
    (le32(s, at) + 0x1_0000_0000 * le32(s, at + 4)) as u64
}

/// `x` as two little-endian bytes.
pub open spec fn u16_bytes(x: u16) -> Seq<u8> {
    seq![(x % 0x100) as u8, (x / 0x100) as u8]
}

/// `x` as four little-endian bytes.
pub open spec fn u32_bytes(x: u32) -> Seq<u8> {
    seq![
        (x % 0x100) as u8,
        (x / 0x100 % 0x100) as u8,
        (x / 0x1_0000 % 0x100) as u8,
        (x / 0x100_0000) as u8,
    ]
}

/// `x` as eight little-endian bytes.
pub open spec fn u64_bytes(x: u64) -> Seq<u8> {
    u32_bytes((x % 0x1_0000_0000) as u32) + u32_bytes((x / 0x1_0000_0000) as u32)
}

/// `n` zero bytes.
pub open spec fn zeros(n: nat) -> Seq<u8> {
    Seq::new(n, |i: int| 0u8)
}

/// Whether `part` stands in `s` at `at`.
pub open spec fn holds_at(s: Seq<u8>, at: int, part: Seq<u8>) -> bool {
    &&& 0 <= at
    &&& at + part.len() <= s.len()
    &&& s.subrange(at, at + part.len()) == part
}

/// Whether every byte of `s` from `from` up to `to` is zero.
pub open spec fn zero_between(s: Seq<u8>, from: int, to: int) -> bool {
    forall|i: int| from <= i < to ==> s[i] == 0
}

/// Two runs that stand one behind the other.
pub proof fn lemma_holds_split(s: Seq<u8>, at: int, a: Seq<u8>, b: Seq<u8>)
    ensures
        holds_at(s, at, a + b) <==> holds_at(s, at, a) && holds_at(s, at + a.len(), b),
{
    let n = a.len() as int;
    let m = b.len() as int;
    if holds_at(s, at, a + b) {
        assert(s.subrange(at, at + n) =~= (a + b).subrange(0, n));
        assert((a + b).subrange(0, n) =~= a);
        assert(s.subrange(at + n, at + n + m) =~= (a + b).subrange(n, n + m));
        assert((a + b).subrange(n, n + m) =~= b);
    }
    if holds_at(s, at, a) && holds_at(s, at + n, b) {
        assert(s.subrange(at, at + n + m) =~= s.subrange(at, at + n) + s.subrange(at + n, at + n + m));
    }
}

/// How long written numbers are.
pub proof fn lemma_number_lengths(a: u16, b: u32, c: u64)
    ensures
        u16_bytes(a).len() == 2,
        u32_bytes(b).len() == 4,
        u64_bytes(c).len() == 8,
{
}

/// Runs can be joined in either order.
pub proof fn lemma_joined(a: Seq<u8>, b: Seq<u8>, c: Seq<u8>)
    ensures
        (a + b) + c == a + (b + c),
{
    assert((a + b) + c =~= a + (b + c));
}

/// Reading back a written `u16` gives the same number.
pub proof fn lemma_le16_of_bytes(s: Seq<u8>, at: int, x: u16)
    requires
        holds_at(s, at, u16_bytes(x)),
    ensures
        le16(s, at) == x,
{
    reveal(le16);
    let p = s.subrange(at, at + 2);
    assert(s[at] == p[0] && s[at + 1] == p[1]);
}

/// Reading back a written `u32` gives the same number.
pub proof fn lemma_le32_of_bytes(s: Seq<u8>, at: int, x: u32)
    requires
        holds_at(s, at, u32_bytes(x)),
    ensures
        le32(s, at) == x,
{
    reveal(le32);
    let p = s.subrange(at, at + 4);
    assert(s[at] == p[0] && s[at + 1] == p[1] && s[at + 2] == p[2] && s[at + 3] == p[3]);
}

/// Reading back a written `u64` gives the same number.
pub proof fn lemma_le64_of_bytes(s: Seq<u8>, at: int, x: u64)
    requires
        holds_at(s, at, u64_bytes(x)),
    ensures
        le64(s, at) == x,
{
    reveal(le64);
    let p = u64_bytes(x);
    assert(s.subrange(at, at + 4) =~= p.subrange(0, 4));
    assert(s.subrange(at + 4, at + 8) =~= p.subrange(4, 8));
    assert(p.subrange(0, 4) =~= u32_bytes((x % 0x1_0000_0000) as u32));
    assert(p.subrange(4, 8) =~= u32_bytes((x / 0x1_0000_0000) as u32));
    lemma_le32_of_bytes(s, at, (x % 0x1_0000_0000) as u32);
    lemma_le32_of_bytes(s, at + 4, (x / 0x1_0000_0000) as u32);
}

/// Reads depend on the bytes read alone.
pub proof fn lemma_reads_of_part(s: Seq<u8>, from: int, to: int, at: int)
    requires
        0 <= from <= to <= s.len(),
        0 <= at,
    ensures
        from + at + 2 <= to ==> le16(s.subrange(from, to), at) == le16(s, from + at),
        from + at + 4 <= to ==> le32(s.subrange(from, to), at) == le32(s, from + at),
        from + at + 8 <= to ==> le64(s.subrange(from, to), at) == le64(s, from + at),
{
    reveal(le16);
    reveal(le32);
    reveal(le64);
}

/// Read the little-endian `u16` at `at`.
pub fn get_u16(data: &[u8], at: usize) -> (v: u16)
    requires
        at + 2 <= data@.len(),
    ensures
        v == le16(data@, at as int),
{
    proof {
        reveal(le16);
    }
    data[at] as u16 + 0x100 * data[at + 1] as u16
}

/// Read the little-endian `u32` at `at`.
pub fn get_u32(data: &[u8], at: usize) -> (v: u32)
    requires
        at + 4 <= data@.len(),
    ensures
        v == le32(data@, at as int),
{
    proof {
        reveal(le32);
    }
    data[at] as u32 + 0x100 * data[at + 1] as u32 + 0x1_0000 * data[at + 2] as u32 + 0x100_0000
        * data[at + 3] as u32
}

/// Read the little-endian `u64` at `at`.
pub fn get_u64(data: &[u8], at: usize) -> (v: u64)
    requires
        at + 8 <= data@.len(),
    ensures
        v == le64(data@, at as int),
{
    proof {
        reveal(le64);
        assert(data.len() == data@.len());
    }
    get_u32(data, at) as u64 + 0x1_0000_0000 * get_u32(data, at + 4) as u64
}

/// Append `x` as two little-endian bytes.
pub fn put_u16(out: &mut Vec<u8>, x: u16)
    ensures
        final(out)@ == old(out)@ + u16_bytes(x),
{
    out.push((x % 0x100) as u8);
    out.push((x / 0x100) as u8);
    assert(out@ =~= old(out)@ + u16_bytes(x));
}

/// Append `x` as four little-endian bytes.
pub fn put_u32(out: &mut Vec<u8>, x: u32)
    ensures
        final(out)@ == old(out)@ + u32_bytes(x),
{
    out.push((x % 0x100) as u8);
    out.push((x / 0x100 % 0x100) as u8);
    out.push((x / 0x1_0000 % 0x100) as u8);
    out.push((x / 0x100_0000) as u8);
    assert(out@ =~= old(out)@ + u32_bytes(x));
}

/// Append `x` as eight little-endian bytes.
pub fn put_u64(out: &mut Vec<u8>, x: u64)
    ensures
        final(out)@ == old(out)@ + u64_bytes(x),
{
    put_u32(out, (x % 0x1_0000_0000) as u32);
    put_u32(out, (x / 0x1_0000_0000) as u32);
    assert(out@ =~= old(out)@ + u64_bytes(x));
}

/// Append the bytes of `part`.
pub fn put_bytes(out: &mut Vec<u8>, part: &[u8])
    ensures
        final(out)@ == old(out)@ + part@,
{
    let mut i: usize = 0;
    while i < part.len()
        invariant
            i <= part@.len(),
            out@ == old(out)@ + part@.take(i as int),
        decreases part@.len() - i,
    {
        out.push(part[i]);
        i += 1;
        assert(out@ =~= old(out)@ + part@.take(i as int));
    }
    assert(part@.take(i as int) =~= part@);
}

/// Append `count` zero bytes.
pub fn put_zeros(out: &mut Vec<u8>, count: u64)
    ensures
        final(out)@ == old(out)@ + zeros(count as nat),
{
    let mut i: u64 = 0;
    assert(out@ =~= old(out)@ + zeros(0));
    while i < count
        invariant
            i <= count,
            out@ == old(out)@ + zeros(i as nat),
        decreases count - i,
    {
        out.push(0);
        i += 1;
        assert(out@ =~= old(out)@ + zeros(i as nat));
    }
}

/// Whether two byte runs are the same.
pub fn same_bytes(a: &[u8], b: &[u8]) -> (r: bool)
    ensures
        r == (a@ == b@),
{
    if a.len() != b.len() {
        return false;
    }
    let mut i: usize = 0;
    while i < a.len()
        invariant
            i <= a@.len(),
            a@.len() == b@.len(),
            forall|j: int| 0 <= j < i ==> a@[j] == b@[j],
        decreases a@.len() - i,
    {
        if a[i] != b[i] {
            return false;
        }
        i += 1;
    }
    assert(a@ =~= b@);
    true
}

/// Whether every byte from `from` up to `to` is zero.
pub fn all_zero(data: &[u8], from: usize, to: usize) -> (r: bool)
    requires
        from <= to <= data@.len(),
    ensures
        r == zero_between(data@, from as int, to as int),
{
    let mut i: usize = from;
    while i < to
        invariant
            from <= i <= to <= data@.len(),
            forall|j: int| from <= j < i ==> data@[j] == 0,
        decreases to - i,
    {
        if data[i] != 0 {
            return false;
        }
        i += 1;
    }
    true
}

/// The `N` bytes at `at` as an array.
pub fn get_array<const N: usize>(data: &[u8], at: usize) -> (r: [u8; N])
    requires
        at + N <= data@.len(),
    ensures
        r@ == data@.subrange(at as int, at + N),
{
    let mut out: [u8; N] = [0u8; N];
    assert(data.len() <= usize::MAX);
    let mut i: usize = 0;
    while i < N
        invariant
            i <= N,
            at + N <= data@.len(),
            data@.len() <= usize::MAX,
            forall|j: int| 0 <= j < i ==> out@[j] == data@[at + j],
        decreases N - i,
    {
        out[i] = data[at + i];
        i += 1;
    }
    assert(out@ =~= data@.subrange(at as int, at + N));
    out
}

} // verus!
