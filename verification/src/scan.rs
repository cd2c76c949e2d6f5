//! Searches in byte runs.

use vstd::prelude::*;
use vstd::slice::*;

verus! {

/// Where the content of `data` ends: behind its last byte that is not zero.
pub open spec fn content_end(data: Seq<u8>) -> int
    decreases data.len(),
{
    if data.len() == 0 || data.last() != 0 {
        data.len() as int
    } else {
        content_end(data.drop_last())
    }
}

/// The content end is the one position behind which all is zero and before
/// which stands a byte that is not.
pub proof fn law_content_end(data: Seq<u8>)
    ensures
        0 <= content_end(data) <= data.len(),
        content_end(data) > 0 ==> data[content_end(data) - 1] != 0,
        forall|i: int| content_end(data) <= i < data.len() ==> data[i] == 0,
    decreases data.len(),
{
    if data.len() > 0 && data.last() == 0 {
        law_content_end(data.drop_last());
        assert forall|i: int| content_end(data) <= i < data.len() implies data[i] == 0 by {
            if i < data.len() - 1 {
                assert(data.drop_last()[i] == data[i]);
            }
        }
    }
}

/// The content end is fixed by what stands around it.
pub proof fn lemma_content_end_is(data: Seq<u8>, end: int)
    requires
        0 <= end <= data.len(),
        end > 0 ==> data[end - 1] != 0,
        forall|i: int| end <= i < data.len() ==> data[i] == 0,
    ensures
        content_end(data) == end,
{
    law_content_end(data);
}

/// Find the last byte that is not zero, and give the position behind it.
fn find_last_nonzero_scalar(data: &[u8], to: usize) -> (end: usize)
    requires
        to <= data@.len(),
        forall|i: int| to <= i < data@.len() ==> data@[i] == 0,
    ensures
        end == content_end(data@),
{
    let mut end: usize = to;
    while end > 0 && data[end - 1] == 0
        invariant
            end <= data@.len(),
            forall|i: int| end <= i < data@.len() ==> data@[i] == 0,
        decreases end,
    {
        end -= 1;
    }
    proof {
        lemma_content_end_is(data@, end as int);
    }
    end
}

/// Chunk size for the scan from the end.
pub const CHUNK_SIZE: usize = 64;

/// Find the end of actual content, a chunk at a time.
pub fn find_content_end_scalar(data: &[u8]) -> (end: usize)
    ensures
        end == content_end(data@),
{
    let mut pos: usize = data.len();
    while pos >= CHUNK_SIZE
        invariant
            pos <= data@.len(),
            forall|i: int| pos <= i < data@.len() ==> data@[i] == 0,
        decreases pos,
    {
        if !crate::bytes::all_zero(data, pos - CHUNK_SIZE, pos) {
            return find_last_nonzero_scalar(data, pos);
        }
        pos -= CHUNK_SIZE;
    }
    find_last_nonzero_scalar(data, pos)
}

/// Find the end of actual content by scanning backwards for non-zero bytes.
///
/// P4K files often have large amounts of null padding at the end.
pub fn find_content_end(data: &[u8]) -> (end: usize)
    ensures
        end == content_end(data@),
{
    find_content_end_scalar(data)
}

/// Whether `needle` stands in `s` at `i`.
pub open spec fn occurs_at(s: Seq<u8>, needle: Seq<u8>, i: int) -> bool {
    0 <= i && i + needle.len() <= s.len() && s.subrange(i, i + needle.len()) == needle
}

/// `memchr::memmem::rfind`: the last position where `needle` stands in
/// `haystack`, or none where it stands nowhere.
#[verifier::external_body]
fn last_occurrence(haystack: &[u8], needle: &[u8]) -> (r: Option<usize>)
    ensures
        match r {
            Some(i) => occurs_at(haystack@, needle@, i as int) && forall|j: int|
                i < j ==> !occurs_at(haystack@, needle@, j),
            None => forall|j: int| !occurs_at(haystack@, needle@, j),
        },
{
    memchr::memmem::rfind(haystack, needle)
}

/// `memchr::memchr`: the first position of `byte` in `haystack`, or none where
/// it stands nowhere.
#[verifier::external_body]
pub(crate) fn first_position(byte: u8, haystack: &[u8]) -> (r: Option<usize>)
    ensures
        match r {
            Some(i) => i < haystack@.len() && haystack@[i as int] == byte && forall|j: int|
                0 <= j < i ==> haystack@[j] != byte,
            None => forall|j: int| 0 <= j < haystack@.len() ==> haystack@[j] != byte,
        },
{
    memchr::memchr(byte, haystack)
}

/// Whether `i` is the last position from `from` up to `to` where `needle` stands.
pub open spec fn is_last_within(
    data: Seq<u8>,
    needle: Seq<u8>,
    from: int,
    to: int,
    i: int,
) -> bool {
    &&& from <= i
    &&& i + needle.len() <= to
    &&& occurs_at(data, needle, i)
    &&& forall|j: int| i < j && j + needle.len() <= to ==> !occurs_at(data, needle, j)
}

/// What a search for the last `needle` from `from` up to `to` finds.
pub open spec fn found_last(
    data: Seq<u8>,
    needle: Seq<u8>,
    from: int,
    to: int,
    r: Option<usize>,
) -> bool {
    match r {
        Some(i) => from < to <= data.len() && is_last_within(data, needle, from, to, i as int),
        None => from < to <= data.len() ==> forall|j: int|
            from <= j && j + needle.len() <= to ==> !occurs_at(data, needle, j),
    }
}

fn find_last_within(data: &[u8], needle: &[u8], from: usize, to: usize) -> (r: Option<usize>)
    requires
        needle@.len() > 0,
    ensures
        found_last(data@, needle@, from as int, to as int, r),
{
    if to <= from || to > data.len() {
        return None;
    }
    let part = slice_subrange(data, from, to);
    proof {
        assert forall|j: int|
            from <= j && j + needle@.len() <= to implies occurs_at(part@, needle@, j - from)
            == occurs_at(data@, needle@, j) by {
            assert(part@.subrange(j - from, j - from + needle@.len()) =~= data@.subrange(
                j,
                j + needle@.len(),
            ));
        }
    }
    match last_occurrence(part, needle) {
        Some(i) => {
            proof {
                let at = from + i;
                assert(occurs_at(part@, needle@, at - from));
                assert(occurs_at(data@, needle@, at));
                assert forall|j: int| at < j && j + needle@.len() <= to implies !occurs_at(
                    data@,
                    needle@,
                    j,
                ) by {
                    assert(!occurs_at(part@, needle@, j - from));
                }
            }
            Some(from + i)
        },
        None => {
            proof {
                assert forall|j: int| from <= j && j + needle@.len() <= to implies !occurs_at(
                    data@,
                    needle@,
                    j,
                ) by {
                    assert(!occurs_at(part@, needle@, j - from));
                }
            }
            None
        },
    }
}

/// The bytes of the EOCD signature.
pub open spec fn eocd_signature() -> Seq<u8> {
    seq![0x50u8, 0x4Bu8, 0x05u8, 0x06u8]
}

/// The bytes of the ZIP64 locator signature.
pub open spec fn eocd64_locator_signature() -> Seq<u8> {
    seq![0x50u8, 0x4Bu8, 0x06u8, 0x07u8]
}

/// Search for the last EOCD signature in the given range.
pub fn find_eocd_signature(data: &[u8], search_start: usize, search_end: usize) -> (r: Option<
    usize,
>)
    ensures
        found_last(data@, eocd_signature(), search_start as int, search_end as int, r),
{
    let needle: [u8; 4] = [0x50, 0x4B, 0x05, 0x06];
    assert(needle@ =~= eocd_signature());
    find_last_within(data, needle.as_slice(), search_start, search_end)
}

/// Search for the last ZIP64 locator signature in the given range.
pub fn find_eocd64_locator_signature(
    data: &[u8],
    search_start: usize,
    search_end: usize,
) -> (r: Option<usize>)
    ensures
        found_last(data@, eocd64_locator_signature(), search_start as int, search_end as int, r),
{
    let needle: [u8; 4] = [0x50, 0x4B, 0x06, 0x07];
    assert(needle@ =~= eocd64_locator_signature());
    find_last_within(data, needle.as_slice(), search_start, search_end)
}

/// The last position from `from` up to and including `to` where `needle` stands.
pub open spec fn last_position(data: Seq<u8>, needle: Seq<u8>, from: int, to: int) -> Option<int>
    decreases to - from + 1,
{
    if to < from {
        None
    } else if occurs_at(data, needle, to) {
        Some(to)
    } else {
        last_position(data, needle, from, to - 1)
    }
}

/// The last position is the one behind which `needle` stands no more.
pub proof fn lemma_last_position(
    data: Seq<u8>,
    needle: Seq<u8>,
    from: int,
    to: int,
    r: Option<int>,
)
    requires
        match r {
            Some(i) => from <= i <= to && occurs_at(data, needle, i) && forall|j: int|
                i < j <= to ==> !occurs_at(data, needle, j),
            None => forall|j: int| from <= j <= to ==> !occurs_at(data, needle, j),
        },
    ensures
        last_position(data, needle, from, to) == r,
    decreases to - from + 1,
{
    if to >= from && !occurs_at(data, needle, to) {
        lemma_last_position(data, needle, from, to - 1, r);
    }
}

} // verus!
