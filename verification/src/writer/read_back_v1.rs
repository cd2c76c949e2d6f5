//! A written v1 archive reads back as what was written.

use vstd::prelude::*;
use vstd::seq::*;
use vstd::seq_lib::*;
use vstd::utf8::*;

use crate::align;
use crate::archive::v1;
use crate::archive::v1::V1Summary;
use crate::archive::v1_install;
use crate::archive::v1_records;
use crate::archive::v2;
use crate::bytes;
use crate::error::Fault;
use crate::scan;
use crate::writer::image_v1;
use crate::writer::staged::StagedModel;
use crate::zip::{Eocd64Locator, Eocd64Record, EocdRecord};

verus! {

/// How many bytes the records behind the central directory take.
pub const TRAILER_SIZE: usize = 114;

/// What the parts of an archive that was written from `start` on are in the file.
pub open spec fn image_stands(
    data: Seq<u8>,
    start: int,
    entries: Seq<StagedModel>,
    sector: int,
) -> bool {
    let n = entries.len() as int;
    let plan = image_v1::v1_plan(entries, start, sector);
    let trailer = plan.cdr_offset + plan.cdr_size;
    &&& data.len() == align::aligned_up(plan.content_size, sector)
    &&& bytes::holds_at(data, start, image_v1::body_bytes(entries, start, sector, n))
    &&& bytes::holds_at(data, plan.payload_end, image_v1::progress_bytes(entries, n))
    &&& bytes::holds_at(data, plan.cdr_offset, image_v1::central_bytes(entries, start, sector, n))
    &&& bytes::holds_at(
        data,
        trailer,
        image_v1::trailer_bytes(n, plan.cdr_size, plan.cdr_offset, sector as u16),
    )
    &&& bytes::zero_between(data, plan.content_size, data.len() as int)
}

/// What the records behind a central directory that ends at `at` are in the file.
pub open spec fn trailer_stands(
    data: Seq<u8>,
    at: int,
    count: int,
    cdr_size: int,
    cdr_offset: int,
    sector_size: u16,
) -> bool {
    &&& bytes::le32(data, at) == Eocd64Record::SIGNATURE
    &&& Eocd64Record::at(data, at + 4) == image_v1::zip64_eocd(count, cdr_size, cdr_offset)
    &&& bytes::holds_at(data, at + 56, bytes::u32_bytes(Eocd64Locator::SIGNATURE))
    &&& bytes::holds_at(data, at + 60, image_v1::zip64_locator(cdr_offset + cdr_size).bytes())
    &&& bytes::holds_at(data, at + 76, bytes::u32_bytes(EocdRecord::SIGNATURE))
    &&& bytes::holds_at(data, at + 80, image_v1::classic_eocd().bytes())
    &&& bytes::holds_at(data, at + 98, image_v1::comment_bytes(sector_size, 0))
    &&& at + TRAILER_SIZE <= data.len()
}

proof fn lemma_comment_length(sector_size: u16)
    ensures
        image_v1::comment_bytes(sector_size, 0).len() == 16,
{
    bytes::lemma_number_lengths(sector_size, v1_install::CI_MARKER, 0);
}

/// How many bytes the records behind the central directory take.
pub proof fn lemma_trailer_length(count: int, cdr_size: int, cdr_offset: int, sector_size: u16)
    ensures
        image_v1::trailer_bytes(count, cdr_size, cdr_offset, sector_size).len() == TRAILER_SIZE,
{
    image_v1::zip64_eocd(count, cdr_size, cdr_offset).lemma_length();
    image_v1::zip64_locator(cdr_offset + cdr_size).lemma_length();
    image_v1::classic_eocd().lemma_length();
    lemma_comment_length(sector_size);
    bytes::lemma_number_lengths(0, Eocd64Record::SIGNATURE, 0);
    bytes::lemma_number_lengths(0, Eocd64Locator::SIGNATURE, 0);
    bytes::lemma_number_lengths(0, EocdRecord::SIGNATURE, 0);
}

/// The records behind a central directory read back.
pub proof fn lemma_trailer_stands(
    data: Seq<u8>,
    at: int,
    count: int,
    cdr_size: int,
    cdr_offset: int,
    sector_size: u16,
)
    requires
        bytes::holds_at(
            data,
            at,
            image_v1::trailer_bytes(count, cdr_size, cdr_offset, sector_size),
        ),
    ensures
        trailer_stands(data, at, count, cdr_size, cdr_offset, sector_size),
{
    let record = image_v1::zip64_eocd(count, cdr_size, cdr_offset);
    let a0 = bytes::u32_bytes(Eocd64Record::SIGNATURE);
    let a1 = record.bytes();
    let a2 = bytes::u32_bytes(Eocd64Locator::SIGNATURE);
    let a3 = image_v1::zip64_locator(cdr_offset + cdr_size).bytes();
    let a4 = bytes::u32_bytes(EocdRecord::SIGNATURE);
    let a5 = image_v1::classic_eocd().bytes();
    let a6 = image_v1::comment_bytes(sector_size, 0);
    record.lemma_length();
    image_v1::zip64_locator(cdr_offset + cdr_size).lemma_length();
    image_v1::classic_eocd().lemma_length();
    bytes::lemma_number_lengths(0, Eocd64Record::SIGNATURE, 0);
    bytes::lemma_number_lengths(0, Eocd64Locator::SIGNATURE, 0);
    bytes::lemma_number_lengths(0, EocdRecord::SIGNATURE, 0);
    lemma_comment_length(sector_size);
    bytes::lemma_holds_split(data, at, a0 + a1 + a2 + a3 + a4 + a5, a6);
    bytes::lemma_holds_split(data, at, a0 + a1 + a2 + a3 + a4, a5);
    bytes::lemma_holds_split(data, at, a0 + a1 + a2 + a3, a4);
    bytes::lemma_holds_split(data, at, a0 + a1 + a2, a3);
    bytes::lemma_holds_split(data, at, a0 + a1, a2);
    bytes::lemma_holds_split(data, at, a0, a1);
    bytes::lemma_le32_of_bytes(data, at, Eocd64Record::SIGNATURE);
    record.law_read_back(data, at + 4);
}

/// Where the records of a written archive stand.
pub proof fn lemma_record_positions(
    entries: Seq<StagedModel>,
    start: int,
    sector: u64,
    k: int,
    n: int,
)
    requires
        0 < sector <= u16::MAX,
        0 <= start,
        start % (sector as int) == 0,
        0 <= k <= n,
        image_v1::body_fault(entries, start, sector, n) is None,
    ensures
        start <= image_v1::record_at(entries, start, sector as int, k),
        image_v1::record_at(entries, start, sector as int, k) % sector as int == 0,
        image_v1::body_bytes(entries, start, sector as int, k).len() == image_v1::record_at(
            entries,
            start,
            sector as int,
            k,
        ) - start,
        k < n ==> image_v1::record_at(entries, start, sector as int, k) + image_v1::record_len(
            entries[k],
            sector as int,
        ) + entries[k].payload.len() <= image_v1::record_at(entries, start, sector as int, k + 1),
    decreases k,
{
    if k > 0 {
        lemma_record_positions(entries, start, sector, k - 1, n);
        image_v1::lemma_body_good(entries, start, sector, k - 1, n);
        let at = image_v1::record_at(entries, start, sector as int, k - 1);
        image_v1::lemma_local_record_length(entries[k - 1], at, sector);
        align::lemma_aligned_up(
            at + image_v1::record_len(entries[k - 1], sector as int) + entries[k - 1].payload.len(),
            sector as int,
        );
    }
    if k < n {
        image_v1::lemma_body_good(entries, start, sector, k, n);
        let at = image_v1::record_at(entries, start, sector as int, k);
        image_v1::lemma_local_record_length(entries[k], at, sector);
        align::lemma_aligned_up(
            at + image_v1::record_len(entries[k], sector as int) + entries[k].payload.len(),
            sector as int,
        );
    }
}

/// The parts of a written archive stand where the plan says.
pub proof fn lemma_image_stands(before: Seq<u8>, entries: Seq<StagedModel>, sector: u64)
    requires
        0 < sector <= u16::MAX,
        before.len() as int % (sector as int) == 0,
        image_v1::body_fault(
            entries,
            before.len() as int,
            sector,
            entries.len() as int,
        ) is None,
    ensures
        image_stands(
            before + image_v1::v1_image_bytes(entries, before.len() as int, sector as int),
            before.len() as int,
            entries,
            sector as int,
        ),
{
    let start = before.len() as int;
    let n = entries.len() as int;
    let plan = image_v1::v1_plan(entries, start, sector as int);
    let image = image_v1::v1_image_bytes(entries, start, sector as int);
    let data = before + image;
    let a = image_v1::body_bytes(entries, start, sector as int, n);
    let b = image_v1::progress_bytes(entries, n);
    let c = image_v1::central_bytes(entries, start, sector as int, n);
    let d = image_v1::trailer_bytes(n, plan.cdr_size, plan.cdr_offset, sector as u16);
    let e = bytes::zeros(
        (align::aligned_up(plan.content_size, sector as int) - plan.content_size) as nat,
    );
    lemma_record_positions(entries, start, sector, n, n);
    align::lemma_aligned_up(plan.content_size, sector as int);
    assert(data.subrange(start, data.len() as int) =~= image);
    assert(bytes::holds_at(data, start, image));
    bytes::lemma_holds_split(data, start, a + b + c + d, e);
    bytes::lemma_holds_split(data, start, a + b + c, d);
    bytes::lemma_holds_split(data, start, a + b, c);
    bytes::lemma_holds_split(data, start, a, b);
    assert forall|i: int| plan.content_size <= i < data.len() implies data[i] == 0 by {
        assert(data.subrange(plan.content_size, plan.content_size + e.len())[i - plan.content_size]
            == data[i]);
    }
}

proof fn lemma_classic_values(i: int)
    requires
        0 <= i < 18,
    ensures
        image_v1::classic_eocd().bytes().len() == 18,
        image_v1::classic_eocd().bytes()[i] == (if i < 16 {
            0xFFu8
        } else if i == 16 {
            0x10u8
        } else {
            0u8
        }),
{
    reveal(EocdRecord::bytes);
    image_v1::classic_eocd().lemma_length();
    let f2 = seq![0xFFu8, 0xFFu8];
    let f4 = seq![0xFFu8, 0xFFu8, 0xFFu8, 0xFFu8];
    assert(bytes::u16_bytes(u16::MAX) =~= f2);
    assert(bytes::u32_bytes(u32::MAX) =~= f4);
    assert(bytes::u16_bytes(16) =~= seq![0x10u8, 0u8]);
    assert(image_v1::classic_eocd().bytes() =~= f2 + f2 + f2 + f2 + f4 + f4 + seq![0x10u8, 0u8]);
}

proof fn lemma_comment_values(sector_size: u16)
    ensures
        ({
            let c = image_v1::comment_bytes(sector_size, 0);
            &&& c.len() == 16
            &&& c[0] == 0x43
            &&& c[1] == 0x49
            &&& c[2] == 0x47
            &&& c[3] == 0
            &&& c[4] == 1
            &&& c[5] == 0
            &&& c[6] == sector_size % 0x100
            &&& c[7] == sector_size / 0x100
            &&& forall|i: int| 8 <= i < 16 ==> c[i] == 0
        }),
{
    let c = image_v1::comment_bytes(sector_size, 0);
    assert(bytes::u32_bytes(v1_install::CI_MARKER) =~= seq![0x47u8, 0u8, 1u8, 0u8]);
    assert(bytes::u64_bytes(0) =~= bytes::zeros(8));
    lemma_comment_length(sector_size);
}

/// The bytes from the EOCD signature up to the end of the comment.
proof fn lemma_end_values(
    data: Seq<u8>,
    at: int,
    count: int,
    cdr_size: int,
    cdr_offset: int,
    sector_size: u16,
)
    requires
        trailer_stands(data, at, count, cdr_size, cdr_offset, sector_size),
        0 <= at,
    ensures
        data.subrange(at + 76, at + 80) == scan::eocd_signature(),
        forall|i: int| at + 80 <= i < at + 96 ==> data[i] == 0xFF,
        data[at + 96] == 0x10,
        data[at + 97] == 0,
        data[at + 98] == 0x43,
        data[at + 99] == 0x49,
        data[at + 100] == 0x47,
        data[at + 101] == 0,
        data[at + 102] == 1,
        data[at + 103] == 0,
        data[at + 104] == sector_size % 0x100,
        data[at + 105] == sector_size / 0x100,
        forall|i: int| at + 106 <= i < at + 114 ==> data[i] == 0,
{
    let sig = data.subrange(at + 76, at + 80);
    assert(bytes::u32_bytes(EocdRecord::SIGNATURE) =~= scan::eocd_signature());
    image_v1::classic_eocd().lemma_length();
    let classic = data.subrange(at + 80, at + 98);
    assert forall|i: int| at + 80 <= i < at + 98 implies data[i]
        == image_v1::classic_eocd().bytes()[i - at - 80] by {
        assert(classic[i - at - 80] == data[i]);
    }
    assert forall|i: int| at + 80 <= i < at + 96 implies data[i] == 0xFF by {
        lemma_classic_values(i - at - 80);
    }
    lemma_classic_values(16);
    lemma_classic_values(17);
    lemma_comment_values(sector_size);
    let comment = data.subrange(at + 98, at + 114);
    assert forall|i: int| at + 98 <= i < at + 114 implies data[i] == image_v1::comment_bytes(
        sector_size,
        0,
    )[i - at - 98] by {
        assert(comment[i - at - 98] == data[i]);
    }
}

/// Where the content of a written archive ends.
pub open spec fn content_stop(trailer: int, sector_size: u16) -> int {
    if sector_size >= 0x100 {
        trailer + 106
    } else {
        trailer + 105
    }
}

/// The content of a written archive ends in its comment, and is no v2 archive.
pub proof fn lemma_content_stop(
    data: Seq<u8>,
    at: int,
    count: int,
    cdr_size: int,
    cdr_offset: int,
    sector_size: u16,
)
    requires
        trailer_stands(data, at, count, cdr_size, cdr_offset, sector_size),
        0 <= at,
        sector_size > 0,
        bytes::zero_between(data, at + TRAILER_SIZE, data.len() as int),
    ensures
        scan::content_end(data) == content_stop(at, sector_size),
        !v2::ends_in_v2_magic(data, content_stop(at, sector_size)),
        v1::eocd_at(data, content_stop(at, sector_size)) == Some(at + 76),
{
    let end = content_stop(at, sector_size);
    lemma_end_values(data, at, count, cdr_size, cdr_offset, sector_size);
    scan::lemma_content_end_is(data, end);
    assert(!v2::ends_in_v2_magic(data, end)) by {
        reveal(bytes::le32);
    }
    let from = if end > v1::EOCD_SEARCH_SPAN {
        end - v1::EOCD_SEARCH_SPAN
    } else {
        0
    };
    let needle = scan::eocd_signature();
    assert forall|j: int| at + 76 < j <= end - 4 implies !scan::occurs_at(data, needle, j) by {
        if scan::occurs_at(data, needle, j) {
            assert(data.subrange(j, j + 4)[0] == data[j]);
            if j < at + 80 {
                assert(data.subrange(at + 76, at + 80)[j - at - 76] == data[j]);
            }
        }
    }
    scan::lemma_last_position(data, needle, from, end - 4, Some(at + 76));
}

/// Whether the bytes of an offset hold the signature of a ZIP64 locator.
pub open spec fn looks_like_locator(offset: u64) -> bool {
    exists|j: int|
        0 <= j <= 4 && #[trigger] bytes::u64_bytes(offset).subrange(j, j + 4)
            == scan::eocd64_locator_signature()
}

proof fn lemma_locator_values(locator: Eocd64Locator)
    ensures
        locator.bytes().len() == 16,
        locator.bytes() == bytes::u32_bytes(locator.zip64_eocd_disk) + bytes::u64_bytes(
            locator.zip64_eocd_offset,
        ) + bytes::u32_bytes(locator.total_disks),
{
    reveal(Eocd64Locator::bytes);
    locator.lemma_length();
}

proof fn lemma_locator_found(
    data: Seq<u8>,
    at: int,
    count: int,
    cdr_size: int,
    cdr_offset: int,
    sector_size: u16,
)
    requires
        trailer_stands(data, at, count, cdr_size, cdr_offset, sector_size),
        at == cdr_offset + cdr_size,
        0 <= at <= u64::MAX,
        !looks_like_locator(at as u64),
    ensures
        v1::locator_at(data, at + 76) == Some(at + 56),
        Eocd64Locator::at(data, at + 60) == image_v1::zip64_locator(at),
{
    let needle = scan::eocd64_locator_signature();
    let locator = image_v1::zip64_locator(at);
    lemma_locator_values(locator);
    locator.law_read_back(data, at + 60);
    assert(bytes::u32_bytes(Eocd64Locator::SIGNATURE) =~= needle);
    assert(data.subrange(at + 56, at + 60) == needle);
    let l = data.subrange(at + 60, at + 76);
    let a = bytes::u32_bytes(0);
    let b = bytes::u64_bytes(at as u64);
    let c = bytes::u32_bytes(1);
    bytes::lemma_number_lengths(0, 0, at as u64);
    assert(c =~= seq![1u8, 0u8, 0u8, 0u8]);
    assert(a =~= seq![0u8, 0u8, 0u8, 0u8]);
    assert forall|j: int| at + 56 < j <= at + 75 implies !scan::occurs_at(data, needle, j) by {
        if scan::occurs_at(data, needle, j) {
            let w = data.subrange(j, j + 4);
            assert(w[0] == data[j] && w[1] == data[j + 1] && w[2] == data[j + 2] && w[3] == data[j
                + 3]);
            if j < at + 60 {
                assert(data.subrange(at + 56, at + 60)[j - at - 56] == data[j]);
            } else {
                assert(l[j - at - 60] == data[j]);
                if j < at + 64 {
                    assert(l[j - at - 60] == a[j - at - 60]);
                } else if j <= at + 68 {
                    let k = j - at - 64;
                    assert(b.subrange(k, k + 4) =~= w) by {
                        assert(l[j - at - 60] == data[j] && l[j - at - 59] == data[j + 1] && l[j - at
                            - 58] == data[j + 2] && l[j - at - 57] == data[j + 3]);
                    }
                    assert(looks_like_locator(at as u64));
                } else if j < at + 72 {
                    assert(l[12] == data[at + 72]);
                    assert(l[12] == c[0]);
                } else {
                    assert(l[j - at - 60] == c[j - at - 72]);
                }
            }
        }
    }
    let from = if at + 76 > v1::LOCATOR_SEARCH_SPAN {
        at + 76 - v1::LOCATOR_SEARCH_SPAN
    } else {
        0
    };
    scan::lemma_last_position(data, needle, from, at + 75, Some(at + 56));
}

/// What the trailing records of a written archive say.
pub open spec fn written_summary(count: int, cdr_size: int, cdr_offset: int) -> V1Summary {
    V1Summary {
        eocd_offset: (cdr_offset + cdr_size + 76) as u64,
        comment_length: 16,
        is_zip64: true,
        count: count as u64,
        cdr_offset: cdr_offset as u64,
        cdr_size: cdr_size as u64,
    }
}

/// The trailing records of a written archive read back.
pub proof fn lemma_summary_reads_back(
    data: Seq<u8>,
    count: int,
    cdr_size: int,
    cdr_offset: int,
    sector_size: u16,
)
    requires
        trailer_stands(
            data,
            cdr_offset + cdr_size,
            count,
            cdr_size,
            cdr_offset,
            sector_size,
        ),
        bytes::zero_between(data, cdr_offset + cdr_size + TRAILER_SIZE, data.len() as int),
        0 <= cdr_size,
        0 <= cdr_offset,
        0 <= count <= u32::MAX,
        count <= usize::MAX,
        sector_size > 0,
        data.len() <= isize::MAX,
        !looks_like_locator((cdr_offset + cdr_size) as u64),
    ensures
        v1::summary_outcome(data, content_stop(cdr_offset + cdr_size, sector_size)) == Ok::<
            V1Summary,
            Fault,
        >(written_summary(count, cdr_size, cdr_offset)),
{
    let at = cdr_offset + cdr_size;
    lemma_content_stop(data, at, count, cdr_size, cdr_offset, sector_size);
    lemma_locator_found(data, at, count, cdr_size, cdr_offset, sector_size);
    image_v1::classic_eocd().law_read_back(data, at + 80);
    assert(isize::MAX < usize::MAX);
    let record = EocdRecord::at(data, at + 80);
    assert(record == image_v1::classic_eocd());
    assert(v1_records::classic_eocd_fault(record) is None);
    assert(v1_records::locator_fault(image_v1::zip64_locator(at)) is None);
    assert(v1::eocd64_at_fault(data, at as u64, at + 56) is None);
    assert(v1::zip64_fault(data, at + 76) is None);
    assert(v1::trailing_fault(data, at + 76) is None);
    assert(v1::unchecked_summary(data, at + 76) == written_summary(count, cdr_size, cdr_offset));
}

} // verus!
