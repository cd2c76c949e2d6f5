//! Reading of a v1 central directory record by record, so that the records can
//! be handed out to workers.

use vstd::prelude::*;
use vstd::seq::*;
use vstd::seq_lib::*;
use vstd::slice::*;
use vstd::string::*;

use crate::archive::model;
use crate::archive::model::{EntryModel, P4kEntryCompact};
use crate::archive::v1;
use crate::archive::v1::{read_cd_entry_compact, read_v1_p4k_cd_entry_at};
use crate::archive::v1_records;
use crate::bytes;
use crate::bytes::get_u32;
use crate::error::{bad_v1_directory, Error, Fault, Result};
use crate::text;
use crate::text::dec;
use crate::zip::{CentralDirectoryHeader, P4kEncryptionExtraField, P4kZip64ExtraField};

verus! {

/// Where a record of the central directory starts and ends.
#[derive(Debug, Clone, Copy)]
pub struct CdrRecordSpan {
    pub start: usize,
    pub end: usize,
}

/// Where the record at `at` ends, as its header says.
pub open spec fn span_end(cd: Seq<u8>, at: int) -> int {
    let header = CentralDirectoryHeader::at(cd, at + 4);
    at + 46 + header.file_name_length + header.extra_field_length + header.file_comment_length
}

/// What is wrong with the bounds of the record at `at`.
pub open spec fn span_fault(cd: Seq<u8>, at: int, index: int) -> Option<Fault> {
    let signature = bytes::le32(cd, at);
    let record = "central directory record "@ + text::dec_text(index as nat);
    if at + 46 > cd.len() {
        Some(
            Fault::MalformedV1InstallBlock(
                record + " header extends past CDR size "@ + text::dec_text(cd.len()),
            ),
        )
    } else if signature != CentralDirectoryHeader::SIGNATURE {
        Some(
            Fault::InvalidSignature {
                expected: CentralDirectoryHeader::SIGNATURE,
                actual: signature,
            },
        )
    } else if span_end(cd, at) > usize::MAX {
        Some(Fault::MalformedV1InstallBlock(record + " size overflow"@))
    } else if span_end(cd, at) > cd.len() {
        Some(
            Fault::MalformedV1InstallBlock(
                record + " ends at "@ + text::dec_text(span_end(cd, at) as nat)
                    + ", past CDR size "@ + text::dec_text(cd.len()),
            ),
        )
    } else {
        None
    }
}

/// The spans of the first `count` records and where they end, or what is wrong
/// with the first bad one.
pub open spec fn spans_outcome(cd: Seq<u8>, count: nat) -> std::result::Result<
    (Seq<(int, int)>, int),
    Fault,
>
    decreases count,
{
    if count == 0 {
        Ok((Seq::empty(), 0))
    } else {
        match spans_outcome(cd, (count - 1) as nat) {
            Err(fault) => Err(fault),
            Ok((spans, at)) => match span_fault(cd, at, count - 1) {
                Some(fault) => Err(fault),
                None => Ok((spans.push((at, span_end(cd, at))), span_end(cd, at))),
            },
        }
    }
}

/// The spans of a run, as pairs of numbers.
pub open spec fn span_pairs(spans: Seq<CdrRecordSpan>) -> Seq<(int, int)> {
    Seq::new(spans.len(), |i: int| (spans[i].start as int, spans[i].end as int))
}

proof fn lemma_spans_fault_stays(cd: Seq<u8>, k: nat, count: nat)
    requires
        k <= count,
        spans_outcome(cd, k) is Err,
    ensures
        spans_outcome(cd, count) == spans_outcome(cd, k),
    decreases count - k,
{
    if k < count {
        lemma_spans_fault_stays(cd, k, (count - 1) as nat);
    }
}

/// Find the spans of the records of a central directory, and say how many
/// bytes they take.
pub fn scan_cdr_record_spans(cd: &[u8], count: usize) -> (r: Result<(Vec<CdrRecordSpan>, usize)>)
    ensures
        match r {
            Ok((spans, used)) => {
                &&& spans_outcome(cd@, count as nat) == Ok::<(Seq<(int, int)>, int), Fault>(
                    (span_pairs(spans@), used as int),
                )
                &&& forall|i: int|
                    0 <= i < spans@.len() ==> (#[trigger] spans@[i]).start <= spans@[i].end
                        <= cd@.len()
            },
            Err(e) => spans_outcome(cd@, count as nat) == Err::<(Seq<(int, int)>, int), Fault>(e@),
        },
{
    assert(cd.len() == cd@.len());
    let mut spans: Vec<CdrRecordSpan> = Vec::new();
    let mut at: usize = 0;
    let mut index: usize = 0;
    assert(span_pairs(spans@) =~= Seq::empty());
    while index < count
        invariant
            index <= count,
            at <= cd@.len(),
            cd@.len() <= usize::MAX,
            forall|i: int|
                0 <= i < spans@.len() ==> (#[trigger] spans@[i]).start <= spans@[i].end
                    <= cd@.len(),
            spans_outcome(cd@, index as nat) == Ok::<(Seq<(int, int)>, int), Fault>(
                (span_pairs(spans@), at as int),
            ),
        decreases count - index,
    {
        proof {
            if spans_outcome(cd@, (index + 1) as nat) is Err {
                lemma_spans_fault_stays(cd@, (index + 1) as nat, count as nat);
            }
        }
        if cd.len() - at < 46 {
            return bad_v1_directory(
                String::from_str("central directory record ").concat(
                    dec(index as u64).as_str(),
                ).concat(" header extends past CDR size ").concat(dec(cd.len() as u64).as_str()),
            );
        }
        let signature: u32 = get_u32(cd, at);
        if signature != CentralDirectoryHeader::SIGNATURE {
            return Err(
                Error::InvalidSignature {
                    expected: CentralDirectoryHeader::SIGNATURE,
                    actual: signature,
                },
            );
        }
        let header = CentralDirectoryHeader::read(cd, at + 4);
        let end: usize = match (at + 46).checked_add(header.variable_data_size()) {
            Some(v) => v,
            None => return bad_v1_directory(
                String::from_str("central directory record ").concat(
                    dec(index as u64).as_str(),
                ).concat(" size overflow"),
            ),
        };
        if end > cd.len() {
            return bad_v1_directory(
                String::from_str("central directory record ").concat(
                    dec(index as u64).as_str(),
                ).concat(" ends at ").concat(dec(end as u64).as_str()).concat(
                    ", past CDR size ",
                ).concat(dec(cd.len() as u64).as_str()),
            );
        }
        let ghost before = spans@;
        spans.push(CdrRecordSpan { start: at, end });
        assert(span_pairs(spans@) =~= span_pairs(before).push((at as int, end as int)));
        at = end;
        index += 1;
    }
    Ok((spans, at))
}

/// The entry of a record that stands alone, or what is wrong with it.
pub open spec fn record_outcome(record: Seq<u8>, zip64: bool) -> std::result::Result<
    EntryModel,
    Fault,
> {
    match v1::entry_outcome(record, zip64, 0, 0) {
        Err(fault) => Err(fault),
        Ok((entry, used)) => if used != record.len() {
            Err(
                Fault::MalformedV1InstallBlock(
                    "central directory record parser consumed "@ + text::dec_text(used as nat)
                        + " bytes, expected "@ + text::dec_text(record.len()),
                ),
            )
        } else {
            Ok(entry)
        },
    }
}

/// Read the entry of a record that stands alone.
pub fn read_cd_entry_compact_from_slice(record: &[u8], is_zip64: bool) -> (r: Result<
    P4kEntryCompact,
>)
    ensures
        match r {
            Ok(entry) => record_outcome(record@, is_zip64) == Ok::<EntryModel, Fault>(entry@),
            Err(e) => record_outcome(record@, is_zip64) == Err::<EntryModel, Fault>(e@),
        },
{
    let (entry, used) = if is_zip64 {
        read_v1_p4k_cd_entry_at(record, 0, 0)?
    } else {
        read_cd_entry_compact(record, 0)?
    };
    if used != record.len() {
        return bad_v1_directory(
            String::from_str("central directory record parser consumed ").concat(
                dec(used as u64).as_str(),
            ).concat(" bytes, expected ").concat(dec(record.len() as u64).as_str()),
        );
    }
    Ok(entry)
}

/// The entries of the first `count` spans, or what is wrong with the first bad
/// record.
pub open spec fn records_outcome(
    cd: Seq<u8>,
    zip64: bool,
    spans: Seq<(int, int)>,
    count: nat,
) -> std::result::Result<Seq<EntryModel>, Fault>
    decreases count,
{
    if count == 0 {
        Ok(Seq::empty())
    } else {
        match records_outcome(cd, zip64, spans, (count - 1) as nat) {
            Err(fault) => Err(fault),
            Ok(entries) => match record_outcome(
                cd.subrange(spans[count - 1].0, spans[count - 1].1),
                zip64,
            ) {
                Err(fault) => Err(fault),
                Ok(entry) => Ok(entries.push(entry)),
            },
        }
    }
}

/// The entries of a central directory that is first cut into records, and how
/// many bytes they take, or what is wrong.
pub open spec fn by_span_outcome(cd: Seq<u8>, zip64: bool, count: nat) -> std::result::Result<
    (Seq<EntryModel>, int),
    Fault,
> {
    match spans_outcome(cd, count) {
        Err(fault) => Err(fault),
        Ok((spans, used)) => match records_outcome(cd, zip64, spans, count) {
            Err(fault) => Err(fault),
            Ok(entries) => Ok((entries, used)),
        },
    }
}

proof fn lemma_records_fault_stays(
    cd: Seq<u8>,
    zip64: bool,
    spans: Seq<(int, int)>,
    k: nat,
    count: nat,
)
    requires
        k <= count,
        records_outcome(cd, zip64, spans, k) is Err,
    ensures
        records_outcome(cd, zip64, spans, count) == records_outcome(cd, zip64, spans, k),
    decreases count - k,
{
    if k < count {
        lemma_records_fault_stays(cd, zip64, spans, k, (count - 1) as nat);
    }
}

proof fn lemma_spans_count(cd: Seq<u8>, count: nat)
    requires
        spans_outcome(cd, count) is Ok,
    ensures
        spans_outcome(cd, count)->Ok_0.0.len() == count,
        0 <= spans_outcome(cd, count)->Ok_0.1 <= cd.len(),
    decreases count,
{
    if count > 0 {
        lemma_spans_count(cd, (count - 1) as nat);
    }
}

/// Read the entries of a central directory, cut into records first, and say
/// how many bytes they take.
pub fn parse_entries_by_span(cd: &[u8], count: usize, is_zip64: bool) -> (r: Result<
    (Vec<P4kEntryCompact>, usize),
>)
    ensures
        match r {
            Ok((entries, used)) => by_span_outcome(cd@, is_zip64, count as nat) == Ok::<
                (Seq<EntryModel>, int),
                Fault,
            >((model::entry_models(entries@), used as int)),
            Err(e) => by_span_outcome(cd@, is_zip64, count as nat) == Err::<
                (Seq<EntryModel>, int),
                Fault,
            >(e@),
        },
{
    let (spans, used) = scan_cdr_record_spans(cd, count)?;
    let ghost pairs = span_pairs(spans@);
    proof {
        lemma_spans_count(cd@, count as nat);
    }
    let mut entries: Vec<P4kEntryCompact> = Vec::new();
    let mut index: usize = 0;
    assert(model::entry_models(entries@) =~= Seq::empty());
    while index < spans.len()
        invariant
            index <= spans@.len(),
            spans@.len() == count,
            pairs == span_pairs(spans@),
            spans_outcome(cd@, count as nat) == Ok::<(Seq<(int, int)>, int), Fault>(
                (pairs, used as int),
            ),
            forall|i: int|
                0 <= i < spans@.len() ==> (#[trigger] spans@[i]).start <= spans@[i].end
                    <= cd@.len(),
            records_outcome(cd@, is_zip64, pairs, index as nat) == Ok::<Seq<EntryModel>, Fault>(
                model::entry_models(entries@),
            ),
        decreases spans@.len() - index,
    {
        proof {
            if records_outcome(cd@, is_zip64, pairs, (index + 1) as nat) is Err {
                lemma_records_fault_stays(
                    cd@,
                    is_zip64,
                    pairs,
                    (index + 1) as nat,
                    count as nat,
                );
            }
        }
        let span: CdrRecordSpan = spans[index];
        let entry = read_cd_entry_compact_from_slice(
            slice_subrange(cd, span.start, span.end),
            is_zip64,
        )?;
        let ghost before = entries@;
        entries.push(entry);
        assert(model::entry_models(entries@) =~= model::entry_models(before).push(entry@));
        index += 1;
    }
    Ok((entries, used))
}

proof fn lemma_all_reads(cd: Seq<u8>, from: int, to: int)
    requires
        0 <= from <= to <= cd.len(),
    ensures
        forall|k: int|
            0 <= k && from + k + 2 <= to ==> #[trigger] bytes::le16(cd.subrange(from, to), k)
                == bytes::le16(cd, from + k),
        forall|k: int|
            0 <= k && from + k + 4 <= to ==> #[trigger] bytes::le32(cd.subrange(from, to), k)
                == bytes::le32(cd, from + k),
        forall|k: int|
            0 <= k && from + k + 8 <= to ==> #[trigger] bytes::le64(cd.subrange(from, to), k)
                == bytes::le64(cd, from + k),
{
    let part = cd.subrange(from, to);
    assert forall|k: int| 0 <= k && from + k + 2 <= to implies #[trigger] bytes::le16(part, k)
        == bytes::le16(cd, from + k) by {
        bytes::lemma_reads_of_part(cd, from, to, k);
    }
    assert forall|k: int| 0 <= k && from + k + 4 <= to implies #[trigger] bytes::le32(part, k)
        == bytes::le32(cd, from + k) by {
        bytes::lemma_reads_of_part(cd, from, to, k);
    }
    assert forall|k: int| 0 <= k && from + k + 8 <= to implies #[trigger] bytes::le64(part, k)
        == bytes::le64(cd, from + k) by {
        bytes::lemma_reads_of_part(cd, from, to, k);
    }
}

proof fn lemma_zip64_record(cd: Seq<u8>, at: int, index: int)
    requires
        0 <= at <= cd.len() <= usize::MAX,
        span_fault(cd, at, index) is None,
    ensures
        ({
            let record = cd.subrange(at, span_end(cd, at));
            let whole = v1::zip64_entry_outcome(cd, at, index);
            let alone = record_outcome(record, true);
            &&& whole is Ok <==> alone is Ok
            &&& whole is Ok ==> whole->Ok_0.0 == alone->Ok_0 && whole->Ok_0.1 == span_end(cd, at)
        }),
{
    let end = span_end(cd, at);
    let record = cd.subrange(at, end);
    let header = CentralDirectoryHeader::at(cd, at + 4);
    lemma_all_reads(cd, at, end);
    assert(CentralDirectoryHeader::at(record, 4) == header);
    let extra = 46 + header.file_name_length;
    if v1_records::cdr_header_fault(header) is None {
        assert(header.extra_field_length == 0xCE);
        assert(header.file_comment_length == 0);
        assert(P4kZip64ExtraField::at(record, extra) == P4kZip64ExtraField::at(cd, at + extra));
        assert(P4kEncryptionExtraField::at(record, extra + 0xA4) == P4kEncryptionExtraField::at(
            cd,
            at + extra + 0xA4,
        ));
        assert(v1::extras_fault(record, extra) == v1::extras_fault(cd, at + extra));
        assert(record.subrange(46, extra) =~= cd.subrange(at + 46, at + extra));
        assert(record.subrange(extra + 0x24, extra + 0xA4) =~= cd.subrange(
            at + extra + 0x24,
            at + extra + 0xA4,
        ));
        assert(record.subrange(extra + 0xAE, extra + 0xCE) =~= cd.subrange(
            at + extra + 0xAE,
            at + extra + 0xCE,
        ));
        assert(v1::zip64_entry(record, 0) == v1::zip64_entry(cd, at));
    }
}

proof fn lemma_classic_record(cd: Seq<u8>, at: int, index: int)
    requires
        0 <= at <= cd.len() <= usize::MAX,
        span_fault(cd, at, index) is None,
    ensures
        ({
            let record = cd.subrange(at, span_end(cd, at));
            let whole = v1::classic_entry_outcome(cd, at);
            let alone = record_outcome(record, false);
            &&& whole is Ok <==> alone is Ok
            &&& whole is Ok ==> whole->Ok_0.0 == alone->Ok_0 && whole->Ok_0.1 == span_end(cd, at)
        }),
{
    let end = span_end(cd, at);
    let record = cd.subrange(at, end);
    let header = CentralDirectoryHeader::at(cd, at + 4);
    lemma_all_reads(cd, at, end);
    assert(CentralDirectoryHeader::at(record, 4) == header);
    assert(record.subrange(46, 46 + header.file_name_length) =~= cd.subrange(
        at + 46,
        at + 46 + header.file_name_length,
    ));
}

proof fn lemma_read_has_span(cd: Seq<u8>, zip64: bool, at: int, index: int)
    requires
        0 <= at <= cd.len() <= usize::MAX,
        v1::entry_outcome(cd, zip64, at, index) is Ok,
    ensures
        span_fault(cd, at, index) is None,
{
}

proof fn lemma_records_unchanged(
    cd: Seq<u8>,
    zip64: bool,
    spans: Seq<(int, int)>,
    more: (int, int),
    count: nat,
)
    requires
        count <= spans.len(),
    ensures
        records_outcome(cd, zip64, spans.push(more), count) == records_outcome(
            cd,
            zip64,
            spans,
            count,
        ),
    decreases count,
{
    if count > 0 {
        lemma_records_unchanged(cd, zip64, spans, more, (count - 1) as nat);
    }
}

/// A central directory that is cut into records first has the same entries as
/// one that is read from front to back, and is good under the same conditions.
pub proof fn law_spans_match(cd: Seq<u8>, zip64: bool, count: nat)
    requires
        cd.len() <= usize::MAX,
    ensures
        by_span_outcome(cd, zip64, count) is Ok <==> v1::entries_outcome(cd, zip64, count) is Ok,
        by_span_outcome(cd, zip64, count) is Ok ==> by_span_outcome(cd, zip64, count)
            == v1::entries_outcome(cd, zip64, count),
    decreases count,
{
    if count > 0 {
        let n = (count - 1) as nat;
        law_spans_match(cd, zip64, n);
        if v1::entries_outcome(cd, zip64, n) is Ok {
            let (entries, at) = v1::entries_outcome(cd, zip64, n)->Ok_0;
            v1::lemma_entries_sized(cd, zip64, n);
            let (spans, used) = spans_outcome(cd, n)->Ok_0;
            lemma_spans_count(cd, n);
            assert(at == used);
            if span_fault(cd, at, n as int) is None {
                let more = (at, span_end(cd, at));
                lemma_records_unchanged(cd, zip64, spans, more, n);
                if zip64 {
                    lemma_zip64_record(cd, at, n as int);
                } else {
                    lemma_classic_record(cd, at, n as int);
                }
            } else if v1::entry_outcome(cd, zip64, at, n as int) is Ok {
                lemma_read_has_span(cd, zip64, at, n as int);
            }
        } else if spans_outcome(cd, n) is Ok {
            let (spans, used) = spans_outcome(cd, n)->Ok_0;
            lemma_spans_count(cd, n);
            let more = (used, span_end(cd, used));
            lemma_records_unchanged(cd, zip64, spans, more, n);
        }
    }
}

} // verus!
