//! Reading of a v2 central directory with the names first, so that the records
//! can be handed out to workers.

use vstd::prelude::*;
use vstd::seq::*;
use vstd::seq_lib::*;
use vstd::slice::*;
use vstd::string::*;
use vstd::utf8::*;

use crate::archive::model;
use crate::archive::model::{EntryModel, P4kEntryCompact};
use crate::archive::v2;
use crate::archive::v2::{
    bad_entry, entry_text, parse_v2_entry_record, parse_v2_name_at, V2Trailer,
};
use crate::bytes;
use crate::bytes::get_u64;
use crate::error;
use crate::error::{Fault, Result};
use crate::text;
use crate::text::dec;
use crate::zip::{
    CentralDirectoryHeaderV2, CDR_V2_ENTRY_SIZE, CDR_V2_OFFSET_TO_FILENAME_OFFSET,
};

verus! {

/// Where the name of an entry starts in the name table, as a central directory
/// says, or why it does not.
pub open spec fn name_offset_outcome(cdr: Seq<u8>, index: int) -> std::result::Result<u64, Fault> {
    let at = index * CDR_V2_ENTRY_SIZE + CDR_V2_OFFSET_TO_FILENAME_OFFSET;
    let entry = "entry "@ + text::dec_text(index as nat);
    if at + 8 > usize::MAX {
        Err(Fault::MalformedV2Entry(entry + " offset overflow"@))
    } else if at + 8 > cdr.len() {
        Err(
            Fault::MalformedV2Entry(
                entry + " CDR name-offset field extends past CDR size "@ + text::dec_text(
                    cdr.len(),
                ),
            ),
        )
    } else {
        Ok(bytes::le64(cdr, at))
    }
}

/// Read where the name of an entry starts in the name table.
pub fn read_v2_name_offset(cdr: &[u8], index: usize) -> (r: Result<u64>)
    ensures
        error::outcome(r) == name_offset_outcome(cdr@, index as int),
{
    assert(cdr.len() == cdr@.len());
    let record_off: usize = match index.checked_mul(CDR_V2_ENTRY_SIZE) {
        Some(v) => v,
        None => return bad_entry(entry_text(index).concat(" offset overflow")),
    };
    let name_off: usize = match record_off.checked_add(CDR_V2_OFFSET_TO_FILENAME_OFFSET) {
        Some(v) => v,
        None => return bad_entry(entry_text(index).concat(" offset overflow")),
    };
    let name_off_end: usize = match name_off.checked_add(8) {
        Some(v) => v,
        None => return bad_entry(entry_text(index).concat(" offset overflow")),
    };
    if name_off_end > cdr.len() {
        return bad_entry(
            entry_text(index).concat(" CDR name-offset field extends past CDR size ").concat(
                dec(cdr.len() as u64).as_str(),
            ),
        );
    }
    Ok(get_u64(cdr, name_off))
}

/// The names of the first `count` entries, or what is wrong with the first bad
/// one.
pub open spec fn names_outcome(data: Seq<u8>, t: V2Trailer, count: nat) -> std::result::Result<
    Seq<Seq<char>>,
    Fault,
>
    decreases count,
{
    if count == 0 {
        Ok(Seq::empty())
    } else {
        match names_outcome(data, t, (count - 1) as nat) {
            Err(fault) => Err(fault),
            Ok(names) => match v2::name_fault(data, t, count - 1) {
                Some(fault) => Err(fault),
                None => Ok(names.push(decode_utf8(t.raw_name(data, count - 1)))),
            },
        }
    }
}

/// The texts of a run of names.
pub open spec fn name_texts(names: Seq<String>) -> Seq<Seq<char>> {
    Seq::new(names.len(), |i: int| names[i]@)
}

proof fn lemma_names_fault_stays(data: Seq<u8>, t: V2Trailer, k: nat, count: nat)
    requires
        k <= count,
        names_outcome(data, t, k) is Err,
    ensures
        names_outcome(data, t, count) == names_outcome(data, t, k),
    decreases count - k,
{
    if k < count {
        lemma_names_fault_stays(data, t, k, (count - 1) as nat);
    }
}

/// Read the names of all entries.
pub fn parse_v2_names(data: &[u8], end: usize, t: &V2Trailer) -> (r: Result<Vec<String>>)
    requires
        t.in_bounds(data@.len() as int, end as int),
    ensures
        match r {
            Ok(names) => {
                &&& names_outcome(data@, *t, t.count as nat) == Ok::<Seq<Seq<char>>, Fault>(
                    name_texts(names@),
                )
                &&& names@.len() == t.count
                &&& forall|i: int|
                    0 <= i < names@.len() ==> (#[trigger] names@[i])@ == decode_utf8(
                        t.raw_name(data@, i),
                    )
            },
            Err(e) => names_outcome(data@, *t, t.count as nat) == Err::<Seq<Seq<char>>, Fault>(e@),
        },
{
    assert(data.len() == data@.len());
    let count: usize = t.count as usize;
    let cdr_start: usize = t.cdr_offset as usize;
    let cdr_end: usize = cdr_start + t.cdr_size as usize;
    let cdr: &[u8] = slice_subrange(data, cdr_start, cdr_end);
    let mut names: Vec<String> = Vec::new();
    let mut taken: usize = 0;
    let mut index: usize = 0;
    assert(name_texts(names@) =~= Seq::empty());
    while index < count
        invariant
            index <= count,
            count == t.count,
            cdr_start == t.cdr_offset,
            cdr_end == cdr_start + t.cdr_size,
            cdr@ == data@.subrange(cdr_start as int, cdr_end as int),
            t.in_bounds(data@.len() as int, end as int),
            data@.len() <= usize::MAX,
            names@.len() == index,
            forall|i: int|
                0 <= i < names@.len() ==> (#[trigger] names@[i])@ == decode_utf8(
                    t.raw_name(data@, i),
                ),
            taken == t.names_taken(data@, index as int),
            names_outcome(data@, *t, index as nat) == Ok::<Seq<Seq<char>>, Fault>(
                name_texts(names@),
            ),
        decreases count - index,
    {
        proof {
            assert((index + 1) * CDR_V2_ENTRY_SIZE <= count * CDR_V2_ENTRY_SIZE)
                by (nonlinear_arith)
                requires
                    index < count,
            ;
            bytes::lemma_reads_of_part(
                data@,
                cdr_start as int,
                cdr_end as int,
                index * CDR_V2_ENTRY_SIZE + CDR_V2_OFFSET_TO_FILENAME_OFFSET,
            );
            if names_outcome(data@, *t, (index + 1) as nat) is Err {
                lemma_names_fault_stays(data@, *t, (index + 1) as nat, count as nat);
            }
        }
        let raw_name_offset: u64 = read_v2_name_offset(cdr, index)?;
        let (name, next) = parse_v2_name_at(data, t, index, raw_name_offset, taken)?;
        let ghost before = names@;
        let ghost added = name@;
        names.push(name);
        assert(name_texts(names@) =~= name_texts(before).push(added));
        taken = next;
        index += 1;
    }
    Ok(names)
}

/// The first `count` entries where every name is good, or what is wrong with
/// the first bad record.
pub open spec fn records_outcome(data: Seq<u8>, t: V2Trailer, count: nat) -> std::result::Result<
    Seq<EntryModel>,
    Fault,
>
    decreases count,
{
    if count == 0 {
        Ok(Seq::empty())
    } else {
        match records_outcome(data, t, (count - 1) as nat) {
            Err(fault) => Err(fault),
            Ok(entries) => match v2::record_fault(data, t, count - 1) {
                Some(fault) => Err(fault),
                None => Ok(entries.push(v2::entry_at(data, t, count - 1))),
            },
        }
    }
}

/// The entries of a directory whose names are read first, or what is wrong.
pub open spec fn by_name_outcome(data: Seq<u8>, t: V2Trailer, count: nat) -> std::result::Result<
    Seq<EntryModel>,
    Fault,
> {
    match names_outcome(data, t, count) {
        Err(fault) => Err(fault),
        Ok(_) => records_outcome(data, t, count),
    }
}

proof fn lemma_records_fault_stays(data: Seq<u8>, t: V2Trailer, k: nat, count: nat)
    requires
        k <= count,
        records_outcome(data, t, k) is Err,
    ensures
        records_outcome(data, t, count) == records_outcome(data, t, k),
    decreases count - k,
{
    if k < count {
        lemma_records_fault_stays(data, t, k, (count - 1) as nat);
    }
}

/// Read one entry whose name is known.
pub fn parse_v2_entry(data: &[u8], end: usize, t: &V2Trailer, index: usize, name: String) -> (r:
    Result<P4kEntryCompact>)
    requires
        t.in_bounds(data@.len() as int, end as int),
        index < t.count,
        name@ == decode_utf8(t.raw_name(data@, index as int)),
    ensures
        match r {
            Ok(entry) => {
                &&& v2::record_fault(data@, *t, index as int) is None
                &&& entry@ == v2::entry_at(data@, *t, index as int)
            },
            Err(e) => v2::record_fault(data@, *t, index as int) == Some(e@),
        },
{
    assert(data.len() == data@.len());
    proof {
        assert((index + 1) * CDR_V2_ENTRY_SIZE <= t.count * CDR_V2_ENTRY_SIZE) by (nonlinear_arith)
            requires
                index < t.count,
        ;
    }
    let at: usize = t.cdr_offset as usize + index * CDR_V2_ENTRY_SIZE;
    let record = CentralDirectoryHeaderV2::read(data, at);
    parse_v2_entry_record(data, t, index, &record, name)
}

/// Read every entry of a v2 archive, the names first.
pub fn parse_v2_entries_by_name(data: &[u8], end: usize, t: &V2Trailer) -> (r: Result<
    Vec<P4kEntryCompact>,
>)
    requires
        t.in_bounds(data@.len() as int, end as int),
    ensures
        match r {
            Ok(entries) => by_name_outcome(data@, *t, t.count as nat) == Ok::<
                Seq<EntryModel>,
                Fault,
            >(model::entry_models(entries@)),
            Err(e) => by_name_outcome(data@, *t, t.count as nat) == Err::<Seq<EntryModel>, Fault>(
                e@,
            ),
        },
{
    let names: Vec<String> = parse_v2_names(data, end, t)?;
    let count: usize = names.len();
    let mut entries: Vec<P4kEntryCompact> = Vec::new();
    let mut index: usize = 0;
    assert(model::entry_models(entries@) =~= Seq::empty());
    while index < count
        invariant
            index <= count,
            count == t.count,
            names@.len() == count,
            t.in_bounds(data@.len() as int, end as int),
            names_outcome(data@, *t, count as nat) is Ok,
            forall|i: int|
                0 <= i < names@.len() ==> (#[trigger] names@[i])@ == decode_utf8(
                    t.raw_name(data@, i),
                ),
            records_outcome(data@, *t, index as nat) == Ok::<Seq<EntryModel>, Fault>(
                model::entry_models(entries@),
            ),
        decreases count - index,
    {
        proof {
            assert(names@[index as int]@ == decode_utf8(t.raw_name(data@, index as int)));
            if records_outcome(data@, *t, (index + 1) as nat) is Err {
                lemma_records_fault_stays(data@, *t, (index + 1) as nat, count as nat);
            }
        }
        let entry = parse_v2_entry(data, end, t, index, names[index].clone())?;
        let ghost before = entries@;
        entries.push(entry);
        assert(model::entry_models(entries@) =~= model::entry_models(before).push(entry@));
        index += 1;
    }
    Ok(entries)
}

/// A directory whose names are read first has the same entries as one that is
/// read from front to back, and is good under the same conditions.
pub proof fn law_names_first_match(data: Seq<u8>, t: V2Trailer, count: nat)
    ensures
        by_name_outcome(data, t, count) is Ok <==> v2::entries_outcome(data, t, count) is Ok,
        by_name_outcome(data, t, count) is Ok ==> by_name_outcome(data, t, count)
            == v2::entries_outcome(data, t, count),
    decreases count,
{
    if count > 0 {
        law_names_first_match(data, t, (count - 1) as nat);
    }
}

} // verus!
