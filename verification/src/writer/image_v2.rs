//! New v2 archives.

use vstd::prelude::*;
use vstd::seq::*;
use vstd::seq_lib::*;
use vstd::slice::*;
use vstd::string::*;

use crate::align;
use crate::align::align_up;
use crate::archive::model::{EntryModel, P4kEntryRef, P4kFreelistBlock};
use crate::bytes;
use crate::bytes::{put_bytes, put_zeros};
use crate::error;
use crate::error::{Fault, Result};
use crate::writer::builder::{BuilderModel, P4kBuilder};
use crate::writer::fresh;
use crate::writer::options;
use crate::writer::options::{validate_options, P4kWriteStats};
use crate::writer::staged::{BuilderEntry, StagedModel};
use crate::writer::tail;
use crate::writer::tail::write_v2_tail;

verus! {

/// Where the payload of entry `k` starts, or the payloads end where there is
/// no entry `k`, in an archive that starts at `start`.
pub open spec fn payload_at(entries: Seq<StagedModel>, start: int, sector: int, k: int) -> int
    decreases k,
{
    if k <= 0 {
        start
    } else {
        align::aligned_up(
            payload_at(entries, start, sector, k - 1) + entries[k - 1].payload.len(),
            sector,
        )
    }
}

/// The payloads of the first `k` entries, each padded to a sector boundary.
pub open spec fn payload_bytes(
    entries: Seq<StagedModel>,
    start: int,
    sector: int,
    k: int,
) -> Seq<u8>
    decreases k,
{
    if k <= 0 {
        Seq::empty()
    } else {
        payload_bytes(entries, start, sector, k - 1) + (entries[k - 1].payload + bytes::zeros(
            (payload_at(entries, start, sector, k) - payload_at(entries, start, sector, k - 1)
                - entries[k - 1].payload.len()) as nat,
        ))
    }
}

/// What is wrong where a payload among the first `k` ends too near the top of
/// the range of offsets.
pub open spec fn payload_fault(
    entries: Seq<StagedModel>,
    start: int,
    sector: u64,
    k: int,
) -> Option<Fault>
    decreases k,
{
    if k <= 0 {
        None
    } else {
        match payload_fault(entries, start, sector, k - 1) {
            Some(fault) => Some(fault),
            None => if payload_at(entries, start, sector as int, k - 1) + entries[k
                - 1].payload.len() + sector - 1 > u64::MAX {
                Some(error::invalid_input_fault("alignment overflow"@))
            } else {
                None
            },
        }
    }
}

/// The directory entry of a staged entry whose payload starts at `at`.
pub open spec fn v2_entry(e: StagedModel, at: int) -> EntryModel {
    EntryModel {
        name: e.name,
        compressed_size: e.payload.len() as u64,
        uncompressed_size: e.uncompressed_size,
        compression_method: e.compression_method,
        is_encrypted: e.encrypted,
        local_header_offset: if e.payload.len() == 0 {
            0
        } else {
            at as u64
        },
        crc32: e.crc32,
        last_mod_file_time: e.last_mod_file_time,
        last_mod_file_date: e.last_mod_file_date,
        signature: e.signature,
        sha256: e.sha256,
        bytes_already_written: e.payload.len() as u64,
    }
}

/// The directory entries of an archive that starts at `start`.
pub open spec fn v2_entries(entries: Seq<StagedModel>, start: int, sector: int) -> Seq<
    EntryModel,
> {
    Seq::new(
        entries.len(),
        |i: int| v2_entry(entries[i], payload_at(entries, start, sector, i)),
    )
}

/// What writing a v2 archive from `start` on appends and reports, or why it fails.
pub open spec fn v2_image_outcome(model: BuilderModel, start: int) -> std::result::Result<
    (Seq<u8>, P4kWriteStats),
    Fault,
> {
    let entries = fresh::fresh_entries(model.entries);
    let sector = model.options.sector_size;
    let count = entries.len() as int;
    let end = payload_at(entries, start, sector as int, count) as u64;
    let records = v2_entries(entries, start, sector as int);
    match options::options_fault(model.options) {
        Some(fault) => Err(fault),
        None => match payload_fault(entries, start, sector, count) {
            Some(fault) => Err(fault),
            None => match tail::plan_outcome(end, records, 0, end, sector, true) {
                Err(fault) => Err(fault),
                Ok(plan) => Ok(
                    (
                        payload_bytes(entries, start, sector as int, count) + tail::tail_bytes(
                            end,
                            plan,
                            records,
                            Seq::empty(),
                            model.options,
                        ),
                        plan.stats(count as usize),
                    ),
                ),
            },
        },
    }
}

/// Once a payload ends too high, every longer run fails the same way.
pub proof fn lemma_payload_fault_stays(
    entries: Seq<StagedModel>,
    start: int,
    sector: u64,
    k: int,
    n: int,
)
    requires
        k <= n,
        payload_fault(entries, start, sector, k) is Some,
    ensures
        payload_fault(entries, start, sector, n) == payload_fault(entries, start, sector, k),
    decreases n - k,
{
    if k < n {
        lemma_payload_fault_stays(entries, start, sector, k, n - 1);
    }
}

/// The directory entry of a staged entry whose payload starts at `at`.
fn entry_ref_at(entry: &BuilderEntry, at: u64) -> (r: P4kEntryRef<'_>)
    ensures
        r@ == v2_entry(entry@, at as int),
{
    let length: u64 = entry.payload.len() as u64;
    P4kEntryRef {
        name: entry.name.as_str(),
        compressed_size: length,
        uncompressed_size: entry.uncompressed_size,
        compression_method: entry.compression_method,
        is_encrypted: entry.encrypted,
        local_header_offset: if length == 0 {
            0
        } else {
            at
        },
        crc32: entry.crc32,
        last_mod_file_time: entry.last_mod_file_time,
        last_mod_file_date: entry.last_mod_file_date,
        signature: entry.signature,
        sha256: entry.sha256,
        bytes_already_written: length,
    }
}

/// Append the payloads, and say where each one stands.
fn write_payloads<'a>(
    writer: &mut Vec<u8>,
    ordered: &Vec<&'a BuilderEntry>,
    sector_size: u64,
    Ghost(models): Ghost<Seq<StagedModel>>,
) -> (r: Result<Vec<P4kEntryRef<'a>>>)
    requires
        sector_size > 0,
        ordered@.len() == models.len(),
        forall|i: int| 0 <= i < models.len() ==> (#[trigger] ordered@[i])@ == models[i],
    ensures
        match r {
            Ok(records) => {
                let start = old(writer)@.len() as int;
                &&& payload_fault(models, start, sector_size, models.len() as int) is None
                &&& tail::ref_models(records@) == v2_entries(models, start, sector_size as int)
                &&& final(writer)@ == old(writer)@ + payload_bytes(
                    models,
                    start,
                    sector_size as int,
                    models.len() as int,
                )
                &&& final(writer)@.len() == payload_at(
                    models,
                    start,
                    sector_size as int,
                    models.len() as int,
                )
            },
            Err(e) => payload_fault(
                models,
                old(writer)@.len() as int,
                sector_size,
                models.len() as int,
            ) == Some(e@),
        },
        final(writer)@.len() >= old(writer)@.len(),
        final(writer)@.take(old(writer)@.len() as int) == old(writer)@,
{
    let ghost first = writer@;
    let ghost start = writer@.len() as int;
    let ghost sector = sector_size as int;
    let mut records: Vec<P4kEntryRef<'a>> = Vec::new();
    let mut i: usize = 0;
    assert(first =~= first + payload_bytes(models, start, sector, 0));
    while i < ordered.len()
        invariant
            i <= ordered@.len(),
            sector_size > 0,
            sector == sector_size,
            start == first.len(),
            ordered@.len() == models.len(),
            forall|j: int| 0 <= j < models.len() ==> (#[trigger] ordered@[j])@ == models[j],
            payload_fault(models, start, sector_size, i as int) is None,
            writer@ == first + payload_bytes(models, start, sector, i as int),
            writer@.len() == payload_at(models, start, sector, i as int),
            records@.len() == i,
            forall|j: int|
                0 <= j < i ==> (#[trigger] records@[j])@ == v2_entry(
                    models[j],
                    payload_at(models, start, sector, j),
                ),
            first == old(writer)@,
        decreases ordered@.len() - i,
    {
        let entry: &BuilderEntry = ordered[i];
        assert(ordered@[i as int]@ == models[i as int]);
        let ghost before = writer@;
        let at: u64 = writer.len() as u64;
        put_bytes(writer, entry.payload.as_slice());
        let end: u64 = writer.len() as u64;
        proof {
            if payload_fault(models, start, sector_size, i + 1) is Some {
                lemma_payload_fault_stays(models, start, sector_size, i + 1, models.len() as int);
            }
            align::lemma_aligned_up(end as int, sector);
            assert(writer@.take(start) =~= first);
        }
        let next: u64 = align_up(end, sector_size)?;
        put_zeros(writer, next - end);
        proof {
            let padding = bytes::zeros((next - end) as nat);
            bytes::lemma_joined(before, models[i as int].payload, padding);
            bytes::lemma_joined(
                first,
                payload_bytes(models, start, sector, i as int),
                models[i as int].payload + padding,
            );
        }
        records.push(entry_ref_at(entry, at));
        i += 1;
    }
    assert(tail::ref_models(records@) =~= v2_entries(models, start, sector));
    assert(writer@.take(start) =~= first);
    Ok(records)
}

impl P4kBuilder {
    fn append_v2_image(&self, writer: &mut Vec<u8>) -> (r: Result<P4kWriteStats>)
        ensures
            match r {
                Ok(stats) => {
                    let outcome = v2_image_outcome(self@, old(writer)@.len() as int);
                    &&& outcome is Ok
                    &&& stats == outcome->Ok_0.1
                    &&& final(writer)@ == old(writer)@ + outcome->Ok_0.0
                },
                Err(e) => v2_image_outcome(self@, old(writer)@.len() as int) == Err::<
                    (Seq<u8>, P4kWriteStats),
                    Fault,
                >(e@),
            },
            final(writer)@.len() >= old(writer)@.len(),
            final(writer)@.take(old(writer)@.len() as int) == old(writer)@,
    {
        validate_options(self.options())?;
        let ordered: Vec<&BuilderEntry> = self.entries_for_fresh_write();
        let ghost models = fresh::fresh_entries(self@.entries);
        let ghost first = writer@;
        let sector_size: u64 = self.options().sector_size;
        let records: Vec<P4kEntryRef<'_>> = write_payloads(
            writer,
            &ordered,
            sector_size,
            Ghost(models),
        )?;
        let end: u64 = writer.len() as u64;
        let blocks: Vec<P4kFreelistBlock> = Vec::new();
        assert(blocks@ =~= Seq::empty());
        let stats: P4kWriteStats = write_v2_tail(
            writer,
            end,
            &records,
            &blocks,
            end,
            self.options(),
            true,
        )?;
        proof {
            let start = first.len() as int;
            let payloads = payload_bytes(models, start, sector_size as int, models.len() as int);
            let plan = tail::plan_outcome(
                end,
                tail::ref_models(records@),
                0,
                end,
                sector_size,
                true,
            )->Ok_0;
            bytes::lemma_joined(
                first,
                payloads,
                tail::tail_bytes(
                    end,
                    plan,
                    tail::ref_models(records@),
                    blocks@,
                    self@.options,
                ),
            );
        }
        Ok(stats)
    }

    /// Append a v2 archive to `writer`.
    ///
    /// Offsets count from the start of `writer`. Nothing is appended where the
    /// archive cannot be written.
    pub fn write_to(&self, writer: &mut Vec<u8>) -> (r: Result<P4kWriteStats>)
        ensures
            match r {
                Ok(stats) => {
                    let outcome = v2_image_outcome(self@, old(writer)@.len() as int);
                    &&& outcome is Ok
                    &&& stats == outcome->Ok_0.1
                    &&& final(writer)@ == old(writer)@ + outcome->Ok_0.0
                },
                Err(e) => {
                    &&& v2_image_outcome(self@, old(writer)@.len() as int) == Err::<
                        (Seq<u8>, P4kWriteStats),
                        Fault,
                    >(e@)
                    &&& final(writer)@ == old(writer)@
                },
            },
    {
        let start: usize = writer.len();
        match self.append_v2_image(writer) {
            Ok(stats) => Ok(stats),
            Err(e) => {
                writer.truncate(start);
                Err(e)
            },
        }
    }
}

} // verus!
