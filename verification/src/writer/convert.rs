//! Conversion of v1 archives to v2.
//!
//! Payload bytes stay where they are: the v2 archive starts with the v1 file up
//! to the end of its payloads, and the local records between them become free
//! ranges.

use vstd::prelude::*;
use vstd::seq::*;
use vstd::seq_lib::*;
use vstd::slice::*;
use vstd::string::*;

use crate::align;
use crate::align::align_up;
use crate::archive::freelist;
use crate::archive::freelist::merge_blocks;
use crate::archive::model::{
    DirectoryModel, EntryModel, P4kEntryRef, P4kFreelistBlock, P4kVersion,
};
use crate::archive::placement;
use crate::archive::reader;
use crate::archive::reader::{ArchiveModel, P4kArchive, P4kRawEntryRef, RawEntryModel};
use crate::bytes::put_bytes;
use crate::error;
use crate::error::{invalid_input, unexpected_eof, Fault, Result};
use crate::text;
use crate::text::dec;
use crate::writer::options;
use crate::writer::options::{validate_options, P4kWriteStats, P4kWriterOptions};
use crate::writer::tail;
use crate::writer::tail::write_v2_tail;

verus! {

/// Where the last of the first `k` payloads ends, or what is wrong with the
/// first that ends too high. Entries without a payload do not count.
pub open spec fn max_end_outcome(raw: Seq<RawEntryModel>, k: int) -> std::result::Result<u64, Fault>
    decreases k,
{
    if k <= 0 {
        Ok(0)
    } else {
        let r = raw[k - 1];
        let end = r.payload_offset + r.entry.compressed_size;
        match max_end_outcome(raw, k - 1) {
            Err(fault) => Err(fault),
            Ok(max) => if r.entry.compressed_size == 0 {
                Ok(max)
            } else if end > u64::MAX {
                Err(error::invalid_input_fault("source v1 payload range overflow"@))
            } else if end > max {
                Ok(end as u64)
            } else {
                Ok(max)
            },
        }
    }
}

proof fn lemma_max_end_fault_stays(raw: Seq<RawEntryModel>, k: int, n: int)
    requires
        k <= n,
        max_end_outcome(raw, k) is Err,
    ensures
        max_end_outcome(raw, n) == max_end_outcome(raw, k),
    decreases n - k,
{
    if k < n {
        lemma_max_end_fault_stays(raw, k, n - 1);
    }
}

/// Find where the last payload of a v1 archive ends.
pub fn max_v1_payload_end(raw_entries: &[P4kRawEntryRef<'_>]) -> (r: Result<u64>)
    ensures
        error::outcome(r) == max_end_outcome(
            reader::raw_models(raw_entries@),
            raw_entries@.len() as int,
        ),
{
    let ghost models = reader::raw_models(raw_entries@);
    let mut max: u64 = 0;
    let mut i: usize = 0;
    while i < raw_entries.len()
        invariant
            i <= raw_entries@.len(),
            models == reader::raw_models(raw_entries@),
            max_end_outcome(models, i as int) == Ok::<u64, Fault>(max),
        decreases raw_entries@.len() - i,
    {
        assert(models[i as int] == raw_entries@[i as int]@);
        proof {
            if max_end_outcome(models, i + 1) is Err {
                lemma_max_end_fault_stays(models, i + 1, raw_entries@.len() as int);
            }
        }
        if raw_entries[i].payload_len != 0 {
            match raw_entries[i].payload_offset.checked_add(raw_entries[i].payload_len) {
                Some(end) => {
                    if end > max {
                        max = end;
                    }
                },
                None => return Err(invalid_input("source v1 payload range overflow")),
            }
        }
        i += 1;
    }
    Ok(max)
}

/// Merge free ranges, and report where a merged size does not fit.
///
/// A merge that fails leaves the ranges in order, those in front merged.
pub fn merge_freelist_blocks(blocks: &mut Vec<P4kFreelistBlock>) -> (r: Result<()>)
    ensures
        match r {
            Ok(_) => freelist::merged_blocks(old(blocks)@) == Some(final(blocks)@),
            Err(e) => {
                &&& freelist::merged_blocks(old(blocks)@) is None
                &&& e@ == error::invalid_input_fault("merged freelist block size overflow"@)
                &&& final(blocks)@ == freelist::partly_merged(old(blocks)@)
            },
        },
{
    if merge_blocks(blocks) {
        Ok(())
    } else {
        Err(invalid_input("merged freelist block size overflow"))
    }
}

/// What is left of free ranges when those at the end of the payloads are cut
/// off, where the payloads end then, and whether a range was met that ends too
/// high.
pub open spec fn trimmed(blocks: Seq<P4kFreelistBlock>, end: u64) -> (
    Seq<P4kFreelistBlock>,
    u64,
    bool,
)
    decreases blocks.len(),
{
    if blocks.len() == 0 {
        (blocks, end, false)
    } else {
        let last = blocks.last();
        if last.offset + last.size > u64::MAX {
            (blocks, end, true)
        } else if last.offset + last.size != end {
            (blocks, end, false)
        } else {
            trimmed(blocks.drop_last(), last.offset)
        }
    }
}

/// Cut off the free ranges at the end of the payloads.
pub fn trim_trailing_freelist_blocks(
    blocks: &mut Vec<P4kFreelistBlock>,
    payload_end: &mut u64,
    sector_size: u64,
) -> (r: Result<()>)
    requires
        sector_size > 0,
    ensures
        ({
            let aligned = align::align_up_outcome(*old(payload_end), sector_size);
            let left = trimmed(old(blocks)@, aligned->Ok_0);
            match r {
                Ok(_) => {
                    &&& aligned is Ok
                    &&& !left.2
                    &&& final(blocks)@ == left.0
                    &&& *final(payload_end) == left.1
                },
                Err(e) => {
                    &&& *final(payload_end) == *old(payload_end)
                    &&& match aligned {
                        Err(fault) => e@ == fault && final(blocks)@ == old(blocks)@,
                        Ok(_) => {
                            &&& left.2
                            &&& final(blocks)@ == left.0
                            &&& e@ == error::invalid_input_fault("freelist block range overflow"@)
                        },
                    }
                },
            }
        }),
{
    let mut end: u64 = align_up(*payload_end, sector_size)?;
    let ghost start = end;
    while blocks.len() > 0
        invariant
            trimmed(blocks@, end) == trimmed(old(blocks)@, start),
            *payload_end == *old(payload_end),
            align::align_up_outcome(*old(payload_end), sector_size) == Ok::<u64, Fault>(start),
        ensures
            trimmed(old(blocks)@, start) == (blocks@, end, false),
        decreases blocks@.len(),
    {
        let last: P4kFreelistBlock = blocks[blocks.len() - 1];
        let block_end: u64 = match last.offset.checked_add(last.size) {
            Some(v) => v,
            None => return Err(invalid_input("freelist block range overflow")),
        };
        if block_end != end {
            break;
        }
        end = last.offset;
        blocks.pop();
    }
    *payload_end = end;
    Ok(())
}

/// Append the first `expected_len` bytes of `reader` to `writer`.
///
/// Where the source is shorter, all of it is appended and the lack is reported.
pub fn copy_exact_prefix(reader: &[u8], writer: &mut Vec<u8>, expected_len: u64) -> (r: Result<()>)
    ensures
        match r {
            Ok(_) => {
                &&& expected_len <= reader@.len()
                &&& final(writer)@ == old(writer)@ + reader@.take(expected_len as int)
            },
            Err(e) => {
                &&& expected_len > reader@.len()
                &&& final(writer)@ == old(writer)@ + reader@
                &&& e@ == short_source_fault(reader@.len(), expected_len)
            },
        },
{
    assert(reader.len() == reader@.len());
    if expected_len > reader.len() as u64 {
        put_bytes(writer, reader);
        let message = String::from_str("source ended after ").concat(
            dec(reader.len() as u64).as_str(),
        ).concat(" bytes, expected ").concat(dec(expected_len).as_str()).concat(" bytes");
        return Err(unexpected_eof(message.as_str()));
    }
    let part = slice_subrange(reader, 0, expected_len as usize);
    assert(part@ =~= reader@.take(expected_len as int));
    put_bytes(writer, part);
    Ok(())
}

/// The fault of a source that ends too early.
pub open spec fn short_source_fault(length: nat, expected: u64) -> Fault {
    error::eof_fault(
        "source ended after "@ + text::dec_text(length) + " bytes, expected "@ + text::dec_text(
            expected as nat,
        ) + " bytes"@,
    )
}

/// What a v2 archive is to hold that is made of a v1 archive.
#[derive(Debug)]
pub struct V2Conversion<'a> {
    /// The entries, each with the offset of its payload.
    pub entries: Vec<P4kEntryRef<'a>>,
    /// The free ranges between the payloads.
    pub freelist_blocks: Vec<P4kFreelistBlock>,
    /// How many bytes of the v1 archive are kept.
    pub payload_end: u64,
}

/// What a v2 archive is to hold that is made of a v1 archive, as a value.
pub struct ConversionModel {
    pub entries: Seq<EntryModel>,
    pub freelist_blocks: Seq<P4kFreelistBlock>,
    pub payload_end: u64,
}

impl<'a> View for V2Conversion<'a> {
    type V = ConversionModel;

    open spec fn view(&self) -> ConversionModel {
        ConversionModel {
            entries: tail::ref_models(self.entries@),
            freelist_blocks: self.freelist_blocks@,
            payload_end: self.payload_end,
        }
    }
}

/// The v2 entry that is made of a v1 entry.
pub open spec fn converted_entry(raw: RawEntryModel) -> EntryModel {
    EntryModel {
        local_header_offset: if raw.entry.compressed_size == 0 {
            0
        } else {
            raw.payload_offset
        },
        ..raw.entry
    }
}

/// The v2 entries that are made of v1 entries.
pub open spec fn converted_entries(raw: Seq<RawEntryModel>) -> Seq<EntryModel> {
    Seq::new(raw.len(), |i: int| converted_entry(raw[i]))
}

/// The local records of v1 entries, as free ranges.
pub open spec fn record_blocks(raw: Seq<RawEntryModel>) -> Seq<P4kFreelistBlock> {
    Seq::new(
        raw.len(),
        |i: int|
            P4kFreelistBlock {
                offset: raw[i].entry.local_header_offset,
                size: raw[i].local_record_size,
            },
    )
}

/// What is wrong where a payload among the first `k` does not start on a
/// sector boundary.
pub open spec fn sector_fault(raw: Seq<RawEntryModel>, sector_size: u64, k: int) -> Option<Fault>
    decreases k,
{
    if k <= 0 {
        None
    } else {
        let r = raw[k - 1];
        match sector_fault(raw, sector_size, k - 1) {
            Some(fault) => Some(fault),
            None => if r.entry.compressed_size != 0 && r.payload_offset % sector_size != 0 {
                Some(
                    error::invalid_input_fault(
                        "destination sector size "@ + text::dec_text(sector_size as nat)
                            + " is incompatible with source payload offset "@ + text::dec_text(
                            r.payload_offset as nat,
                        ) + " for "@ + r.entry.name,
                    ),
                )
            } else {
                None
            },
        }
    }
}

proof fn lemma_sector_fault_stays(raw: Seq<RawEntryModel>, sector_size: u64, k: int, n: int)
    requires
        k <= n,
        sector_fault(raw, sector_size, k) is Some,
    ensures
        sector_fault(raw, sector_size, n) == sector_fault(raw, sector_size, k),
    decreases n - k,
{
    if k < n {
        lemma_sector_fault_stays(raw, sector_size, k, n - 1);
    }
}

/// What a v2 archive is to hold that is made of the given v1 entries and free
/// ranges, or why it cannot be made.
pub open spec fn conversion_outcome(
    raw: Seq<RawEntryModel>,
    blocks: Seq<P4kFreelistBlock>,
    source_len: u64,
    sector_size: u64,
) -> std::result::Result<ConversionModel, Fault> {
    let n = raw.len() as int;
    match max_end_outcome(raw, n) {
        Err(fault) => Err(fault),
        Ok(end) => if end > source_len {
            Err(error::eof_fault("source v1 payload range extends past file end"@))
        } else {
            match sector_fault(raw, sector_size, n) {
                Some(fault) => Err(fault),
                None => match freelist::merged_blocks(blocks + record_blocks(raw)) {
                    None => Err(
                        error::invalid_input_fault("merged freelist block size overflow"@),
                    ),
                    Some(merged) => match align::align_up_outcome(end, sector_size) {
                        Err(fault) => Err(fault),
                        Ok(aligned) => {
                            let left = trimmed(merged, aligned);
                            if left.2 {
                                Err(error::invalid_input_fault("freelist block range overflow"@))
                            } else {
                                Ok(
                                    ConversionModel {
                                        entries: converted_entries(raw),
                                        freelist_blocks: left.0,
                                        payload_end: left.1,
                                    },
                                )
                            }
                        },
                    },
                },
            }
        },
    }
}

fn convert_entries<'a>(raw: &Vec<P4kRawEntryRef<'a>>, sector_size: u64) -> (r: Result<
    Vec<P4kEntryRef<'a>>,
>)
    requires
        sector_size > 0,
    ensures
        ({
            let models = reader::raw_models(raw@);
            match r {
                Ok(entries) => {
                    &&& sector_fault(models, sector_size, models.len() as int) is None
                    &&& tail::ref_models(entries@) == converted_entries(models)
                },
                Err(e) => sector_fault(models, sector_size, models.len() as int) == Some(e@),
            }
        }),
{
    let ghost models = reader::raw_models(raw@);
    let mut entries: Vec<P4kEntryRef<'a>> = Vec::new();
    let mut i: usize = 0;
    while i < raw.len()
        invariant
            i <= raw@.len(),
            sector_size > 0,
            models == reader::raw_models(raw@),
            sector_fault(models, sector_size, i as int) is None,
            entries@.len() == i,
            forall|j: int| 0 <= j < i ==> (#[trigger] entries@[j])@ == converted_entry(models[j]),
        decreases raw@.len() - i,
    {
        let r: &P4kRawEntryRef<'a> = &raw[i];
        assert(models[i as int] == r@);
        proof {
            if sector_fault(models, sector_size, i + 1) is Some {
                lemma_sector_fault_stays(models, sector_size, i + 1, models.len() as int);
            }
        }
        if r.payload_len != 0 && r.payload_offset % sector_size != 0 {
            let message = String::from_str("destination sector size ").concat(
                dec(sector_size).as_str(),
            ).concat(" is incompatible with source payload offset ").concat(
                dec(r.payload_offset).as_str(),
            ).concat(" for ").concat(r.name);
            return Err(invalid_input(message.as_str()));
        }
        entries.push(
            P4kEntryRef {
                name: r.name,
                compressed_size: r.payload_len,
                uncompressed_size: r.uncompressed_size,
                compression_method: r.compression_method,
                is_encrypted: r.is_encrypted,
                local_header_offset: if r.payload_len == 0 {
                    0
                } else {
                    r.payload_offset
                },
                crc32: r.crc32,
                last_mod_file_time: r.last_mod_file_time,
                last_mod_file_date: r.last_mod_file_date,
                signature: r.signature,
                sha256: r.sha256,
                bytes_already_written: r.bytes_already_written,
            },
        );
        i += 1;
    }
    assert(tail::ref_models(entries@) =~= converted_entries(models));
    Ok(entries)
}

fn gather_blocks(blocks: &[P4kFreelistBlock], raw: &Vec<P4kRawEntryRef<'_>>) -> (r: Vec<
    P4kFreelistBlock,
>)
    ensures
        r@ == blocks@ + record_blocks(reader::raw_models(raw@)),
{
    let ghost records = record_blocks(reader::raw_models(raw@));
    let mut out: Vec<P4kFreelistBlock> = Vec::new();
    let mut b: usize = 0;
    while b < blocks.len()
        invariant
            b <= blocks@.len(),
            out@ == blocks@.take(b as int),
        decreases blocks@.len() - b,
    {
        out.push(blocks[b]);
        b += 1;
        assert(out@ =~= blocks@.take(b as int));
    }
    let mut i: usize = 0;
    assert(out@ =~= blocks@ + records.take(0));
    while i < raw.len()
        invariant
            i <= raw@.len(),
            records == record_blocks(reader::raw_models(raw@)),
            out@ == blocks@ + records.take(i as int),
        decreases raw@.len() - i,
    {
        let ghost before = out@;
        let block = P4kFreelistBlock {
            offset: raw[i].local_header_offset,
            size: raw[i].local_record_size,
        };
        out.push(block);
        assert(records[i as int] == block) by {
            assert(reader::raw_models(raw@)[i as int] == raw@[i as int]@);
        }
        assert(out@ =~= blocks@ + records.take(i + 1));
        i += 1;
    }
    assert(records.take(i as int) =~= records);
    out
}

/// Plan a v2 archive that is made of the given v1 entries and free ranges.
pub fn plan_conversion<'a>(
    raw: &Vec<P4kRawEntryRef<'a>>,
    freelist_blocks: &[P4kFreelistBlock],
    source_len: u64,
    sector_size: u64,
) -> (r: Result<V2Conversion<'a>>)
    requires
        sector_size > 0,
    ensures
        match r {
            Ok(conversion) => conversion_outcome(
                reader::raw_models(raw@),
                freelist_blocks@,
                source_len,
                sector_size,
            ) == Ok::<ConversionModel, Fault>(conversion@),
            Err(e) => conversion_outcome(
                reader::raw_models(raw@),
                freelist_blocks@,
                source_len,
                sector_size,
            ) == Err::<ConversionModel, Fault>(e@),
        },
{
    let mut payload_end: u64 = max_v1_payload_end(raw.as_slice())?;
    if payload_end > source_len {
        return Err(unexpected_eof("source v1 payload range extends past file end"));
    }
    let entries: Vec<P4kEntryRef<'a>> = convert_entries(raw, sector_size)?;
    let mut blocks: Vec<P4kFreelistBlock> = gather_blocks(freelist_blocks, raw);
    merge_freelist_blocks(&mut blocks)?;
    trim_trailing_freelist_blocks(&mut blocks, &mut payload_end, sector_size)?;
    Ok(V2Conversion { entries, freelist_blocks: blocks, payload_end })
}

/// The archive that the bytes of a file hold.
pub open spec fn opened(data: Seq<u8>, version: P4kVersion, directory: DirectoryModel) -> ArchiveModel {
    ArchiveModel {
        data,
        name: Seq::empty(),
        version,
        directory,
        placement: placement::placement_of(
            data,
            version,
            directory.entries,
            directory.layout.physical_sector_size,
        ),
    }
}

/// What the v2 archive is to hold that is made of an opened v1 archive.
pub open spec fn archive_conversion(a: ArchiveModel, sector_size: u64) -> std::result::Result<
    ConversionModel,
    Fault,
> {
    if a.version != P4kVersion::V1 {
        Err(error::invalid_input_fault("source archive is not P4K v1"@))
    } else {
        match a.raw_entries(a.directory.entries.len()) {
            Err(fault) => Err(fault),
            Ok(raw) => conversion_outcome(
                raw,
                a.directory.freelist_blocks,
                a.data.len() as u64,
                sector_size,
            ),
        }
    }
}

/// The v2 archive that a planned conversion of `source` leads to, or why it
/// cannot be written.
pub open spec fn converted_outcome(
    source: Seq<u8>,
    c: ConversionModel,
    options: P4kWriterOptions,
) -> std::result::Result<(Seq<u8>, P4kWriteStats), Fault> {
    if c.payload_end > source.len() {
        Err(short_source_fault(source.len(), c.payload_end))
    } else {
        match tail::plan_outcome(
            c.payload_end,
            c.entries,
            c.freelist_blocks.len() as int,
            c.payload_end,
            options.sector_size,
            false,
        ) {
            Err(fault) => Err(fault),
            Ok(plan) => Ok(
                (
                    source.take(c.payload_end as int) + tail::tail_bytes(
                        c.payload_end,
                        plan,
                        c.entries,
                        c.freelist_blocks,
                        options,
                    ),
                    plan.stats(c.entries.len() as usize),
                ),
            ),
        }
    }
}

/// The v2 archive that is made of the v1 archive in a file, or why there is none.
pub open spec fn convert_outcome(source: Seq<u8>, options: P4kWriterOptions) -> std::result::Result<
    (Seq<u8>, P4kWriteStats),
    Fault,
> {
    match options::options_fault(options) {
        Some(fault) => Err(fault),
        None => match reader::archive_outcome(source) {
            Err(fault) => Err(fault),
            Ok((version, directory)) => match archive_conversion(
                opened(source, version, directory),
                options.sector_size,
            ) {
                Err(fault) => Err(fault),
                Ok(conversion) => converted_outcome(source, conversion, options),
            },
        },
    }
}

/// Plan a v2 archive that is made of an opened v1 archive.
pub fn plan_archive_conversion<'a>(archive: &'a P4kArchive<'_>, sector_size: u64) -> (r: Result<
    V2Conversion<'a>,
>)
    requires
        sector_size > 0,
    ensures
        match r {
            Ok(conversion) => archive_conversion(archive@, sector_size) == Ok::<
                ConversionModel,
                Fault,
            >(conversion@),
            Err(e) => archive_conversion(archive@, sector_size) == Err::<ConversionModel, Fault>(
                e@,
            ),
        },
{
    if archive.version() != P4kVersion::V1 {
        return Err(invalid_input("source archive is not P4K v1"));
    }
    let raw: Vec<P4kRawEntryRef<'_>> = archive.raw_entries()?;
    plan_conversion(&raw, archive.freelist_blocks(), archive.file_size(), sector_size)
}

/// Convert a v1 archive to v2.
///
/// Compressed payload bytes, compression method, CRC, sizes, encryption flags,
/// signatures, and SHA-256 metadata are kept.
pub fn convert_v1_to_v2(source: &[u8], options: P4kWriterOptions) -> (r: Result<
    (Vec<u8>, P4kWriteStats),
>)
    ensures
        match r {
            Ok((image, stats)) => convert_outcome(source@, options) == Ok::<
                (Seq<u8>, P4kWriteStats),
                Fault,
            >((image@, stats)),
            Err(e) => convert_outcome(source@, options) == Err::<(Seq<u8>, P4kWriteStats), Fault>(
                e@,
            ),
        },
{
    validate_options(&options)?;
    let archive = P4kArchive::from_bytes("", source)?;
    proof {
        reveal_strlit("");
        assert(archive@.name =~= Seq::<char>::empty());
        assert(archive@ == opened(source@, archive@.version, archive@.directory));
    }
    let conversion = plan_archive_conversion(&archive, options.sector_size)?;
    let mut image: Vec<u8> = Vec::new();
    copy_exact_prefix(source, &mut image, conversion.payload_end)?;
    assert(image@ =~= source@.take(conversion.payload_end as int));
    let stats: P4kWriteStats = write_v2_tail(
        &mut image,
        conversion.payload_end,
        &conversion.entries,
        &conversion.freelist_blocks,
        conversion.payload_end,
        &options,
        false,
    )?;
    Ok((image, stats))
}

} // verus!
