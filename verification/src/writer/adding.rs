//! What becomes of entries that are added to a builder.

use vstd::prelude::*;
use vstd::seq::*;
use vstd::seq_lib::*;
use vstd::utf8::*;

use crate::archive::model::{EntryModel, P4kVersion};
use crate::archive::reader;
use crate::archive::reader::ArchiveModel;
use crate::archive::reader_laws;
use crate::archive::v1_install;
use crate::error::Fault;
use crate::order;
use crate::path;
use crate::writer::builder;
use crate::writer::builder::BuilderModel;
use crate::writer::fresh;
use crate::writer::image_v1;
use crate::writer::image_v2;
use crate::writer::options::{MetadataModel, P4kWriterOptions};
use crate::writer::read_back_v1;
use crate::writer::read_v1;
use crate::writer::round_trip_v1;
use crate::writer::round_trip_v2;
use crate::writer::staged::StagedModel;
use crate::zip::CompressionMethod;

verus! {

/// Whether an entry is written before another, whatever the order of adding.
spec fn goes_first(a: StagedModel, b: StagedModel) -> bool {
    a.payload.len() > b.payload.len() || (a.payload.len() == b.payload.len() && order::bytes_below(
        path::name_key(a.name),
        path::name_key(b.name),
    ))
}

/// Whether no two entries have both the same name and equally long payloads.
pub open spec fn told_apart(entries: Seq<StagedModel>) -> bool {
    forall|i: int, j: int|
        0 <= i < j < entries.len() && (#[trigger] entries[i]).payload.len() == (
        #[trigger] entries[j]).payload.len() ==> path::name_key(entries[i].name)
            != path::name_key(entries[j].name)
}

proof fn lemma_fresh_sorted(entries: Seq<StagedModel>)
    requires
        entries.len() <= usize::MAX,
        told_apart(entries),
    ensures
        forall|i: int, j: int|
            0 <= i < j < entries.len() ==> goes_first(
                #[trigger] fresh::fresh_entries(entries)[i],
                #[trigger] fresh::fresh_entries(entries)[j],
            ),
        forall|e: StagedModel|
            #[trigger] fresh::fresh_entries(entries).contains(e) <==> entries.contains(e),
{
    let sorted = fresh::fresh_order_of(entries);
    let listed = fresh::fresh_entries(entries);
    fresh::law_fresh_order_exists(entries);
    assert forall|i: int, j: int| 0 <= i < j < entries.len() implies goes_first(
        #[trigger] listed[i],
        #[trigger] listed[j],
    ) by {
        let a = sorted[i] as int;
        let b = sorted[j] as int;
        assert(sorted[i] < entries.len() && sorted[j] < entries.len());
        assert(fresh::fresh_precedes(entries, a, b));
        let ka = path::name_key(entries[a].name);
        let kb = path::name_key(entries[b].name);
        order::lemma_bytes_below_order(ka, kb);
        order::lemma_bytes_below_total(ka, kb);
        if entries[a].payload.len() == entries[b].payload.len() {
            if a < b {
                assert(ka != kb);
            } else if b < a {
                assert(kb != ka);
            }
        }
    }
    assert forall|e: StagedModel| #[trigger] listed.contains(e) <==> entries.contains(e) by {
        if listed.contains(e) {
            let i = choose|i: int| 0 <= i < listed.len() && listed[i] == e;
            assert(sorted[i] < entries.len());
            assert(entries[sorted[i] as int] == e);
        }
        if entries.contains(e) {
            let k = choose|k: int| 0 <= k < entries.len() && entries[k] == e;
            assert(sorted.contains(k as usize));
            let i = choose|i: int| 0 <= i < sorted.len() && sorted[i] == k as usize;
            assert(listed[i] == e);
        }
    }
}

proof fn lemma_same_start(a: Seq<StagedModel>, b: Seq<StagedModel>, n: int)
    requires
        a.len() == b.len(),
        0 <= n <= a.len(),
        forall|i: int, j: int|
            0 <= i < j < a.len() ==> goes_first(#[trigger] a[i], #[trigger] a[j]),
        forall|i: int, j: int|
            0 <= i < j < b.len() ==> goes_first(#[trigger] b[i], #[trigger] b[j]),
        forall|e: StagedModel| #[trigger] a.contains(e) <==> b.contains(e),
    ensures
        a.take(n) == b.take(n),
    decreases n,
{
    if n > 0 {
        let k = n - 1;
        lemma_same_start(a, b, k);
        if a[k] != b[k] {
            assert(a.contains(a[k]) && b.contains(b[k]));
            assert(b.contains(a[k]) && a.contains(b[k]));
            let i = choose|i: int| 0 <= i < b.len() && b[i] == a[k];
            let j = choose|j: int| 0 <= j < a.len() && a[j] == b[k];
            let ka = path::name_key(a[k].name);
            let kb = path::name_key(b[k].name);
            order::lemma_bytes_below_order(ka, kb);
            order::lemma_bytes_below_order(kb, ka);
            if i < k {
                assert(a.take(k)[i] == b.take(k)[i]);
                assert(goes_first(a[i], a[k]));
            } else if j < k {
                assert(a.take(k)[j] == b.take(k)[j]);
                assert(goes_first(b[j], b[k]));
            } else {
                assert(goes_first(b[k], b[i]));
                assert(goes_first(a[k], a[j]));
            }
        }
        assert(a.take(n) =~= a.take(k).push(a[k]));
        assert(b.take(n) =~= b.take(k).push(b[k]));
    } else {
        assert(a.take(0) =~= b.take(0));
    }
}

proof fn lemma_same_entries(a: Seq<StagedModel>, b: Seq<StagedModel>)
    requires
        a.to_multiset() == b.to_multiset(),
        a.len() <= usize::MAX,
        told_apart(a),
        told_apart(b),
    ensures
        fresh::fresh_entries(a) == fresh::fresh_entries(b),
{
    let one = fresh::fresh_entries(a);
    let other = fresh::fresh_entries(b);
    assert(a.len() == b.len() && forall|e: StagedModel| #[trigger]
        a.contains(e) <==> b.contains(e)) by {
        to_multiset_len(a);
        to_multiset_len(b);
        assert forall|e: StagedModel| #[trigger] a.contains(e) <==> b.contains(e) by {
            to_multiset_contains(a, e);
            to_multiset_contains(b, e);
        }
    }
    lemma_fresh_sorted(a);
    lemma_fresh_sorted(b);
    assert forall|e: StagedModel| #[trigger] one.contains(e) <==> other.contains(e) by {
        assert(a.contains(e) <==> b.contains(e));
    }
    lemma_same_start(one, other, one.len() as int);
    assert(one.take(one.len() as int) =~= one);
    assert(other.take(one.len() as int) =~= other);
}

/// The order in which entries are added leaves no trace: builders with the
/// same options and the same entries write the same archive and report the
/// same of it, as v1 and as v2.
///
/// No two entries may have the same name, but for case and separators, and
/// equally long payloads: of such the one that was added first is written first.
pub proof fn law_order_of_adding(a: BuilderModel, b: BuilderModel, start: int)
    requires
        a.options == b.options,
        a.entries.to_multiset() == b.entries.to_multiset(),
        a.entries.len() <= usize::MAX,
        told_apart(a.entries),
        told_apart(b.entries),
    ensures
        image_v2::v2_image_outcome(a, start) == image_v2::v2_image_outcome(b, start),
        image_v1::v1_image_outcome(a, start) == image_v1::v1_image_outcome(b, start),
{
    lemma_same_entries(a.entries, b.entries);
}

/// Whether entry `k` is the first to be written of those that have its name,
/// whatever the case and the separators.
pub open spec fn is_first_one(entries: Seq<StagedModel>, k: int) -> bool {
    forall|j: int|
        0 <= j < entries.len() && j != k && path::name_key((#[trigger] entries[j]).name)
            == path::name_key(entries[k].name) ==> fresh::fresh_precedes(entries, k, j)
}

/// Whether an entry of an archive says of itself what was staged.
pub open spec fn keeps_staged(e: EntryModel, staged: StagedModel) -> bool {
    &&& e.name == staged.name
    &&& e.compressed_size == staged.payload.len()
    &&& e.uncompressed_size == staged.uncompressed_size
    &&& e.compression_method == staged.compression_method
    &&& e.is_encrypted == staged.encrypted
    &&& e.crc32 == staged.crc32
    &&& e.last_mod_file_time == staged.last_mod_file_time
    &&& e.last_mod_file_date == staged.last_mod_file_date
    &&& e.signature == staged.signature
    &&& e.sha256 == staged.sha256
}

/// Whether an entry was staged under a name.
pub open spec fn was_named(staged: StagedModel, name: Seq<char>) -> bool {
    &&& path::archive_name_outcome(name) is Ok
    &&& staged.name == decode_utf8(path::archive_name_outcome(name)->Ok_0)
}

proof fn lemma_first_in_order(entries: Seq<StagedModel>, k: int) -> (i: int)
    requires
        entries.len() <= usize::MAX,
        0 <= k < entries.len(),
        is_first_one(entries, k),
    ensures
        0 <= i < entries.len(),
        fresh::fresh_entries(entries)[i] == entries[k],
        forall|j: int|
            0 <= j < i ==> path::name_key((#[trigger] fresh::fresh_entries(entries)[j]).name)
                != path::name_key(entries[k].name),
{
    let sorted = fresh::fresh_order_of(entries);
    let listed = fresh::fresh_entries(entries);
    fresh::law_fresh_order_exists(entries);
    assert(sorted.contains(k as usize));
    let i = choose|i: int| 0 <= i < sorted.len() && sorted[i] == k as usize;
    assert forall|j: int| 0 <= j < i implies path::name_key((#[trigger] listed[j]).name)
        != path::name_key(entries[k].name) by {
        let other = sorted[j] as int;
        assert(sorted[j] < entries.len());
        assert(fresh::fresh_precedes(entries, sorted[j] as int, sorted[i] as int));
        order::lemma_bytes_below_order(
            path::name_key(entries[k].name),
            path::name_key(entries[k].name),
        );
        assert(path::name_key(listed[j].name) == path::name_key(entries[other].name));
    }
    i
}

proof fn lemma_meant(e: EntryModel, listed: StagedModel, staged: StagedModel, name: Seq<char>)
    requires
        e.name == listed.name,
        listed.is_named(),
        staged.is_named(),
        was_named(staged, name),
    ensures
        reader::is_meant_by(e, name) <==> path::name_key(listed.name) == path::name_key(
            staged.name,
        ),
{
    let normal = path::archive_name_outcome(name)->Ok_0;
    path::law_archive_name_is_normal(name);
    decode_utf8_encode_utf8(normal);
    assert(encode_utf8(staged.name) == normal);
    path::law_key_of_normal_name(normal);
    path::law_key_of_normal_name(encode_utf8(listed.name));
}

proof fn lemma_fresh_named(entries: Seq<StagedModel>, i: int)
    requires
        entries.len() <= usize::MAX,
        forall|j: int| 0 <= j < entries.len() ==> (#[trigger] entries[j]).is_named(),
        0 <= i < entries.len(),
    ensures
        fresh::fresh_entries(entries)[i].is_named(),
{
    let sorted = fresh::fresh_order_of(entries);
    fresh::law_fresh_order_exists(entries);
    assert(sorted[i] < entries.len());
    assert(entries[sorted[i] as int].is_named());
}

proof fn lemma_found_added(
    archive: ArchiveModel,
    entries: Seq<StagedModel>,
    k: int,
    name: Seq<char>,
) -> (i: int)
    requires
        entries.len() <= usize::MAX,
        archive.directory.entries.len() == entries.len(),
        forall|j: int|
            0 <= j < entries.len() ==> (#[trigger] archive.directory.entries[j]).name
                == fresh::fresh_entries(entries)[j].name,
        forall|j: int| 0 <= j < entries.len() ==> (#[trigger] entries[j]).is_named(),
        0 <= k < entries.len(),
        is_first_one(entries, k),
        was_named(entries[k], name),
    ensures
        0 <= i < entries.len(),
        fresh::fresh_entries(entries)[i] == entries[k],
        archive.found_at(name, 0) == Some(i),
{
    let listed = fresh::fresh_entries(entries);
    let i = lemma_first_in_order(entries, k);
    reader::law_found(archive, name);
    assert forall|j: int| 0 <= j < entries.len() implies reader::is_meant_by(
        #[trigger] archive.directory.entries[j],
        name,
    ) == (path::name_key(listed[j].name) == path::name_key(entries[k].name)) by {
        lemma_fresh_named(entries, j);
        lemma_meant(archive.directory.entries[j], listed[j], entries[k], name);
    }
    assert(reader::is_meant_by(archive.directory.entries[i], name));
    i
}

/// An entry that was added to a builder is found under its name in the v2
/// archive that the builder wrote to a file, empty before or full up to a
/// sector boundary. It says of itself what was staged, and reads as what was
/// added: real trailing zeroes are kept, and padding is not. Of entries with the
/// same name the first that was written is found.
pub proof fn law_added_then_read_v2(
    model: BuilderModel,
    before: Seq<u8>,
    archive: ArchiveModel,
    k: int,
    name: Seq<char>,
    added: Seq<u8>,
)
    requires
        model.is_formed(),
        model.entries.len() <= usize::MAX,
        before.len() as int % model.options.sector_size as int == 0,
        image_v2::v2_image_outcome(model, before.len() as int) is Ok,
        round_trip_v2::v2_file(model, before).len() <= isize::MAX,
        0 <= k < model.entries.len(),
        is_first_one(model.entries, k),
        was_named(model.entries[k], name),
    ensures
        archive.data == round_trip_v2::v2_file(model, before) && archive.is_read() ==> {
            &&& archive.found_at(name, 0) is Some
            &&& {
                let e = archive.directory.entries[archive.found_at(name, 0)->Some_0];
                &&& keeps_staged(e, model.entries[k])
                &&& model.entries[k].decoded() == Ok::<Seq<u8>, Fault>(added) ==> archive.read(e)
                    == Ok::<Seq<u8>, Fault>(added)
                &&& model.entries[k].decoded() == Ok::<Seq<u8>, Fault>(added)
                    ==> archive.extracted(e) == Ok::<Seq<u8>, Fault>(added)
                &&& model.entries[k].is_sound() ==> archive.integrity_fault(e) is None
            }
        },
{
    if archive.data == round_trip_v2::v2_file(model, before) && archive.is_read() {
        let staged = fresh::fresh_entries(model.entries);
        round_trip_v2::law_v2_write_then_open(model, before);
        assert forall|j: int| 0 <= j < model.entries.len() implies (
        #[trigger] model.entries[j]).is_named() by {
            assert(model.entries[j].is_formed());
        }
        let i = lemma_found_added(archive, model.entries, k, name);
        assert(model.entries[k].is_formed());
        assert(staged[i].payload.len() <= isize::MAX) by {
            let e = archive.directory.entries[i];
            assert(crate::bytes::holds_at(
                archive.data,
                e.local_header_offset as int,
                staged[i].payload,
            ));
        }
        round_trip_v2::law_v2_write_then_read(model, before, archive, i);
    }
}

proof fn lemma_listed_v1(model: BuilderModel, before: Seq<u8>, i: int)
    requires
        model.is_formed(),
        model.entries.len() <= usize::MAX,
        before.len() as int % model.options.sector_size as int == 0,
        image_v1::v1_image_outcome(model, before.len() as int) is Ok,
        round_trip_v1::v1_file(model, before).len() <= isize::MAX,
        0 <= i < model.entries.len(),
    ensures
        keeps_staged(
            round_trip_v1::written_v1_entries(model, before.len() as int)[i],
            fresh::fresh_entries(model.entries)[i],
        ),
{
    let staged = fresh::fresh_entries(model.entries);
    read_v1::lemma_written_record(model, before, i);
    assert(staged[i].payload.len() <= isize::MAX);
}

proof fn lemma_first_of_each(records: Seq<EntryModel>, count: nat)
    requires
        count <= records.len(),
    ensures
        forall|a: int|
            0 <= a < round_trip_v1::first_of_each(records, count).len() ==> exists|j: int|
                0 <= j < count && records[j] == #[trigger] round_trip_v1::first_of_each(
                    records,
                    count,
                )[a] && !#[trigger] v1_install::is_repeated(records, j),
        forall|j: int|
            0 <= j < count && !#[trigger] v1_install::is_repeated(records, j)
                ==> round_trip_v1::first_of_each(records, count).contains(records[j]),
    decreases count,
{
    if count > 0 {
        let short = round_trip_v1::first_of_each(records, (count - 1) as nat);
        let all = round_trip_v1::first_of_each(records, count);
        lemma_first_of_each(records, (count - 1) as nat);
        assert forall|a: int| 0 <= a < all.len() implies exists|j: int|
            0 <= j < count && records[j] == #[trigger] all[a] && !#[trigger] v1_install::is_repeated(
                records,
                j,
            ) by {
            if a < short.len() {
                assert(all[a] == short[a]);
                let j = choose|j: int|
                    0 <= j < count - 1 && records[j] == short[a]
                        && !#[trigger] v1_install::is_repeated(records, j);
                assert(records[j] == all[a] && !v1_install::is_repeated(records, j));
            } else {
                assert(records[count - 1] == all[a] && !v1_install::is_repeated(
                    records,
                    count - 1,
                ));
            }
        }
        assert forall|j: int|
            0 <= j < count && !#[trigger] v1_install::is_repeated(records, j) implies all.contains(
            records[j],
        ) by {
            if j < count - 1 {
                assert(short.contains(records[j]));
                let a = choose|a: int| 0 <= a < short.len() && short[a] == records[j];
                assert(all[a] == records[j]);
            } else {
                assert(all[short.len() as int] == records[j]);
            }
        }
    }
}

/// The entry that a name means in a v1 archive is the first that was written
/// under that name.
proof fn lemma_found_listed(
    archive: ArchiveModel,
    model: BuilderModel,
    start: int,
    k: int,
    name: Seq<char>,
) -> (i: int)
    requires
        model.entries.len() <= usize::MAX,
        archive.directory.entries == round_trip_v1::listed_v1_entries(model, start),
        forall|j: int| 0 <= j < model.entries.len() ==> (#[trigger] model.entries[j]).is_named(),
        0 <= k < model.entries.len(),
        is_first_one(model.entries, k),
        was_named(model.entries[k], name),
    ensures
        0 <= i < model.entries.len(),
        fresh::fresh_entries(model.entries)[i] == model.entries[k],
        archive.found_at(name, 0) is Some,
        archive.directory.entries[archive.found_at(name, 0)->Some_0]
            == round_trip_v1::written_v1_entries(model, start)[i],
{
    let staged = fresh::fresh_entries(model.entries);
    let records = round_trip_v1::written_v1_entries(model, start);
    let kept = archive.directory.entries;
    let n = model.entries.len();
    let i = lemma_first_in_order(model.entries, k);
    lemma_first_of_each(records, n);
    reader::law_found(archive, name);
    assert forall|j: int| 0 <= j < n implies reader::is_meant_by(#[trigger] records[j], name) == (
    path::name_key(records[j].name) == path::name_key(records[i].name)) by {
        lemma_fresh_named(model.entries, j);
        lemma_meant(records[j], staged[j], model.entries[k], name);
    }
    assert(!v1_install::is_repeated(records, i)) by {
        assert forall|j: int| 0 <= j < i implies path::name_key(#[trigger] records[j].name)
            != path::name_key(records[i].name) by {
            assert(records[j].name == staged[j].name);
        }
    }
    assert(kept.contains(records[i]));
    let a = choose|a: int| 0 <= a < kept.len() && kept[a] == records[i];
    assert(reader::is_meant_by(kept[a], name));
    let found = archive.found_at(name, 0)->Some_0;
    assert(kept[found] == kept[found]);
    let j = choose|j: int|
        0 <= j < n && records[j] == kept[found] && !#[trigger] v1_install::is_repeated(records, j);
    assert(reader::is_meant_by(records[j], name));
    if i < j {
        assert(v1_install::is_repeated(records, j));
    } else if j < i {
        assert(v1_install::is_repeated(records, i));
    }
    i
}

/// Whether an entry that was added under a name is found under it in a v1
/// archive, says of itself what was staged, and reads as what was added.
pub open spec fn reads_back_v1(
    archive: ArchiveModel,
    staged: StagedModel,
    sector: int,
    name: Seq<char>,
    added: Seq<u8>,
) -> bool {
    let e = archive.directory.entries[archive.found_at(name, 0)->Some_0];
    let other = read_v1::behind_header(archive.data, e, sector);
    &&& archive.found_at(name, 0) is Some
    &&& keeps_staged(e, staged)
    &&& staged.is_sound() && staged.decoded() == Ok::<Seq<u8>, Fault>(added) ==> {
        ||| read_v1::digests_collide(staged.payload, other)
        ||| archive.read(e) == Ok::<Seq<u8>, Fault>(added)
    }
}

proof fn lemma_read_back_v1(
    model: BuilderModel,
    before: Seq<u8>,
    archive: ArchiveModel,
    k: int,
    name: Seq<char>,
    added: Seq<u8>,
)
    requires
        model.is_formed(),
        model.entries.len() <= usize::MAX,
        is_first_one(model.entries, k),
        before.len() as int % model.options.sector_size as int == 0,
        image_v1::v1_image_outcome(model, before.len() as int) is Ok,
        round_trip_v1::v1_file(model, before).len() <= isize::MAX,
        0 <= k < model.entries.len(),
        was_named(model.entries[k], name),
        archive.data == round_trip_v1::v1_file(model, before),
        archive.version == P4kVersion::V1,
        archive.sector_size() == Some(model.options.sector_size),
        archive.directory.entries == round_trip_v1::listed_v1_entries(model, before.len() as int),
    ensures
        reads_back_v1(
            archive,
            model.entries[k],
            model.options.sector_size as int,
            name,
            added,
        ),
{
    assert forall|j: int| 0 <= j < model.entries.len() implies (
    #[trigger] model.entries[j]).is_named() by {
        assert(model.entries[j].is_formed());
    }
    let i = lemma_found_listed(archive, model, before.len() as int, k, name);
    lemma_listed_v1(model, before, i);
    read_v1::law_v1_write_then_read(model, before, archive, i);
}

proof fn lemma_opened_v1(model: BuilderModel, before: Seq<u8>, archive: ArchiveModel)
    requires
        model.is_formed(),
        model.entries.len() <= usize::MAX,
        before.len() as int % model.options.sector_size as int == 0,
        image_v1::v1_image_outcome(model, before.len() as int) is Ok,
        round_trip_v1::v1_file(model, before).len() <= isize::MAX,
        !read_back_v1::looks_like_locator(
            round_trip_v1::written_zip64_offset(model, before.len() as int) as u64,
        ),
    ensures
        archive.data == round_trip_v1::v1_file(model, before) && archive.is_read() ==> {
            &&& archive.version == P4kVersion::V1
            &&& archive.sector_size() == Some(model.options.sector_size)
            &&& archive.directory.entries == round_trip_v1::listed_v1_entries(
                model,
                before.len() as int,
            )
        },
{
    round_trip_v1::law_v1_write_then_open(model, before);
}

/// An entry that was added to a builder is found under its name in the v1
/// archive that the builder wrote to a file, empty before or full up to a
/// sector boundary. It says of itself what was staged, and reads as what was
/// added: real trailing zeroes are kept, and padding is not. Of entries with the
/// same name the first that was written is found.
///
/// What is left out is what opening and reading a v1 archive leave out.
pub proof fn law_added_then_read_v1(
    model: BuilderModel,
    before: Seq<u8>,
    archive: ArchiveModel,
    k: int,
    name: Seq<char>,
    added: Seq<u8>,
)
    requires
        model.is_formed(),
        model.entries.len() <= usize::MAX,
        before.len() as int % model.options.sector_size as int == 0,
        image_v1::v1_image_outcome(model, before.len() as int) is Ok,
        round_trip_v1::v1_file(model, before).len() <= isize::MAX,
        !read_back_v1::looks_like_locator(
            round_trip_v1::written_zip64_offset(model, before.len() as int) as u64,
        ),
        0 <= k < model.entries.len(),
        is_first_one(model.entries, k),
        was_named(model.entries[k], name),
    ensures
        archive.data == round_trip_v1::v1_file(model, before) && archive.is_read()
            ==> reads_back_v1(
            archive,
            model.entries[k],
            model.options.sector_size as int,
            name,
            added,
        ),
{
    if archive.data == round_trip_v1::v1_file(model, before) && archive.is_read() {
        lemma_opened_v1(model, before, archive);
        lemma_read_back_v1(model, before, archive, k, name, added);
    }
}

/// What is handed to a builder to make an entry of bytes.
pub struct AddedBytes {
    pub options: P4kWriterOptions,
    pub name: Seq<char>,
    pub data: Seq<u8>,
    pub method: CompressionMethod,
    pub encrypted: bool,
    pub metadata: MetadataModel,
}

impl AddedBytes {
    /// Whether this is what adding these bytes leaves in a builder.
    pub open spec fn became(self, staged: StagedModel) -> bool {
        &&& builder::bytes_outcome(
            self.options,
            self.name,
            self.data,
            self.method,
            self.encrypted,
            self.metadata,
        ) == Ok::<StagedModel, Fault>(staged)
        &&& staged.is_sound()
        &&& staged.decoded() == Ok::<Seq<u8>, Fault>(self.data)
    }

    /// Whether an entry of an archive says of itself what was added.
    pub open spec fn is_told(self, e: EntryModel) -> bool {
        &&& e.last_mod_file_time == self.metadata.last_mod_file_time
        &&& e.last_mod_file_date == self.metadata.last_mod_file_date
        &&& e.signature == self.metadata.signature
        &&& e.uncompressed_size == self.data.len() as u64
        &&& self.data.len() > 0 ==> {
            &&& e.compression_method == self.method
            &&& e.is_encrypted == self.encrypted
        }
    }

    /// Whether these bytes are found and read in a v2 archive.
    pub open spec fn comes_back_v2(self, archive: ArchiveModel) -> bool {
        let e = archive.directory.entries[archive.found_at(self.name, 0)->Some_0];
        &&& archive.found_at(self.name, 0) is Some
        &&& self.is_told(e)
        &&& archive.read(e) == Ok::<Seq<u8>, Fault>(self.data)
    }

    /// Whether these bytes are found and read in a v1 archive, unless what
    /// stands behind the header sector has the digest of the payload.
    pub open spec fn comes_back_v1(self, archive: ArchiveModel, model: BuilderModel, k: int) -> bool {
        let e = archive.directory.entries[archive.found_at(self.name, 0)->Some_0];
        let other = read_v1::behind_header(archive.data, e, model.options.sector_size as int);
        &&& archive.found_at(self.name, 0) is Some
        &&& self.is_told(e)
        &&& {
            ||| read_v1::digests_collide(model.entries[k].payload, other)
            ||| archive.read(e) == Ok::<Seq<u8>, Fault>(self.data)
        }
    }
}

/// Bytes that were added to a builder under a name, with a DOS timestamp and a
/// signature, are found under that name in the v2 archive that the builder
/// wrote: with the same timestamp and signature, and reading them gives them
/// back, real trailing zeroes included and no padding.
pub proof fn law_added_bytes_v2(
    model: BuilderModel,
    before: Seq<u8>,
    archive: ArchiveModel,
    k: int,
    added: AddedBytes,
)
    requires
        model.is_formed(),
        model.entries.len() <= usize::MAX,
        before.len() as int % model.options.sector_size as int == 0,
        image_v2::v2_image_outcome(model, before.len() as int) is Ok,
        round_trip_v2::v2_file(model, before).len() <= isize::MAX,
        0 <= k < model.entries.len(),
        is_first_one(model.entries, k),
    ensures
        added.became(model.entries[k]) && archive.data == round_trip_v2::v2_file(model, before)
            && archive.is_read() ==> added.comes_back_v2(archive),
{
    if added.became(model.entries[k]) && archive.data == round_trip_v2::v2_file(model, before)
        && archive.is_read() {
        law_added_then_read_v2(model, before, archive, k, added.name, added.data);
    }
}

/// Bytes that were added to a builder under a name, with a DOS timestamp and a
/// signature, are found under that name in the v1 archive that the builder
/// wrote: with the same timestamp and signature, and reading them gives them
/// back, real trailing zeroes included and no padding.
///
/// What is left out is what opening and reading a v1 archive leave out.
pub proof fn law_added_bytes_v1(
    model: BuilderModel,
    before: Seq<u8>,
    archive: ArchiveModel,
    k: int,
    added: AddedBytes,
)
    requires
        model.is_formed(),
        model.entries.len() <= usize::MAX,
        before.len() as int % model.options.sector_size as int == 0,
        image_v1::v1_image_outcome(model, before.len() as int) is Ok,
        round_trip_v1::v1_file(model, before).len() <= isize::MAX,
        !read_back_v1::looks_like_locator(
            round_trip_v1::written_zip64_offset(model, before.len() as int) as u64,
        ),
        0 <= k < model.entries.len(),
        is_first_one(model.entries, k),
    ensures
        added.became(model.entries[k]) && archive.data == round_trip_v1::v1_file(model, before)
            && archive.is_read() ==> added.comes_back_v1(archive, model, k),
{
    if added.became(model.entries[k]) && archive.data == round_trip_v1::v1_file(model, before)
        && archive.is_read() {
        law_added_then_read_v1(model, before, archive, k, added.name, added.data);
    }
}

/// Bytes that were added to a builder, encrypted or not, come back through the
/// legacy form of the entry that is found under their name in the v2 archive
/// that the builder wrote.
pub proof fn law_added_bytes_in_legacy_form(
    model: BuilderModel,
    before: Seq<u8>,
    archive: ArchiveModel,
    k: int,
    added: AddedBytes,
)
    requires
        model.is_formed(),
        model.entries.len() <= usize::MAX,
        before.len() as int % model.options.sector_size as int == 0,
        image_v2::v2_image_outcome(model, before.len() as int) is Ok,
        round_trip_v2::v2_file(model, before).len() <= isize::MAX,
        0 <= k < model.entries.len(),
        is_first_one(model.entries, k),
    ensures
        added.became(model.entries[k]) && archive.data == round_trip_v2::v2_file(model, before)
            && archive.is_read() ==> {
            let at = archive.found_at(added.name, 0);
            let legacy = reader::legacy_entry(archive.directory.entries[at->Some_0]);
            &&& at is Some
            &&& legacy.uncompressed_size == added.data.len()
            &&& added.data.len() > 0 ==> legacy.is_encrypted == added.encrypted
            &&& archive.read(reader::entry_of_legacy(legacy)) == Ok::<Seq<u8>, Fault>(added.data)
        },
{
    if added.became(model.entries[k]) && archive.data == round_trip_v2::v2_file(model, before)
        && archive.is_read() {
        let at = archive.found_at(added.name, 0);
        law_added_bytes_v2(model, before, archive, k, added);
        round_trip_v2::law_v2_write_then_open(model, before);
        reader_laws::law_legacy_form(archive, archive.directory.entries[at->Some_0]);
    }
}

} // verus!
