//! When an archive is written, and in what order.
use vstd::prelude::*;
use vstd::utf8::*;

use crate::align;
use crate::archive::model::EntryModel;
use crate::order;
use crate::path;
use crate::writer::adding;
use crate::writer::builder::BuilderModel;
use crate::writer::directory_v1;
use crate::writer::fresh;
use crate::writer::image_v1;
use crate::writer::image_v2;
use crate::writer::options;
use crate::writer::read_back_v1;
use crate::writer::round_trip_v1;
use crate::writer::round_trip_v2;
use crate::writer::staged::StagedModel;
use crate::writer::tail;

verus! {

/// Every position below `count` is listed once.
pub open spec fn is_rearrangement(places: Seq<usize>, count: nat) -> bool {
    &&& places.len() == count
    &&& forall|a: int| 0 <= a < places.len() ==> #[trigger] places[a] < count
    &&& forall|a: int, b: int|
        0 <= a < b < places.len() ==> #[trigger] places[a] != #[trigger] places[b]
    &&& forall|i: usize| 0 <= i < count ==> #[trigger] places.contains(i)
}

/// The longer payload stands first; of equally long ones that whose name, in lower
/// case, is less; and of equal names that which was added first.
pub open spec fn stands_before(entries: Seq<StagedModel>, i: int, j: int) -> bool {
    let a = path::normalized(encode_utf8(entries[i].name), true);
    let b = path::normalized(encode_utf8(entries[j].name), true);
    ||| entries[i].payload.len() > entries[j].payload.len()
    ||| entries[i].payload.len() == entries[j].payload.len() && (order::bytes_below(a, b) || (a == b
        && i < j))
}

/// The records say what was staged, in the order of writing, and that all of it was
/// written. `places` says which entry each is of.
pub open spec fn are_records_of(
    records: Seq<EntryModel>,
    entries: Seq<StagedModel>,
    places: Seq<usize>,
) -> bool {
    &&& records.len() == entries.len()
    &&& is_rearrangement(places, entries.len())
    &&& forall|a: int|
        0 <= a < records.len() ==> adding::keeps_staged(
            #[trigger] records[a],
            entries[places[a] as int],
        ) && records[a].bytes_already_written == entries[places[a] as int].payload.len()
    &&& forall|a: int, b: int|
        0 <= a < b < places.len() ==> stands_before(
            entries,
            #[trigger] places[a] as int,
            #[trigger] places[b] as int,
        )
}

proof fn lemma_places(entries: Seq<StagedModel>)
    requires
        entries.len() <= usize::MAX,
    ensures
        is_rearrangement(fresh::fresh_order_of(entries), entries.len()),
        forall|a: int, b: int|
            0 <= a < b < entries.len() ==> stands_before(
                entries,
                #[trigger] fresh::fresh_order_of(entries)[a] as int,
                #[trigger] fresh::fresh_order_of(entries)[b] as int,
            ),
{
    let sorted = fresh::fresh_order_of(entries);
    fresh::law_fresh_order_exists(entries);
    assert(fresh::is_fresh_order(entries, sorted));
    assert forall|a: int, b: int| 0 <= a < b < sorted.len() implies #[trigger] sorted[a]
        != #[trigger] sorted[b] && stands_before(entries, sorted[a] as int, sorted[b] as int) by {
        assert(fresh::fresh_precedes(entries, sorted[a] as int, sorted[b] as int));
        let x = path::name_key(entries[sorted[a] as int].name);
        let y = path::name_key(entries[sorted[b] as int].name);
        order::lemma_bytes_below_order(x, y);
        order::lemma_bytes_below_order(y, x);
        order::lemma_bytes_below_total(x, y);
    }
}

/// A payload that is not empty starts on the first sector boundary behind the payload
/// of the record before.
pub open spec fn follows_payload(records: Seq<EntryModel>, sector: u64, a: int) -> bool {
    let behind = records[a - 1].local_header_offset + records[a - 1].compressed_size;
    records[a].compressed_size > 0 ==> {
        &&& behind <= records[a].local_header_offset < behind + sector
        &&& records[a].local_header_offset % sector == 0
    }
}

/// A local record starts on the first sector boundary behind the local record and the
/// payload before.
pub open spec fn follows_record(records: Seq<EntryModel>, sector: u64, a: int) -> bool {
    let length = encode_utf8(records[a - 1].name).len();
    let behind = records[a - 1].local_header_offset + align::aligned_up(
        length + sector + 61,
        sector as int,
    ) + records[a - 1].compressed_size;
    &&& behind <= records[a].local_header_offset < behind + sector
    &&& records[a].local_header_offset % sector == 0
}

/// A v2 archive holds a record of every staged entry, once, in the order of writing.
/// The payloads stand one behind the other, each on the first sector boundary behind
/// the one before, and the first where writing began.
pub proof fn law_v2_records(model: BuilderModel, start: int)
    requires
        model.entries.len() <= usize::MAX,
        0 <= start,
        options::options_fault(model.options) is None,
        image_v2::payload_fault(
            fresh::fresh_entries(model.entries),
            start,
            model.options.sector_size,
            model.entries.len() as int,
        ) is None,
        forall|i: int|
            0 <= i < model.entries.len() ==> (#[trigger] model.entries[i]).payload.len()
                <= u64::MAX,
    ensures
        ({
            let records = round_trip_v2::written_v2_entries(model, start);
            let sector = model.options.sector_size;
            &&& are_records_of(records, model.entries, fresh::fresh_order_of(model.entries))
            &&& forall|a: int|
                0 <= a < records.len() && (#[trigger] records[a]).compressed_size == 0
                    ==> records[a].local_header_offset == 0
            &&& records.len() > 0 && records[0].compressed_size > 0
                ==> records[0].local_header_offset == start
            &&& forall|a: int|
                0 < a < records.len() ==> #[trigger] follows_payload(records, sector, a)
        }),
{
    let staged = fresh::fresh_entries(model.entries);
    let records = round_trip_v2::written_v2_entries(model, start);
    let sector = model.options.sector_size as int;
    let sorted = fresh::fresh_order_of(model.entries);
    let n = model.entries.len() as int;
    lemma_places(model.entries);
    assert forall|a: int| 0 <= a < n implies adding::keeps_staged(
        #[trigger] records[a],
        model.entries[sorted[a] as int],
    ) && records[a].bytes_already_written == model.entries[sorted[a] as int].payload.len() by {
        assert(sorted[a] < model.entries.len());
        assert(staged[a] == model.entries[sorted[a] as int]);
    }
    assert forall|a: int| 0 < a < n implies #[trigger] follows_payload(
        records,
        model.options.sector_size,
        a,
    ) by {
        lemma_next_payload(model, start, a);
    }
    if n > 0 {
        assert(sorted[0] < model.entries.len());
        lemma_places_fit(staged, start, model.options.sector_size, 0, n);
    }
}

proof fn lemma_next_payload(model: BuilderModel, start: int, a: int)
    requires
        model.entries.len() <= usize::MAX,
        0 <= start,
        options::options_fault(model.options) is None,
        image_v2::payload_fault(
            fresh::fresh_entries(model.entries),
            start,
            model.options.sector_size,
            model.entries.len() as int,
        ) is None,
        forall|i: int|
            0 <= i < model.entries.len() ==> (#[trigger] model.entries[i]).payload.len()
                <= u64::MAX,
        0 < a < model.entries.len(),
    ensures
        follows_payload(
            round_trip_v2::written_v2_entries(model, start),
            model.options.sector_size,
            a,
        ),
{
    let staged = fresh::fresh_entries(model.entries);
    let sector = model.options.sector_size as int;
    let sorted = fresh::fresh_order_of(model.entries);
    let n = model.entries.len() as int;
    lemma_places(model.entries);
    assert(sorted[a] < model.entries.len() && sorted[a - 1] < model.entries.len());
    assert(stands_before(model.entries, sorted[a - 1] as int, sorted[a] as int));
    assert(staged[a] == model.entries[sorted[a] as int]);
    assert(staged[a - 1] == model.entries[sorted[a - 1] as int]);
    lemma_places_fit(staged, start, model.options.sector_size, a, n);
    lemma_places_fit(staged, start, model.options.sector_size, a - 1, n);
    align::lemma_aligned_up(
        image_v2::payload_at(staged, start, sector, a - 1) + staged[a - 1].payload.len(),
        sector,
    );
}

proof fn lemma_places_fit(entries: Seq<StagedModel>, start: int, sector: u64, k: int, n: int)
    requires
        0 < sector,
        0 <= start,
        0 <= k < n <= entries.len(),
        image_v2::payload_fault(entries, start, sector, n) is None,
    ensures
        0 <= image_v2::payload_at(entries, start, sector as int, k) <= u64::MAX,
    decreases n,
{
    lemma_place_above(entries, start, sector as int, k);
    if k < n - 1 {
        lemma_places_fit(entries, start, sector, k, n - 1);
    }
}

proof fn lemma_place_above(entries: Seq<StagedModel>, start: int, sector: int, k: int)
    requires
        0 < sector,
        0 <= start,
    ensures
        start <= image_v2::payload_at(entries, start, sector, k),
    decreases k,
{
    if k > 0 {
        lemma_place_above(entries, start, sector, k - 1);
        align::lemma_aligned_up(
            image_v2::payload_at(entries, start, sector, k - 1) + entries[k - 1].payload.len(),
            sector,
        );
    }
}

/// A v1 archive that is written holds a record of every staged entry, once, in the
/// order of writing. The local records stand one behind the other, each on the first
/// sector boundary behind the payload before, and the first where writing began; a
/// payload stands behind its record, which takes the name, a sector and 61 bytes, up
/// to the next sector.
pub proof fn law_v1_records(model: BuilderModel, start: int)
    requires
        model.entries.len() <= usize::MAX,
        0 <= start,
        image_v1::v1_image_outcome(model, start) is Ok,
    ensures
        ({
            let records = round_trip_v1::written_v1_entries(model, start);
            let sector = model.options.sector_size;
            &&& are_records_of(records, model.entries, fresh::fresh_order_of(model.entries))
            &&& records.len() > 0 ==> records[0].local_header_offset == start
            &&& forall|a: int|
                0 < a < records.len() ==> #[trigger] follows_record(records, sector, a)
        }),
{
    let staged = fresh::fresh_entries(model.entries);
    let records = round_trip_v1::written_v1_entries(model, start);
    let sector = model.options.sector_size;
    let sorted = fresh::fresh_order_of(model.entries);
    let n = model.entries.len() as int;
    lemma_places(model.entries);
    assert forall|a: int| 0 <= a < n implies adding::keeps_staged(
        #[trigger] records[a],
        model.entries[sorted[a] as int],
    ) && records[a].bytes_already_written == model.entries[sorted[a] as int].payload.len() by {
        assert(sorted[a] < model.entries.len());
        assert(staged[a] == model.entries[sorted[a] as int]);
        image_v1::lemma_body_good(staged, start, sector, a, n);
        lemma_record_above(staged, start, sector, a);
        align::lemma_aligned_up(image_v1::name_len(staged[a]) + sector + 0x3D, sector as int);
    }
    assert forall|a: int| 0 < a < n implies #[trigger] follows_record(records, sector, a) by {
        lemma_next_record(model, start, a);
    }
    if n > 0 {
        image_v1::lemma_body_good(staged, start, sector, 0, n);
        align::lemma_aligned_up(image_v1::name_len(staged[0]) + sector + 0x3D, sector as int);
    }
}

proof fn lemma_next_record(model: BuilderModel, start: int, a: int)
    requires
        model.entries.len() <= usize::MAX,
        0 <= start,
        image_v1::v1_image_outcome(model, start) is Ok,
        0 < a < model.entries.len(),
    ensures
        follows_record(
            round_trip_v1::written_v1_entries(model, start),
            model.options.sector_size,
            a,
        ),
{
    let staged = fresh::fresh_entries(model.entries);
    let sector = model.options.sector_size;
    let n = model.entries.len() as int;
    image_v1::lemma_body_good(staged, start, sector, a, n);
    image_v1::lemma_body_good(staged, start, sector, a - 1, n);
    lemma_record_above(staged, start, sector, a);
    lemma_record_above(staged, start, sector, a - 1);
    let e = staged[a - 1];
    align::lemma_aligned_up(image_v1::name_len(e) + sector + 0x3D, sector as int);
    align::lemma_aligned_up(image_v1::name_len(staged[a]) + sector + 0x3D, sector as int);
    align::lemma_aligned_up(
        image_v1::record_at(staged, start, sector as int, a - 1) + image_v1::record_len(
            e,
            sector as int,
        ) + e.payload.len(),
        sector as int,
    );
}

pub proof fn lemma_record_above(entries: Seq<StagedModel>, start: int, sector: u64, k: int)
    requires
        0 < sector,
        0 <= start,
    ensures
        start <= image_v1::record_at(entries, start, sector as int, k),
    decreases k,
{
    if k > 0 {
        let e = entries[k - 1];
        lemma_record_above(entries, start, sector, k - 1);
        align::lemma_aligned_up(image_v1::name_len(e) + sector + 0x3D, sector as int);
        align::lemma_aligned_up(
            image_v1::record_at(entries, start, sector as int, k - 1) + image_v1::record_len(
                e,
                sector as int,
            ) + e.payload.len(),
            sector as int,
        );
    }
}

/// No payload with its name takes more than `most` bytes.
pub open spec fn takes_at_most(entries: Seq<StagedModel>, most: int) -> bool {
    forall|i: int|
        0 <= i < entries.len() ==> (#[trigger] entries[i]).payload.len() + encode_utf8(
            entries[i].name,
        ).len() <= most
}

proof fn lemma_fresh_takes(entries: Seq<StagedModel>, most: int)
    requires
        entries.len() <= usize::MAX,
        takes_at_most(entries, most),
    ensures
        takes_at_most(fresh::fresh_entries(entries), most),
{
    let staged = fresh::fresh_entries(entries);
    let sorted = fresh::fresh_order_of(entries);
    fresh::law_fresh_order_exists(entries);
    assert forall|i: int| 0 <= i < staged.len() implies (#[trigger] staged[i]).payload.len()
        + encode_utf8(staged[i].name).len() <= most by {
        assert(sorted[i] < entries.len());
        assert(entries[sorted[i] as int].payload.len() + encode_utf8(
            entries[sorted[i] as int].name,
        ).len() <= most);
    }
}

proof fn lemma_room(n: int, one: int, k: int)
    requires
        0 <= k <= n,
        0 <= one,
    ensures
        0 <= k * one <= n * one,
        k > 0 ==> k * one == (k - 1) * one + one,
{
    assert(k * one <= n * one) by (nonlinear_arith)
        requires
            0 <= k <= n,
            0 <= one,
    ;
    assert(0 <= k * one) by (nonlinear_arith)
        requires
            0 <= k,
            0 <= one,
    ;
    assert(k * one == (k - 1) * one + one) by (nonlinear_arith);
}

proof fn lemma_payloads_fit(
    entries: Seq<StagedModel>,
    start: int,
    sector: u64,
    most: int,
    k: int,
)
    requires
        0 < sector,
        0 <= start,
        0 <= most,
        0 <= k <= entries.len(),
        takes_at_most(entries, most),
        start + entries.len() * (most + sector) + sector <= u64::MAX,
    ensures
        image_v2::payload_at(entries, start, sector as int, k) <= start + k * (most + sector),
        image_v2::payload_fault(entries, start, sector, k) is None,
    decreases k,
{
    lemma_room(entries.len() as int, most + sector, k);
    if k > 0 {
        let e = entries[k - 1];
        lemma_payloads_fit(entries, start, sector, most, k - 1);
        lemma_place_above(entries, start, sector as int, k - 1);
        align::lemma_aligned_up(
            image_v2::payload_at(entries, start, sector as int, k - 1) + e.payload.len(),
            sector as int,
        );
    }
}

proof fn lemma_names_fit(entries: Seq<EntryModel>, most: int, k: int)
    requires
        0 <= k <= entries.len(),
        0 <= most,
        forall|i: int|
            0 <= i < entries.len() ==> encode_utf8((#[trigger] entries[i]).name).len() <= most,
    ensures
        0 <= tail::names_length(entries, k) <= k * (most + 1),
    decreases k,
{
    lemma_room(entries.len() as int, most + 1, k);
    if k > 0 {
        lemma_names_fit(entries, most, k - 1);
        assert(encode_utf8(entries[k - 1].name).len() <= most);
    }
}

/// Where the directory of a v2 archive fits, its place is found.
pub proof fn lemma_plan_found(
    entries: Seq<EntryModel>,
    free: int,
    end: u64,
    sector: u64,
    align_end: bool,
    most: int,
)
    requires
        0 < sector,
        0 <= most,
        0 <= free,
        204 * entries.len() <= usize::MAX,
        forall|i: int|
            0 <= i < entries.len() ==> encode_utf8((#[trigger] entries[i]).name).len() <= most,
        end + entries.len() * (most + 1) + 216 * entries.len() + 16 * free + 4 * sector + 0x1_1000
            <= u64::MAX,
    ensures
        tail::plan_outcome(end, entries, free, end, sector, align_end) is Ok,
{
    let n = entries.len() as int;
    let used = tail::install_used(n, free);
    lemma_names_fit(entries, most, n);
    lemma_room(n, most + 1, n);
    align::lemma_aligned_up(end as int, sector as int);
    align::lemma_aligned_up(used, sector as int);
    let at = if align_end {
        align::aligned_up(end as int, sector as int)
    } else {
        end as int
    };
    let behind = at + align::aligned_up(used, sector as int);
    align::lemma_aligned_up(behind, 0x1_0000);
    let eof = 204 * n + tail::names_length(entries, n) + tail::cache_length(n) + 175;
    align::lemma_aligned_up(eof, sector as int);
    let cdr = align::aligned_up(behind, 0x1_0000);
    assert(tail::trailing_outcome(entries, at as u64, cdr as u64, sector) is Ok);
    assert(tail::directory_outcome(entries, free, at as u64, sector) is Ok);
}

/// A v2 archive is written of whatever was staged, where the sector size is a power of
/// two and the numbers in it can hold its size.
pub proof fn law_v2_is_written(model: BuilderModel, start: int, most: int)
    requires
        align::is_pow2(model.options.sector_size as nat),
        204 * model.entries.len() <= usize::MAX,
        0 <= start,
        0 <= most,
        takes_at_most(model.entries, most),
        start + model.entries.len() * (most + model.options.sector_size) + model.entries.len() * (
        most + 1) + 216 * model.entries.len() + 5 * model.options.sector_size + 0x1_1000
            <= u64::MAX,
    ensures
        image_v2::v2_image_outcome(model, start) is Ok,
{
    let staged = fresh::fresh_entries(model.entries);
    let sector = model.options.sector_size;
    let n = staged.len() as int;
    lemma_fresh_takes(model.entries, most);
    lemma_room(n, most + sector, n);
    lemma_room(n, most + 1, n);
    lemma_payloads_fit(staged, start, sector, most, n);
    lemma_place_above(staged, start, sector as int, n);
    let end = image_v2::payload_at(staged, start, sector as int, n) as u64;
    let records = image_v2::v2_entries(staged, start, sector as int);
    assert forall|i: int| 0 <= i < records.len() implies encode_utf8(
        (#[trigger] records[i]).name,
    ).len() <= most by {
        assert(staged[i].payload.len() + encode_utf8(staged[i].name).len() <= most);
    }
    lemma_plan_found(records, 0, end, sector, true, most);
}

/// Options with another sector size write nothing.
pub proof fn law_v2_sector_size(model: BuilderModel, start: int)
    requires
        !align::is_pow2(model.options.sector_size as nat),
    ensures
        image_v2::v2_image_outcome(model, start) is Err,
        image_v1::v1_image_outcome(model, start) is Err,
{
}

/// The name of each entry fits in a sector with the local header and its fields.
pub open spec fn fits_sector(e: StagedModel, sector: u64) -> bool {
    encode_utf8(e.name).len() + 66 <= sector
}

/// A v1 archive is written of what was staged, where the sector size is a power of two
/// below 65536, every name fits in a sector with the local header and its fields, and
/// the numbers in it can hold its size; of nothing else is one written.
pub proof fn law_v1_is_written(model: BuilderModel, start: int, most: int)
    requires
        model.entries.len() <= usize::MAX,
        model.is_formed(),
        0 <= start,
        0 <= most,
        takes_at_most(model.entries, most),
        start + model.entries.len() * (most + 3 * model.options.sector_size + 61)
            + model.entries.len() * (most + 264) + 2 * model.options.sector_size + 0x1000
            <= u64::MAX,
    ensures
        image_v1::v1_image_outcome(model, start) is Ok <==> {
            let sector = model.options.sector_size;
            &&& align::is_pow2(sector as nat)
            &&& sector <= 0xFFFF
            &&& model.entries.len() <= 0xFFFF_FFFF
            &&& forall|i: int|
                0 <= i < model.entries.len() ==> fits_sector(#[trigger] model.entries[i], sector)
        },
{
    let staged = fresh::fresh_entries(model.entries);
    let sector = model.options.sector_size;
    let sorted = fresh::fresh_order_of(model.entries);
    let n = staged.len() as int;
    fresh::law_fresh_order_exists(model.entries);
    lemma_fresh_takes(model.entries, most);
    if align::is_pow2(sector as nat) && sector <= 0xFFFF && n <= 0xFFFF_FFFF {
        if forall|i: int|
            0 <= i < model.entries.len() ==> fits_sector(#[trigger] model.entries[i], sector) {
            assert forall|i: int| 0 <= i < n implies fits_sector(#[trigger] staged[i], sector) by {
                assert(sorted[i] < model.entries.len());
                assert(fits_sector(model.entries[sorted[i] as int], sector));
            }
            lemma_body_fits(staged, start, sector, most, n);
            lemma_record_above(staged, start, sector, n);
            round_trip_v1::lemma_progress_length(staged, n);
            assert forall|i: int| 0 <= i < n implies (#[trigger] staged[i]).is_formed() by {
                assert(sorted[i] < model.entries.len());
                assert(model.entries[sorted[i] as int].is_formed());
            }
            lemma_central_fits(staged, start, sector, most, n);
            let plan = image_v1::v1_plan(staged, start, sector as int);
            read_back_v1::lemma_trailer_length(
                n,
                plan.cdr_size,
                plan.cdr_offset,
                sector as u16,
            );
            lemma_room(n, most + 3 * sector + 61, n);
            lemma_room(n, most + 264, n);
            lemma_split(n, most);
            align::lemma_aligned_up(plan.content_size, sector as int);
        }
        if image_v1::v1_image_outcome(model, start) is Ok {
            assert forall|i: int| 0 <= i < n implies fits_sector(
                #[trigger] model.entries[i],
                sector,
            ) by {
                assert(sorted.contains(i as usize));
                let a = choose|a: int| 0 <= a < sorted.len() && sorted[a] == i as usize;
                assert(staged[a] == model.entries[i]);
                image_v1::lemma_body_good(staged, start, sector, a, n);
            }
        }
    }
}

proof fn lemma_split(n: int, most: int)
    ensures
        n * (most + 264) == n * (most + 252) + 12 * n,
{
    assert(n * (most + 264) == n * (most + 252) + 12 * n) by (nonlinear_arith);
}

proof fn lemma_body_fits(entries: Seq<StagedModel>, start: int, sector: u64, most: int, k: int)
    requires
        0 < sector <= 0xFFFF,
        0 <= start,
        0 <= most,
        0 <= k <= entries.len(),
        takes_at_most(entries, most),
        forall|i: int| 0 <= i < entries.len() ==> fits_sector(#[trigger] entries[i], sector),
        start + entries.len() * (most + 3 * sector + 61) + 2 * sector <= u64::MAX,
    ensures
        image_v1::record_at(entries, start, sector as int, k) <= start + k * (most + 3 * sector
            + 61),
        image_v1::body_fault(entries, start, sector, k) is None,
    decreases k,
{
    lemma_room(entries.len() as int, most + 3 * sector + 61, k);
    if k > 0 {
        let e = entries[k - 1];
        lemma_body_fits(entries, start, sector, most, k - 1);
        lemma_record_above(entries, start, sector, k - 1);
        assert(fits_sector(e, sector));
        align::lemma_aligned_up(image_v1::name_len(e) + sector + 0x3D, sector as int);
        align::lemma_aligned_up(
            image_v1::record_at(entries, start, sector as int, k - 1) + image_v1::record_len(
                e,
                sector as int,
            ) + e.payload.len(),
            sector as int,
        );
        assert(image_v1::record_fault(e, sector) is None);
    }
}

proof fn lemma_central_fits(entries: Seq<StagedModel>, start: int, sector: u64, most: int, k: int)
    requires
        0 <= k <= entries.len(),
        0 <= most,
        takes_at_most(entries, most),
        forall|i: int| 0 <= i < entries.len() ==> (#[trigger] entries[i]).is_formed(),
    ensures
        image_v1::central_bytes(entries, start, sector as int, k).len() <= k * (most + 252),
    decreases k,
{
    lemma_room(entries.len() as int, most + 252, k);
    if k > 0 {
        lemma_central_fits(entries, start, sector, most, k - 1);
        assert(entries[k - 1].is_formed());
        directory_v1::lemma_central_record_length(
            entries[k - 1],
            image_v1::record_at(entries, start, sector as int, k - 1),
        );
    }
}

/// The payloads of a v1 archive end on the first sector boundary behind the last of
/// them, and where writing began if there is none.
pub proof fn law_v1_payload_end(model: BuilderModel, start: int)
    requires
        model.entries.len() <= usize::MAX,
        0 <= start <= u64::MAX,
        image_v1::v1_image_outcome(model, start) is Ok,
    ensures
        ({
            let records = round_trip_v1::written_v1_entries(model, start);
            let sector = model.options.sector_size;
            let end = image_v1::v1_image_outcome(model, start)->Ok_0.1.payload_end;
            let last = records.last();
            let behind = last.local_header_offset + align::aligned_up(
                encode_utf8(last.name).len() + sector + 61,
                sector as int,
            ) + last.compressed_size;
            &&& model.entries.len() == 0 ==> end == start
            &&& model.entries.len() > 0 ==> behind <= end < behind + sector && end % sector == 0
        }),
{
    let staged = fresh::fresh_entries(model.entries);
    let sector = model.options.sector_size;
    let n = model.entries.len() as int;
    if n > 0 {
        let e = staged[n - 1];
        image_v1::lemma_body_good(staged, start, sector, n - 1, n);
        lemma_record_above(staged, start, sector, n - 1);
        align::lemma_aligned_up(image_v1::name_len(e) + sector + 0x3D, sector as int);
        align::lemma_aligned_up(
            image_v1::record_at(staged, start, sector as int, n - 1) + image_v1::record_len(
                e,
                sector as int,
            ) + e.payload.len(),
            sector as int,
        );
    }
}

/// The payloads of a v2 archive end on the first sector boundary behind the last of
/// them, where that is not empty, and where writing began if there is none.
pub proof fn law_v2_payload_end(model: BuilderModel, start: int)
    requires
        model.entries.len() <= usize::MAX,
        0 <= start <= u64::MAX,
        start % model.options.sector_size as int == 0,
        image_v2::v2_image_outcome(model, start) is Ok,
    ensures
        ({
            let records = round_trip_v2::written_v2_entries(model, start);
            let sector = model.options.sector_size;
            let end = image_v2::v2_image_outcome(model, start)->Ok_0.1.payload_end;
            let last = records.last();
            let behind = last.local_header_offset + last.compressed_size;
            &&& model.entries.len() == 0 ==> end == start
            &&& model.entries.len() > 0 && last.compressed_size > 0 ==> behind <= end < behind
                + sector && end % sector == 0
        }),
{
    let staged = fresh::fresh_entries(model.entries);
    let sector = model.options.sector_size;
    let n = model.entries.len() as int;
    let end = image_v2::payload_at(staged, start, sector as int, n);
    let records = image_v2::v2_entries(staged, start, sector as int);
    if n > 0 {
        let e = staged[n - 1];
        lemma_places_fit(staged, start, sector, n - 1, n);
        align::lemma_aligned_up(
            image_v2::payload_at(staged, start, sector as int, n - 1) + e.payload.len(),
            sector as int,
        );
    }
    align::lemma_aligned_up(end, sector as int);
    tail::lemma_plan_fits(end as u64, records, 0, end as u64, sector, true);
}


} // verus!
