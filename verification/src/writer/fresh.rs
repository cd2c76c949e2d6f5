//! The order in which a new archive holds its entries.

use vstd::prelude::*;
use vstd::seq::*;
use vstd::seq_lib::*;
use vstd::slice::*;

use crate::bytes::same_bytes;
use crate::order;
use crate::order::{sort_positions, sort_texts, Ordered, SortKey, TextKey};
use crate::path;
use crate::path::filename_handle_bytes;
use crate::writer::builder::P4kBuilder;
use crate::writer::staged;
use crate::writer::staged::{BuilderEntry, StagedModel};

verus! {

/// The keys under which the names of entries are looked up.
pub open spec fn name_keys(entries: Seq<StagedModel>) -> Seq<Seq<u8>> {
    Seq::new(entries.len(), |i: int| path::name_key(entries[i].name))
}

/// How many different texts stand before the `k`th text in order.
pub open spec fn rank_at(texts: Seq<Seq<u8>>, sorted: Seq<usize>, k: int) -> nat
    decreases k,
{
    if k <= 0 {
        0
    } else if texts[sorted[k] as int] != texts[sorted[k - 1] as int] {
        rank_at(texts, sorted, k - 1) + 1
    } else {
        rank_at(texts, sorted, k - 1)
    }
}

/// Whether every text has its rank among the different texts as its handle.
pub open spec fn are_handles(texts: Seq<Seq<u8>>, handles: Seq<usize>) -> bool {
    let sorted = order::text_order_of(texts);
    &&& handles.len() == texts.len()
    &&& forall|k: int|
        0 <= k < sorted.len() ==> handles[#[trigger] sorted[k] as int] == rank_at(texts, sorted, k)
}

proof fn lemma_rank_bound(texts: Seq<Seq<u8>>, sorted: Seq<usize>, k: int)
    requires
        0 <= k,
    ensures
        rank_at(texts, sorted, k) <= k,
    decreases k,
{
    if k > 0 {
        lemma_rank_bound(texts, sorted, k - 1);
    }
}

proof fn lemma_rank(texts: Seq<Seq<u8>>, sorted: Seq<usize>, a: int, b: int)
    requires
        order::is_text_order(texts, sorted),
        0 <= a <= b < sorted.len(),
    ensures
        rank_at(texts, sorted, a) <= rank_at(texts, sorted, b),
        rank_at(texts, sorted, a) == rank_at(texts, sorted, b) <==> texts[sorted[a] as int]
            == texts[sorted[b] as int],
        texts[sorted[a] as int] != texts[sorted[b] as int] ==> order::bytes_below(
            texts[sorted[a] as int],
            texts[sorted[b] as int],
        ),
    decreases b,
{
    let ta = texts[sorted[a] as int];
    let tb = texts[sorted[b] as int];
    if a < b {
        let tc = texts[sorted[b - 1] as int];
        lemma_rank(texts, sorted, a, b - 1);
        assert(order::text_precedes(texts, sorted[a] as int, sorted[b] as int));
        assert(order::text_precedes(texts, sorted[b - 1] as int, sorted[b] as int));
        order::lemma_bytes_below_total(ta, tb);
        order::lemma_bytes_below_total(tc, tb);
        order::lemma_bytes_below_order(ta, tc);
        order::lemma_bytes_below_order(ta, tb);
        order::lemma_bytes_below_order(tc, tb);
    }
}

/// Handles stand in the order of the texts, and equal texts share one.
pub proof fn law_handles_follow_texts(texts: Seq<Seq<u8>>, handles: Seq<usize>, i: int, j: int)
    requires
        are_handles(texts, handles),
        0 <= i < texts.len(),
        0 <= j < texts.len(),
        texts.len() <= usize::MAX,
    ensures
        handles[i] == handles[j] <==> texts[i] == texts[j],
        handles[i] < handles[j] <==> order::bytes_below(texts[i], texts[j]),
{
    let sorted = order::text_order_of(texts);
    order::law_text_order_exists(texts);
    assert(sorted.contains(i as usize));
    assert(sorted.contains(j as usize));
    let a = choose|a: int| 0 <= a < sorted.len() && sorted[a] == i as usize;
    let b = choose|b: int| 0 <= b < sorted.len() && sorted[b] == j as usize;
    assert(handles[sorted[a] as int] == rank_at(texts, sorted, a));
    assert(handles[sorted[b] as int] == rank_at(texts, sorted, b));
    order::lemma_bytes_below_order(texts[i], texts[j]);
    order::lemma_bytes_below_order(texts[j], texts[i]);
    if a <= b {
        lemma_rank(texts, sorted, a, b);
    } else {
        lemma_rank(texts, sorted, b, a);
    }
}

proof fn lemma_rank_steps(texts: Seq<Seq<u8>>, sorted: Seq<usize>, k: int, rank: nat) -> (a: int)
    requires
        0 <= k,
        rank <= rank_at(texts, sorted, k),
    ensures
        0 <= a <= k,
        rank_at(texts, sorted, a) == rank,
    decreases k,
{
    if k == 0 || rank == rank_at(texts, sorted, k) {
        k
    } else {
        lemma_rank_steps(texts, sorted, k - 1, rank)
    }
}

/// Handles count from zero, and leave no number out.
pub proof fn law_handles_count_up(texts: Seq<Seq<u8>>, handles: Seq<usize>, i: int, handle: usize)
    requires
        are_handles(texts, handles),
        0 <= i < texts.len(),
        texts.len() <= usize::MAX,
        handle <= handles[i],
    ensures
        handles[i] < texts.len(),
        handles.contains(handle),
{
    let sorted = order::text_order_of(texts);
    order::law_text_order_exists(texts);
    assert(sorted.contains(i as usize));
    let k = choose|k: int| 0 <= k < sorted.len() && sorted[k] == i as usize;
    assert(handles[sorted[k] as int] == rank_at(texts, sorted, k));
    lemma_rank_bound(texts, sorted, k);
    let a = lemma_rank_steps(texts, sorted, k, handle as nat);
    assert(sorted[a] < texts.len());
    assert(handles[sorted[a] as int] == handle);
}

/// Whether entry `i` is written before entry `j`: the one with the longer
/// payload first, then by name, then as they were staged.
pub open spec fn fresh_precedes(entries: Seq<StagedModel>, i: int, j: int) -> bool {
    let a = path::name_key(entries[i].name);
    let b = path::name_key(entries[j].name);
    if entries[i].payload.len() != entries[j].payload.len() {
        entries[i].payload.len() > entries[j].payload.len()
    } else {
        order::bytes_below(a, b) || (!order::bytes_below(b, a) && i < j)
    }
}

/// Whether `sorted` lists every entry once, in the order of writing.
pub open spec fn is_fresh_order(entries: Seq<StagedModel>, sorted: Seq<usize>) -> bool {
    &&& sorted.len() == entries.len()
    &&& forall|a: int| 0 <= a < sorted.len() ==> #[trigger] sorted[a] < entries.len()
    &&& forall|a: int, b: int|
        0 <= a < b < sorted.len() ==> #[trigger] fresh_precedes(
            entries,
            sorted[a] as int,
            sorted[b] as int,
        )
    &&& forall|i: usize| 0 <= i < entries.len() ==> #[trigger] sorted.contains(i)
}

/// The entries in the order of writing.
pub open spec fn fresh_order_of(entries: Seq<StagedModel>) -> Seq<usize> {
    choose|sorted: Seq<usize>| is_fresh_order(entries, sorted)
}

/// The entries as a new archive holds them.
pub open spec fn fresh_entries(entries: Seq<StagedModel>) -> Seq<StagedModel> {
    let sorted = fresh_order_of(entries);
    Seq::new(entries.len(), |i: int| entries[sorted[i] as int])
}

/// By what entries are put in the order of writing.
pub struct FreshRank {
    pub size: int,
    pub name: Seq<u8>,
}

impl Ordered for FreshRank {
    open spec fn below(&self, other: &Self) -> bool {
        self.size > other.size || (self.size == other.size && order::bytes_below(
            self.name,
            other.name,
        ))
    }

    proof fn law_weak_order(a: &Self, b: &Self, c: &Self) {
        order::lemma_bytes_below(a.name, b.name, c.name);
    }
}

/// Every run of entries has an order of writing.
pub proof fn law_fresh_order_exists(entries: Seq<StagedModel>)
    requires
        entries.len() <= usize::MAX,
    ensures
        is_fresh_order(entries, fresh_order_of(entries)),
{
    let ranks = Seq::new(
        entries.len(),
        |i: int|
            FreshRank {
                size: entries[i].payload.len() as int,
                name: path::name_key(entries[i].name),
            },
    );
    order::law_order_exists(ranks);
    let sorted = order::order_of(ranks);
    assert forall|a: int, b: int| 0 <= a < b < sorted.len() implies #[trigger] fresh_precedes(
        entries,
        sorted[a] as int,
        sorted[b] as int,
    ) by {
        assert(sorted[a] < ranks.len() && sorted[b] < ranks.len());
        assert(order::precedes(ranks, sorted[a] as int, sorted[b] as int));
    }
    assert(is_fresh_order(entries, sorted));
}

struct FreshKey {
    size: usize,
    handle: usize,
}

impl Ordered for FreshKey {
    closed spec fn below(&self, other: &Self) -> bool {
        self.size > other.size || (self.size == other.size && self.handle < other.handle)
    }

    proof fn law_weak_order(a: &Self, b: &Self, c: &Self) {
    }
}

impl SortKey for FreshKey {
    fn is_below(&self, other: &Self) -> (r: bool) {
        self.size > other.size || (self.size == other.size && self.handle < other.handle)
    }
}

spec fn are_fresh_keys(entries: Seq<StagedModel>, keys: Seq<FreshKey>) -> bool {
    &&& keys.len() == entries.len()
    &&& forall|i: int|
        0 <= i < entries.len() ==> (#[trigger] keys[i]).size == entries[i].payload.len()
    &&& forall|i: int, j: int|
        #![trigger keys[i], keys[j]]
        0 <= i < entries.len() && 0 <= j < entries.len() ==> (keys[i].handle < keys[j].handle
            <==> order::bytes_below(
            path::name_key(entries[i].name),
            path::name_key(entries[j].name),
        ))
}

proof fn lemma_fresh_order(entries: Seq<StagedModel>, keys: Seq<FreshKey>, sorted: Seq<usize>)
    requires
        are_fresh_keys(entries, keys),
    ensures
        is_fresh_order(entries, sorted) <==> order::is_order(keys, sorted),
{
    assert forall|i: int, j: int|
        0 <= i < keys.len() && 0 <= j < keys.len() implies #[trigger] fresh_precedes(entries, i, j)
        == order::precedes(keys, i, j) by {
        assert(keys[i].size == entries[i].payload.len());
        assert(keys[j].size == entries[j].payload.len());
    }
    if is_fresh_order(entries, sorted) {
        assert forall|a: int, b: int| 0 <= a < b < sorted.len() implies #[trigger] order::precedes(
            keys,
            sorted[a] as int,
            sorted[b] as int,
        ) by {
            assert(sorted[a] < entries.len() && sorted[b] < entries.len());
            assert(fresh_precedes(entries, sorted[a] as int, sorted[b] as int));
        }
    }
    if order::is_order(keys, sorted) {
        assert forall|a: int, b: int| 0 <= a < b < sorted.len() implies #[trigger] fresh_precedes(
            entries,
            sorted[a] as int,
            sorted[b] as int,
        ) by {
            assert(sorted[a] < keys.len() && sorted[b] < keys.len());
            assert(order::precedes(keys, sorted[a] as int, sorted[b] as int));
        }
    }
}

impl P4kBuilder {
    /// The rank of each entry's name among the different names, in the order
    /// of their normalized small forms.
    pub fn fresh_filename_handles(&self) -> (handles: Vec<usize>)
        ensures
            are_handles(name_keys(self@.entries), handles@),
    {
        let entries: &Vec<BuilderEntry> = self.entries();
        let ghost models = self@.entries;
        let ghost texts = name_keys(models);
        let mut keys: Vec<TextKey> = Vec::new();
        let mut handles: Vec<usize> = Vec::new();
        let mut i: usize = 0;
        while i < entries.len()
            invariant
                i <= entries@.len(),
                models == staged::staged_models(entries@),
                keys@.len() == i,
                handles@.len() == i,
                forall|j: int|
                    0 <= j < i ==> (#[trigger] keys@[j]).bytes@ == path::name_key(models[j].name),
            decreases entries@.len() - i,
        {
            assert(models[i as int] == entries@[i as int]@);
            keys.push(TextKey { bytes: filename_handle_bytes(entries[i].name.as_str()) });
            handles.push(0);
            i += 1;
        }
        assert(order::texts_of(keys@) =~= texts);
        let sorted: Vec<usize> = sort_texts(keys.as_slice());
        let mut handle: usize = 0;
        let mut k: usize = 0;
        while k < sorted.len()
            invariant
                k <= sorted@.len(),
                keys@.len() == texts.len(),
                handles@.len() == texts.len(),
                texts == order::texts_of(keys@),
                sorted@ == order::text_order_of(texts),
                order::is_text_order(texts, sorted@),
                order::is_order(keys@, sorted@),
                handle == (if k == 0 {
                    0
                } else {
                    rank_at(texts, sorted@, k - 1)
                }),
                forall|a: int|
                    0 <= a < k ==> handles@[#[trigger] sorted@[a] as int] == rank_at(
                        texts,
                        sorted@,
                        a,
                    ),
            decreases sorted@.len() - k,
        {
            let here: usize = sorted[k];
            proof {
                assert(sorted@[k as int] < texts.len());
                assert(texts[here as int] == keys@[here as int].bytes@);
                lemma_rank_bound(texts, sorted@, k as int);
                if k > 0 {
                    assert(sorted@[k - 1] < texts.len());
                    assert(texts[sorted@[k - 1] as int] == keys@[sorted@[k - 1] as int].bytes@);
                }
            }
            if k > 0 && !same_bytes(
                keys[sorted[k - 1]].bytes.as_slice(),
                keys[here].bytes.as_slice(),
            ) {
                handle += 1;
            }
            let ghost before = handles@;
            handles.set(here, handle);
            proof {
                assert forall|a: int| 0 <= a <= k implies handles@[#[trigger] sorted@[a] as int]
                    == rank_at(texts, sorted@, a) by {
                    if a < k {
                        assert(order::precedes(keys@, sorted@[a] as int, sorted@[k as int] as int));
                        order::lemma_precedes(
                            keys@,
                            sorted@[k as int] as int,
                            sorted@[k as int] as int,
                            sorted@[k as int] as int,
                        );
                        assert(sorted@[a] < texts.len());
                    }
                }
            }
            k += 1;
        }
        handles
    }

    /// The positions of the entries in the order of writing.
    pub fn fresh_order(&self) -> (sorted: Vec<usize>)
        ensures
            sorted@ == fresh_order_of(self@.entries),
            is_fresh_order(self@.entries, sorted@),
    {
        let handles: Vec<usize> = self.fresh_filename_handles();
        let entries: &Vec<BuilderEntry> = self.entries();
        let ghost models = self@.entries;
        let ghost texts = name_keys(models);
        let mut keys: Vec<FreshKey> = Vec::new();
        let mut i: usize = 0;
        while i < entries.len()
            invariant
                i <= entries@.len(),
                models == staged::staged_models(entries@),
                handles@.len() == models.len(),
                keys@.len() == i,
                forall|j: int|
                    0 <= j < i ==> (#[trigger] keys@[j]).size == models[j].payload.len()
                        && keys@[j].handle == handles@[j],
            decreases entries@.len() - i,
        {
            assert(models[i as int] == entries@[i as int]@);
            keys.push(FreshKey { size: entries[i].payload.len(), handle: handles[i] });
            i += 1;
        }
        let sorted: Vec<usize> = sort_positions(keys.as_slice());
        proof {
            assert forall|i: int, j: int|
                #![trigger keys@[i], keys@[j]]
                0 <= i < models.len() && 0 <= j < models.len() implies (keys@[i].handle
                < keys@[j].handle <==> order::bytes_below(
                path::name_key(models[i].name),
                path::name_key(models[j].name),
            )) by {
                assert(texts[i] == path::name_key(models[i].name));
                assert(texts[j] == path::name_key(models[j].name));
                law_handles_follow_texts(texts, handles@, i, j);
            }
            lemma_fresh_order(models, keys@, sorted@);
            let chosen = fresh_order_of(models);
            assert(is_fresh_order(models, chosen));
            lemma_fresh_order(models, keys@, chosen);
            order::law_order_unique(keys@, sorted@, chosen);
        }
        sorted
    }

    /// The entries in the order of writing.
    pub fn entries_for_fresh_write(&self) -> (r: Vec<&BuilderEntry>)
        ensures
            r@.len() == self@.entries.len(),
            forall|i: int|
                0 <= i < r@.len() ==> (#[trigger] r@[i])@ == fresh_entries(self@.entries)[i],
    {
        let sorted: Vec<usize> = self.fresh_order();
        let entries: &Vec<BuilderEntry> = self.entries();
        let ghost models = self@.entries;
        let mut out: Vec<&BuilderEntry> = Vec::new();
        let mut i: usize = 0;
        while i < sorted.len()
            invariant
                i <= sorted@.len(),
                models == staged::staged_models(entries@),
                sorted@ == fresh_order_of(models),
                is_fresh_order(models, sorted@),
                out@.len() == i,
                forall|j: int|
                    0 <= j < i ==> (#[trigger] out@[j])@ == models[sorted@[j] as int],
            decreases sorted@.len() - i,
        {
            assert(sorted@[i as int] < models.len());
            let at: usize = sorted[i];
            assert(models[at as int] == entries@[at as int]@);
            out.push(&entries[at]);
            i += 1;
        }
        out
    }
}

} // verus!
