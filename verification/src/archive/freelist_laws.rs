//! What merging free ranges keeps.

use vstd::prelude::*;
use vstd::seq::*;
use vstd::seq_lib::*;

use crate::archive::freelist;
use crate::archive::model::P4kFreelistBlock;
use crate::order;

verus! {

/// What the ranges weigh together.
pub open spec fn summed(
    blocks: Seq<P4kFreelistBlock>,
    weight: spec_fn(P4kFreelistBlock) -> int,
) -> int
    decreases blocks.len(),
{
    if blocks.len() == 0 {
        0
    } else {
        summed(blocks.drop_last(), weight) + weight(blocks.last())
    }
}

/// How many of the ranges hold a byte.
pub open spec fn times_covered(blocks: Seq<P4kFreelistBlock>, x: int) -> int {
    summed(
        blocks,
        |b: P4kFreelistBlock|
            if b.offset <= x < b.offset + b.size {
                1int
            } else {
                0int
            },
    )
}

/// How many bytes the ranges hold together.
pub open spec fn total_size(blocks: Seq<P4kFreelistBlock>) -> int {
    summed(blocks, |b: P4kFreelistBlock| b.size as int)
}

/// Whether the ranges stand by offset, hold something, and none starts where
/// the one before it ends.
pub open spec fn is_merged(blocks: Seq<P4kFreelistBlock>) -> bool {
    &&& forall|i: int, j: int|
        0 <= i < j < blocks.len() ==> (#[trigger] blocks[i]).offset <= (#[trigger] blocks[j]).offset
    &&& forall|i: int| 0 <= i < blocks.len() ==> (#[trigger] blocks[i]).size != 0
    &&& forall|i: int|
        0 < i < blocks.len() ==> blocks[i - 1].offset + blocks[i - 1].size != (
        #[trigger] blocks[i]).offset
}

/// Whether a weight of a range is that of its parts.
spec fn is_additive(weight: spec_fn(P4kFreelistBlock) -> int) -> bool {
    &&& forall|b: P4kFreelistBlock| b.size == 0 ==> #[trigger] weight(b) == 0
    &&& forall|a: P4kFreelistBlock, b: P4kFreelistBlock, c: P4kFreelistBlock|
        #![trigger weight(a), weight(b), weight(c)]
        a.offset + a.size == b.offset && c.offset == a.offset && c.size == a.size + b.size
            ==> weight(c) == weight(a) + weight(b)
}

proof fn lemma_without(
    blocks: Seq<P4kFreelistBlock>,
    weight: spec_fn(P4kFreelistBlock) -> int,
    k: int,
)
    requires
        0 <= k < blocks.len(),
    ensures
        summed(blocks, weight) == summed(blocks.remove(k), weight) + weight(blocks[k]),
    decreases blocks.len(),
{
    if k < blocks.len() - 1 {
        lemma_without(blocks.drop_last(), weight, k);
        assert(blocks.remove(k).drop_last() =~= blocks.drop_last().remove(k));
        assert(blocks.remove(k).last() == blocks.last());
    } else {
        assert(blocks.remove(k) =~= blocks.drop_last());
    }
}

proof fn lemma_reordered(
    blocks: Seq<P4kFreelistBlock>,
    weight: spec_fn(P4kFreelistBlock) -> int,
    positions: Seq<usize>,
)
    requires
        positions.len() == blocks.len(),
        forall|a: int| 0 <= a < positions.len() ==> #[trigger] positions[a] < blocks.len(),
        forall|a: int, b: int|
            0 <= a < b < positions.len() ==> #[trigger] positions[a] != #[trigger] positions[b],
        forall|i: usize| 0 <= i < blocks.len() ==> #[trigger] positions.contains(i),
        blocks.len() <= usize::MAX,
    ensures
        summed(Seq::new(blocks.len(), |a: int| blocks[positions[a] as int]), weight) == summed(
            blocks,
            weight,
        ),
    decreases blocks.len(),
{
    let n = blocks.len() as int;
    let moved = Seq::new(blocks.len(), |a: int| blocks[positions[a] as int]);
    if n > 0 {
        assert(positions.contains((n - 1) as usize));
        let k = choose|k: int| 0 <= k < positions.len() && positions[k] == (n - 1) as usize;
        let left = positions.remove(k);
        let short = blocks.drop_last();
        assert forall|a: int| 0 <= a < left.len() implies #[trigger] left[a] < short.len() by {
            let b = if a < k {
                a
            } else {
                a + 1
            };
            assert(left[a] == positions[b]);
            assert(positions[b] < blocks.len() && positions[b] != positions[k]);
        }
        assert forall|a: int, b: int| 0 <= a < b < left.len() implies #[trigger] left[a]
            != #[trigger] left[b] by {
            let c = if a < k {
                a
            } else {
                a + 1
            };
            let d = if b < k {
                b
            } else {
                b + 1
            };
            assert(positions[c] != positions[d]);
        }
        assert forall|i: usize| 0 <= i < short.len() implies #[trigger] left.contains(i) by {
            assert(positions.contains(i));
            let b = choose|b: int| 0 <= b < positions.len() && positions[b] == i;
            let a = if b < k {
                b
            } else {
                b - 1
            };
            assert(left[a] == i);
        }
        lemma_reordered(short, weight, left);
        assert(moved.remove(k) =~= Seq::new(short.len(), |a: int| short[left[a] as int]));
        lemma_without(moved, weight, k);
    } else {
        assert(moved =~= blocks);
    }
}

proof fn lemma_sorted_sum(
    blocks: Seq<P4kFreelistBlock>,
    weight: spec_fn(P4kFreelistBlock) -> int,
)
    requires
        blocks.len() <= usize::MAX,
    ensures
        summed(freelist::sorted_blocks(blocks), weight) == summed(blocks, weight),
        forall|i: int, j: int|
            0 <= i < j < blocks.len() ==> (#[trigger] freelist::sorted_blocks(blocks)[i]).offset
                <= (#[trigger] freelist::sorted_blocks(blocks)[j]).offset,
        forall|i: int|
            0 <= i < blocks.len() ==> blocks.contains(
                #[trigger] freelist::sorted_blocks(blocks)[i],
            ),
{
    let offsets = freelist::block_offsets(blocks);
    let positions = order::order_of(offsets);
    let sorted = freelist::sorted_blocks(blocks);
    order::law_order_exists(offsets);
    assert forall|a: int, b: int| 0 <= a < b < positions.len() implies #[trigger] positions[a]
        != #[trigger] positions[b] by {
        assert(order::precedes(offsets, positions[a] as int, positions[b] as int));
    }
    assert forall|i: int, j: int| 0 <= i < j < blocks.len() implies (#[trigger] sorted[i]).offset
        <= (#[trigger] sorted[j]).offset by {
        assert(order::precedes(offsets, positions[i] as int, positions[j] as int));
        assert(positions[i] < offsets.len() && positions[j] < offsets.len());
    }
    assert forall|i: int| 0 <= i < blocks.len() implies blocks.contains(#[trigger] sorted[i]) by {
        assert(positions[i] < offsets.len());
        assert(blocks[positions[i] as int] == sorted[i]);
    }
    lemma_reordered(blocks, weight, positions);
}

proof fn lemma_nonempty_sum(
    blocks: Seq<P4kFreelistBlock>,
    weight: spec_fn(P4kFreelistBlock) -> int,
)
    requires
        is_additive(weight),
    ensures
        summed(freelist::nonempty_blocks(blocks), weight) == summed(blocks, weight),
        freelist::nonempty_blocks(blocks).len() <= blocks.len(),
        forall|i: int|
            0 <= i < freelist::nonempty_blocks(blocks).len() ==> (
            #[trigger] freelist::nonempty_blocks(blocks)[i]).size != 0,
    decreases blocks.len(),
{
    if blocks.len() > 0 {
        let full = freelist::nonempty_blocks(blocks.drop_last());
        lemma_nonempty_sum(blocks.drop_last(), weight);
        assert(full.push(blocks.last()).drop_last() =~= full);
    }
}

proof fn lemma_walk_sum(
    acc: Seq<P4kFreelistBlock>,
    rest: Seq<P4kFreelistBlock>,
    weight: spec_fn(P4kFreelistBlock) -> int,
)
    requires
        is_additive(weight),
        is_merged(acc),
        freelist::merge_walk(acc, rest) is Some,
        forall|i: int| 0 <= i < rest.len() ==> (#[trigger] rest[i]).size != 0,
        forall|i: int, j: int|
            0 <= i < j < rest.len() ==> (#[trigger] rest[i]).offset <= (#[trigger] rest[j]).offset,
        acc.len() > 0 && rest.len() > 0 ==> acc.last().offset <= rest[0].offset,
    ensures
        ({
            let merged = freelist::merge_walk(acc, rest)->Some_0;
            &&& is_merged(merged)
            &&& summed(merged, weight) == summed(acc, weight) + summed(rest, weight)
            &&& merged.len() <= acc.len() + rest.len()
        }),
    decreases rest.len(),
{
    if rest.len() > 0 {
        let next = freelist::merge_step(acc, rest[0])->Some_0;
        let left = rest.drop_first();
        let n = next.len() - 1;
        assert forall|i: int, j: int| 0 <= i < j < left.len() implies (#[trigger] left[i]).offset
            <= (#[trigger] left[j]).offset by {
            assert(rest[i + 1].offset <= rest[j + 1].offset);
        }
        assert forall|i: int| 0 <= i < left.len() implies (#[trigger] left[i]).size != 0 by {
            assert(rest[i + 1].size != 0);
        }
        if left.len() > 0 {
            assert(rest[0].offset <= rest[1].offset);
        }
        if acc.len() > 0 {
            assert forall|i: int| 0 <= i < n implies (#[trigger] next[i]) == acc[i] by {}
            if acc.len() == next.len() {
                assert(next.drop_last() =~= acc.drop_last());
                assert(weight(next.last()) == weight(acc.last()) + weight(rest[0]));
            } else {
                assert(next.drop_last() =~= acc);
            }
            assert forall|i: int, j: int| 0 <= i < j < next.len() implies (
            #[trigger] next[i]).offset <= (#[trigger] next[j]).offset by {
                if acc.len() != next.len() && j == n && i < n - 1 {
                    assert(acc[i].offset <= acc[n - 1].offset);
                }
            }
        } else {
            assert(next.drop_last() =~= acc);
        }
        lemma_walk_sum(next, left, weight);
        lemma_without(rest, weight, 0);
        assert(rest.remove(0) =~= left);
    }
}

proof fn lemma_walk_keeps(acc: Seq<P4kFreelistBlock>, rest: Seq<P4kFreelistBlock>)
    requires
        is_merged(acc + rest),
    ensures
        freelist::merge_walk(acc, rest) == Some(acc + rest),
    decreases rest.len(),
{
    if rest.len() > 0 {
        let n = acc.len() as int;
        assert((acc + rest)[n] == rest[0]);
        if n > 0 {
            assert((acc + rest)[n - 1] == acc.last());
        }
        assert(acc.push(rest[0]) + rest.drop_first() =~= acc + rest);
        lemma_walk_keeps(acc.push(rest[0]), rest.drop_first());
    } else {
        assert(acc + rest =~= acc);
    }
}

proof fn lemma_nonempty_kept(blocks: Seq<P4kFreelistBlock>)
    requires
        forall|i: int| 0 <= i < blocks.len() ==> (#[trigger] blocks[i]).size != 0,
    ensures
        freelist::nonempty_blocks(blocks) == blocks,
    decreases blocks.len(),
{
    if blocks.len() > 0 {
        assert(blocks[blocks.len() - 1].size != 0);
        lemma_nonempty_kept(blocks.drop_last());
        assert(blocks.drop_last().push(blocks.last()) =~= blocks);
    } else {
        assert(blocks =~= Seq::empty());
    }
}

/// Ranges that are merged already stay as they are.
pub proof fn law_merged_stays(blocks: Seq<P4kFreelistBlock>)
    requires
        blocks.len() <= usize::MAX,
        is_merged(blocks),
    ensures
        freelist::merged_blocks(blocks) == Some(blocks),
{
    let offsets = freelist::block_offsets(blocks);
    let plain = Seq::new(blocks.len(), |i: int| i as usize);
    lemma_nonempty_kept(blocks);
    order::law_order_exists(offsets);
    assert forall|a: int, b: int| 0 <= a < b < plain.len() implies #[trigger] order::precedes(
        offsets,
        plain[a] as int,
        plain[b] as int,
    ) by {
        assert(blocks[a].offset <= blocks[b].offset);
    }
    assert forall|i: usize| 0 <= i < offsets.len() implies #[trigger] plain.contains(i) by {
        assert(plain[i as int] == i);
    }
    assert(order::is_order(offsets, plain));
    order::law_order_unique(offsets, plain, order::order_of(offsets));
    assert(freelist::sorted_blocks(blocks) =~= blocks);
    assert(Seq::<P4kFreelistBlock>::empty() + blocks =~= blocks);
    lemma_walk_keeps(Seq::empty(), blocks);
}

/// Merged ranges stand by offset, hold something, and do not touch; every byte
/// lies in as many of them as before, so that they hold as many bytes; and
/// merging them again changes nothing.
pub proof fn law_merge_is_final(blocks: Seq<P4kFreelistBlock>, x: int)
    requires
        blocks.len() <= usize::MAX,
        freelist::merged_blocks(blocks) is Some,
    ensures
        ({
            let merged = freelist::merged_blocks(blocks)->Some_0;
            &&& is_merged(merged)
            &&& times_covered(merged, x) == times_covered(blocks, x)
            &&& total_size(merged) == total_size(blocks)
            &&& freelist::merged_blocks(merged) == Some(merged)
        }),
{
    let hit = |b: P4kFreelistBlock|
        if b.offset <= x < b.offset + b.size {
            1int
        } else {
            0int
        };
    let size = |b: P4kFreelistBlock| b.size as int;
    let full = freelist::nonempty_blocks(blocks);
    let sorted = freelist::sorted_blocks(full);
    lemma_nonempty_sum(blocks, hit);
    lemma_nonempty_sum(blocks, size);
    lemma_sorted_sum(full, hit);
    lemma_sorted_sum(full, size);
    assert forall|i: int| 0 <= i < sorted.len() implies (#[trigger] sorted[i]).size != 0 by {
        assert(full.contains(sorted[i]));
    }
    lemma_walk_sum(Seq::empty(), sorted, hit);
    lemma_walk_sum(Seq::empty(), sorted, size);
    law_merged_stays(freelist::merged_blocks(blocks)->Some_0);
}

} // verus!
