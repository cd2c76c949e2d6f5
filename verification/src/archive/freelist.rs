//! Free ranges of an archive.

use vstd::prelude::*;
use vstd::seq::*;
use vstd::seq_lib::*;
use vstd::slice::*;
use vstd::string::*;

use crate::archive::model::P4kFreelistBlock;
use crate::bytes;
use crate::bytes::get_u64;
use crate::order;
use crate::order::sort_positions;
use crate::text;
use crate::text::{dec, hex};

verus! {

/// The freelist record with the given index.
pub open spec fn block_at(data: Seq<u8>, at: int, index: int) -> P4kFreelistBlock {
    P4kFreelistBlock {
        offset: bytes::le64(data, at + 16 * index),
        size: bytes::le64(data, at + 16 * index + 8),
    }
}

/// What is wrong with a freelist record.
pub open spec fn block_fault(data: Seq<u8>, at: int, index: int) -> Option<Seq<char>> {
    let block = block_at(data, at, index);
    if block.size == 0 {
        Some("freelist block "@ + text::dec_text(index as nat) + " has zero size"@)
    } else if block.offset + block.size > u64::MAX {
        Some(
            "freelist block "@ + text::dec_text(index as nat) + " range 0x"@ + text::hex_text(
                block.offset as nat,
            ) + "+0x"@ + text::hex_text(block.size as nat) + " overflows u64"@,
        )
    } else {
        None
    }
}

/// The first `count` freelist records, or what is wrong with the first bad one.
pub open spec fn blocks_outcome(data: Seq<u8>, at: int, count: nat) -> std::result::Result<
    Seq<P4kFreelistBlock>,
    Seq<char>,
>
    decreases count,
{
    if count == 0 {
        Ok(Seq::empty())
    } else {
        match blocks_outcome(data, at, (count - 1) as nat) {
            Err(message) => Err(message),
            Ok(blocks) => match block_fault(data, at, count - 1) {
                Some(message) => Err(message),
                None => Ok(blocks.push(block_at(data, at, count - 1))),
            },
        }
    }
}

/// Once a record is bad, so is every longer list.
pub proof fn lemma_blocks_fault_stays(data: Seq<u8>, at: int, k: nat, count: nat)
    requires
        k <= count,
        blocks_outcome(data, at, k) is Err,
    ensures
        blocks_outcome(data, at, count) == blocks_outcome(data, at, k),
    decreases count - k,
{
    if k < count {
        lemma_blocks_fault_stays(data, at, k, (count - 1) as nat);
    }
}

/// Good records are all listed.
pub proof fn lemma_blocks_listed(data: Seq<u8>, at: int, count: nat)
    requires
        forall|i: int| 0 <= i < count ==> #[trigger] block_fault(data, at, i) is None,
    ensures
        blocks_outcome(data, at, count) == Ok::<Seq<P4kFreelistBlock>, Seq<char>>(
            Seq::new(count, |i: int| block_at(data, at, i)),
        ),
    decreases count,
{
    let all = Seq::new(count, |i: int| block_at(data, at, i));
    if count > 0 {
        let n = (count - 1) as nat;
        lemma_blocks_listed(data, at, n);
        assert(block_fault(data, at, n as int) is None);
        assert(all =~= Seq::new(n, |i: int| block_at(data, at, i)).push(
            block_at(data, at, n as int),
        ));
    } else {
        assert(all =~= Seq::empty());
    }
}

/// Read `count` freelist records.
pub fn read_freelist_blocks(data: &[u8], at: usize, count: usize) -> (r: std::result::Result<
    Vec<P4kFreelistBlock>,
    String,
>)
    requires
        at + 16 * count <= data@.len(),
    ensures
        match r {
            Ok(blocks) => blocks_outcome(data@, at as int, count as nat) == Ok::<
                Seq<P4kFreelistBlock>,
                Seq<char>,
            >(blocks@),
            Err(message) => blocks_outcome(data@, at as int, count as nat) == Err::<
                Seq<P4kFreelistBlock>,
                Seq<char>,
            >(message@),
        },
{
    assert(data.len() == data@.len());
    let mut blocks: Vec<P4kFreelistBlock> = Vec::new();
    let mut index: usize = 0;
    while index < count
        invariant
            index <= count,
            at + 16 * count <= data@.len(),
            data@.len() <= usize::MAX,
            blocks_outcome(data@, at as int, index as nat) == Ok::<
                Seq<P4kFreelistBlock>,
                Seq<char>,
            >(blocks@),
        decreases count - index,
    {
        let offset: u64 = get_u64(data, at + 16 * index);
        let size: u64 = get_u64(data, at + 16 * index + 8);
        proof {
            if blocks_outcome(data@, at as int, (index + 1) as nat) is Err {
                lemma_blocks_fault_stays(data@, at as int, (index + 1) as nat, count as nat);
            }
        }
        if size == 0 {
            return Err(
                String::from_str("freelist block ").concat(dec(index as u64).as_str()).concat(
                    " has zero size",
                ),
            );
        }
        if offset.checked_add(size).is_none() {
            return Err(
                String::from_str("freelist block ").concat(dec(index as u64).as_str()).concat(
                    " range 0x",
                ).concat(hex(offset).as_str()).concat("+0x").concat(hex(size).as_str()).concat(
                    " overflows u64",
                ),
            );
        }
        blocks.push(P4kFreelistBlock { offset, size });
        index += 1;
    }
    Ok(blocks)
}

/// The blocks that hold anything.
pub open spec fn nonempty_blocks(blocks: Seq<P4kFreelistBlock>) -> Seq<P4kFreelistBlock>
    decreases blocks.len(),
{
    if blocks.len() == 0 {
        Seq::empty()
    } else if blocks.last().size != 0 {
        nonempty_blocks(blocks.drop_last()).push(blocks.last())
    } else {
        nonempty_blocks(blocks.drop_last())
    }
}

/// The offsets of a run of blocks.
pub open spec fn block_offsets(blocks: Seq<P4kFreelistBlock>) -> Seq<u64> {
    Seq::new(blocks.len(), |i: int| blocks[i].offset)
}

/// The blocks by offset, those with the same offset as they stood.
pub open spec fn sorted_blocks(blocks: Seq<P4kFreelistBlock>) -> Seq<P4kFreelistBlock> {
    let positions = order::order_of(block_offsets(blocks));
    Seq::new(blocks.len(), |i: int| blocks[positions[i] as int])
}

/// Merged blocks so far, with one more: a block that starts where the last
/// one ends extends it. There is none where the size would overflow.
pub open spec fn merge_step(acc: Seq<P4kFreelistBlock>, block: P4kFreelistBlock) -> Option<
    Seq<P4kFreelistBlock>,
> {
    if acc.len() > 0 && acc.last().offset + acc.last().size == block.offset {
        if acc.last().size + block.size > u64::MAX {
            None
        } else {
            Some(
                acc.drop_last().push(
                    P4kFreelistBlock {
                        offset: acc.last().offset,
                        size: (acc.last().size + block.size) as u64,
                    },
                ),
            )
        }
    } else {
        Some(acc.push(block))
    }
}

/// Merged blocks, from those merged already and those left.
pub open spec fn merge_walk(acc: Seq<P4kFreelistBlock>, rest: Seq<P4kFreelistBlock>) -> Option<
    Seq<P4kFreelistBlock>,
>
    decreases rest.len(),
{
    if rest.len() == 0 {
        Some(acc)
    } else {
        match merge_step(acc, rest[0]) {
            None => None,
            Some(next) => merge_walk(next, rest.drop_first()),
        }
    }
}

/// The free ranges in order, adjacent ones joined.
pub open spec fn merged_blocks(blocks: Seq<P4kFreelistBlock>) -> Option<Seq<P4kFreelistBlock>> {
    merge_walk(Seq::empty(), sorted_blocks(nonempty_blocks(blocks)))
}

/// How far merging comes, from those merged already and those left: to the end,
/// or to the first block that would make a size overflow.
pub open spec fn merge_reach(acc: Seq<P4kFreelistBlock>, rest: Seq<P4kFreelistBlock>) -> Seq<
    P4kFreelistBlock,
>
    decreases rest.len(),
{
    if rest.len() == 0 {
        acc
    } else {
        match merge_step(acc, rest[0]) {
            None => acc,
            Some(next) => merge_reach(next, rest.drop_first()),
        }
    }
}

/// What a list of free ranges holds after a merge that failed: the ranges in
/// order, those in front replaced by what was merged of them.
pub open spec fn partly_merged(blocks: Seq<P4kFreelistBlock>) -> Seq<P4kFreelistBlock> {
    let sorted = sorted_blocks(nonempty_blocks(blocks));
    let merged = merge_reach(Seq::empty(), sorted);
    merged + sorted.skip(merged.len() as int)
}

/// Whether a byte lies in one of the free ranges.
pub open spec fn covers(blocks: Seq<P4kFreelistBlock>, x: int) -> bool {
    exists|i: int|
        0 <= i < blocks.len() && (#[trigger] blocks[i]).offset <= x < blocks[i].offset
            + blocks[i].size
}

/// Whether a free range holds anything and ends within the range of offsets.
pub open spec fn is_free_range(block: P4kFreelistBlock) -> bool {
    block.size != 0 && block.offset + block.size <= u64::MAX
}

proof fn lemma_nonempty(blocks: Seq<P4kFreelistBlock>, x: int)
    ensures
        nonempty_blocks(blocks).len() <= blocks.len(),
        covers(nonempty_blocks(blocks), x) <==> covers(blocks, x),
        forall|i: int|
            0 <= i < nonempty_blocks(blocks).len() ==> (#[trigger] nonempty_blocks(blocks)[i]).size
                != 0,
        forall|i: int|
            0 <= i < nonempty_blocks(blocks).len() ==> blocks.contains(
                #[trigger] nonempty_blocks(blocks)[i],
            ),
    decreases blocks.len(),
{
    if blocks.len() > 0 {
        let short = blocks.drop_last();
        let last = blocks.last();
        let full = nonempty_blocks(short);
        let all = nonempty_blocks(blocks);
        lemma_nonempty(short, x);
        assert forall|i: int| 0 <= i < all.len() implies blocks.contains(#[trigger] all[i]) by {
            if i < full.len() {
                assert(short.contains(full[i]));
                let j = choose|j: int| 0 <= j < short.len() && short[j] == full[i];
                assert(blocks[j] == all[i]);
            } else {
                assert(blocks[blocks.len() - 1] == all[i]);
            }
        }
        if covers(blocks, x) {
            let i = choose|i: int|
                0 <= i < blocks.len() && (#[trigger] blocks[i]).offset <= x < blocks[i].offset
                    + blocks[i].size;
            if i < short.len() {
                assert(short[i] == blocks[i]);
                assert(covers(full, x));
                let k = choose|k: int|
                    0 <= k < full.len() && (#[trigger] full[k]).offset <= x < full[k].offset
                        + full[k].size;
                assert(all[k] == full[k]);
            } else {
                assert(all[full.len() as int] == last);
            }
        }
        if covers(all, x) {
            let k = choose|k: int|
                0 <= k < all.len() && (#[trigger] all[k]).offset <= x < all[k].offset
                    + all[k].size;
            assert(blocks.contains(all[k]));
        }
    }
}

proof fn lemma_sorted(blocks: Seq<P4kFreelistBlock>, x: int)
    requires
        blocks.len() <= usize::MAX,
    ensures
        covers(sorted_blocks(blocks), x) <==> covers(blocks, x),
        forall|i: int|
            0 <= i < sorted_blocks(blocks).len() ==> blocks.contains(
                #[trigger] sorted_blocks(blocks)[i],
            ),
{
    let offsets = block_offsets(blocks);
    let positions = order::order_of(offsets);
    let sorted = sorted_blocks(blocks);
    order::law_order_exists(offsets);
    assert forall|i: int| 0 <= i < sorted.len() implies blocks.contains(#[trigger] sorted[i]) by {
        assert(positions[i] < offsets.len());
        assert(blocks[positions[i] as int] == sorted[i]);
    }
    if covers(blocks, x) {
        let i = choose|i: int|
            0 <= i < blocks.len() && (#[trigger] blocks[i]).offset <= x < blocks[i].offset
                + blocks[i].size;
        assert(positions.contains(i as usize));
        let a = choose|a: int| 0 <= a < positions.len() && positions[a] == i as usize;
        assert(sorted[a] == blocks[i]);
    }
    if covers(sorted, x) {
        let k = choose|k: int|
            0 <= k < sorted.len() && (#[trigger] sorted[k]).offset <= x < sorted[k].offset
                + sorted[k].size;
        assert(blocks.contains(sorted[k]));
    }
}

proof fn lemma_merge_step(acc: Seq<P4kFreelistBlock>, block: P4kFreelistBlock, x: int)
    requires
        merge_step(acc, block) is Some,
        is_free_range(block),
        forall|i: int| 0 <= i < acc.len() ==> is_free_range(#[trigger] acc[i]),
    ensures
        covers(merge_step(acc, block)->Some_0, x) <==> covers(acc, x) || (block.offset <= x
            < block.offset + block.size),
        forall|i: int|
            0 <= i < merge_step(acc, block)->Some_0.len() ==> is_free_range(
                #[trigger] merge_step(acc, block)->Some_0[i],
            ),
{
    let next = merge_step(acc, block)->Some_0;
    let n = next.len() - 1;
    let last = next[n];
    assert(next.take(n) =~= acc.take(n));
    if covers(next, x) {
        let k = choose|k: int|
            0 <= k < next.len() && (#[trigger] next[k]).offset <= x < next[k].offset
                + next[k].size;
        if k < n {
            assert(acc[k] == next[k]);
        } else if acc.len() == next.len() {
            assert(acc[n] == acc.last());
        }
    }
    if covers(acc, x) {
        let k = choose|k: int|
            0 <= k < acc.len() && (#[trigger] acc[k]).offset <= x < acc[k].offset + acc[k].size;
        if k < n {
            assert(next[k] == acc[k]);
        } else {
            assert(next[n].offset <= x < next[n].offset + next[n].size);
        }
    }
    if block.offset <= x < block.offset + block.size {
        assert(next[n].offset <= x < next[n].offset + next[n].size);
    }
}

proof fn lemma_merge_walk(acc: Seq<P4kFreelistBlock>, rest: Seq<P4kFreelistBlock>, x: int)
    requires
        forall|i: int| 0 <= i < acc.len() ==> is_free_range(#[trigger] acc[i]),
        forall|i: int| 0 <= i < rest.len() ==> is_free_range(#[trigger] rest[i]),
    ensures
        merge_walk(acc, rest) is Some,
        covers(merge_walk(acc, rest)->Some_0, x) <==> covers(acc, x) || covers(rest, x),
        forall|i: int|
            0 <= i < merge_walk(acc, rest)->Some_0.len() ==> is_free_range(
                #[trigger] merge_walk(acc, rest)->Some_0[i],
            ),
    decreases rest.len(),
{
    if rest.len() > 0 {
        assert(merge_step(acc, rest[0]) is Some) by {
            assert(is_free_range(rest[0]));
            assert(acc.len() > 0 ==> is_free_range(acc.last()));
        }
        let next = merge_step(acc, rest[0])->Some_0;
        let left = rest.drop_first();
        assert forall|i: int| 0 <= i < left.len() implies is_free_range(#[trigger] left[i]) by {
            assert(left[i] == rest[i + 1]);
        }
        lemma_merge_step(acc, rest[0], x);
        lemma_merge_walk(next, left, x);
        if covers(rest, x) {
            let k = choose|k: int|
                0 <= k < rest.len() && (#[trigger] rest[k]).offset <= x < rest[k].offset
                    + rest[k].size;
            if k > 0 {
                assert(left[k - 1] == rest[k]);
            }
        }
        if covers(left, x) {
            let k = choose|k: int|
                0 <= k < left.len() && (#[trigger] left[k]).offset <= x < left[k].offset
                    + left[k].size;
            assert(rest[k + 1] == left[k]);
        }
        if rest[0].offset <= x < rest[0].offset + rest[0].size {
            assert(covers(rest, x));
        }
    }
}

/// Merging free ranges that end within the range of offsets succeeds, keeps
/// every free byte free and frees no other, and gives ranges that can stand in
/// a freelist.
pub proof fn law_merged_blocks(blocks: Seq<P4kFreelistBlock>, x: int)
    requires
        blocks.len() <= usize::MAX,
        forall|i: int|
            0 <= i < blocks.len() ==> (#[trigger] blocks[i]).offset + blocks[i].size <= u64::MAX,
    ensures
        merged_blocks(blocks) is Some,
        covers(merged_blocks(blocks)->Some_0, x) <==> covers(blocks, x),
        forall|i: int|
            0 <= i < merged_blocks(blocks)->Some_0.len() ==> is_free_range(
                #[trigger] merged_blocks(blocks)->Some_0[i],
            ),
{
    let full = nonempty_blocks(blocks);
    let sorted = sorted_blocks(full);
    lemma_nonempty(blocks, x);
    lemma_sorted(full, x);
    assert forall|i: int| 0 <= i < sorted.len() implies is_free_range(#[trigger] sorted[i]) by {
        assert(full.contains(sorted[i]));
        let j = choose|j: int| 0 <= j < full.len() && full[j] == sorted[i];
        assert(full[j].size != 0);
        assert(blocks.contains(full[j]));
        let k = choose|k: int| 0 <= k < blocks.len() && blocks[k] == full[j];
        assert(blocks[k].offset + blocks[k].size <= u64::MAX);
    }
    lemma_merge_walk(Seq::empty(), sorted, x);
}

fn keep_rest(
    merged: &mut Vec<P4kFreelistBlock>,
    full: &Vec<P4kFreelistBlock>,
    positions: &Vec<usize>,
)
    requires
        positions@ == order::order_of(block_offsets(full@)),
        order::is_order(block_offsets(full@), positions@),
        old(merged)@.len() <= full@.len(),
    ensures
        final(merged)@ == old(merged)@ + sorted_blocks(full@).skip(old(merged)@.len() as int),
{
    let ghost front = merged@;
    let ghost sorted = sorted_blocks(full@);
    let mut i: usize = merged.len();
    assert(front + sorted.subrange(i as int, i as int) =~= front);
    while i < positions.len()
        invariant
            front.len() <= i <= positions@.len(),
            positions@ == order::order_of(block_offsets(full@)),
            order::is_order(block_offsets(full@), positions@),
            sorted == sorted_blocks(full@),
            merged@ == front + sorted.subrange(front.len() as int, i as int),
        decreases positions@.len() - i,
    {
        assert(positions@[i as int] < full@.len());
        merged.push(full[positions[i]]);
        i += 1;
        assert(merged@ =~= front + sorted.subrange(front.len() as int, i as int));
    }
    assert(sorted.subrange(front.len() as int, i as int) =~= sorted.skip(front.len() as int));
}

/// Put free ranges in order and join adjacent ones.
///
/// Says whether every joined size fits a `u64`, and stops at the first that
/// does not.
pub fn merge_blocks(blocks: &mut Vec<P4kFreelistBlock>) -> (r: bool)
    ensures
        if r {
            merged_blocks(old(blocks)@) == Some(final(blocks)@)
        } else {
            merged_blocks(old(blocks)@) is None && final(blocks)@ == partly_merged(old(blocks)@)
        },
{
    let ghost given = blocks@;
    let mut full: Vec<P4kFreelistBlock> = Vec::new();
    let mut offsets: Vec<u64> = Vec::new();
    let mut i: usize = 0;
    while i < blocks.len()
        invariant
            i <= blocks@.len(),
            blocks@ == given,
            full@ == nonempty_blocks(blocks@.take(i as int)),
            offsets@ == block_offsets(full@),
        decreases blocks@.len() - i,
    {
        assert(blocks@.take(i + 1).drop_last() =~= blocks@.take(i as int));
        let block: P4kFreelistBlock = blocks[i];
        if block.size != 0 {
            full.push(block);
            offsets.push(block.offset);
            assert(offsets@ =~= block_offsets(full@));
        }
        i += 1;
    }
    assert(blocks@.take(i as int) =~= blocks@);
    let positions: Vec<usize> = sort_positions(offsets.as_slice());
    let ghost rest = sorted_blocks(full@);
    let mut merged: Vec<P4kFreelistBlock> = Vec::new();
    let mut k: usize = 0;
    assert(rest.skip(0) =~= rest);
    while k < positions.len()
        invariant
            k <= positions@.len(),
            positions@ == order::order_of(block_offsets(full@)),
            order::is_order(block_offsets(full@), positions@),
            rest == sorted_blocks(full@),
            given == old(blocks)@,
            full@ == nonempty_blocks(given),
            merged@.len() <= k,
            merge_walk(merged@, rest.skip(k as int)) == merge_walk(Seq::empty(), rest),
            merge_reach(merged@, rest.skip(k as int)) == merge_reach(Seq::empty(), rest),
        decreases positions@.len() - k,
    {
        assert(positions@[k as int] < full@.len());
        let block: P4kFreelistBlock = full[positions[k]];
        proof {
            assert(rest.skip(k as int)[0] == block);
            assert(rest.skip(k as int).drop_first() =~= rest.skip(k + 1));
        }
        let n: usize = merged.len();
        let ghost before = merged@;
        let joins: bool = n > 0 && match merged[n - 1].offset.checked_add(merged[n - 1].size) {
            Some(last_end) => last_end == block.offset,
            None => false,
        };
        if joins {
            let last: P4kFreelistBlock = merged[n - 1];
            match last.size.checked_add(block.size) {
                Some(size) => {
                    merged.pop();
                    merged.push(P4kFreelistBlock { offset: last.offset, size });
                    assert(merged@ =~= before.drop_last().push(
                        P4kFreelistBlock { offset: last.offset, size },
                    ));
                },
                None => {
                    assert(merge_reach(Seq::empty(), rest) == merged@);
                    keep_rest(&mut merged, &full, &positions);
                    *blocks = merged;
                    return false;
                },
            }
        } else {
            merged.push(block);
        }
        assert(merge_step(before, block) == Some(merged@));
        k += 1;
    }
    assert(rest.skip(k as int) =~= Seq::empty());
    *blocks = merged;
    true
}

} // verus!
