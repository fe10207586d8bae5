//! Pack live txs into projected blocks 1..N by descending chunk rate.
//! Block 0 is filled by the caller from `getblocktemplate`. The final
//! block is a catch-all (no vsize cap).
use vstd::prelude::*;

use crate::order::{cand_before, candidate_at, sort_by_packing_order, Candidate};
use crate::snapshot::{SnapTx, TxIndex};

verus! {

/// Largest vsize of a block.
pub const MAX_BLOCK_VSIZE: u64 = 1_000_000;

/// `a - b`, or 0 when `b > a`.
pub open spec fn sat_sub(a: int, b: int) -> int {
    if b > a {
        0
    } else {
        a - b
    }
}

/// Indices below `n` whose `excluded` flag is 0, ascending.
pub open spec fn candidate_indices(excluded: Seq<u8>, n: int) -> Seq<TxIndex>
    decreases n,
{
    if n <= 0 {
        Seq::empty()
    } else if excluded[n - 1] == 0 {
        candidate_indices(excluded, n - 1).push((n - 1) as usize)
    } else {
        candidate_indices(excluded, n - 1)
    }
}

pub open spec fn candidate_of(txs: Seq<SnapTx>, i: TxIndex) -> Candidate {
    Candidate { idx: i, vsize: txs[i as int].vsize, rate: txs[i as int].chunk_rate, txid: txs[i as int].txid }
}

/// No index packs strictly before an earlier one.
pub open spec fn packing_sorted(txs: Seq<SnapTx>, order: Seq<TxIndex>) -> bool {
    forall|i: int, j: int|
        0 <= i < j < order.len() ==> !cand_before(
            candidate_of(txs, #[trigger] order[j]),
            candidate_of(txs, #[trigger] order[i]),
        )
}

/// Greedy packing state after placing `order` into at most `n` blocks:
/// the closed blocks, the open block, and the open block's vsize. A tx
/// that does not fit closes the open block, unless the open block is the
/// last one or still empty.
pub open spec fn pack(txs: Seq<SnapTx>, order: Seq<TxIndex>, n: nat) -> (Seq<Seq<TxIndex>>, Seq<TxIndex>, int)
    decreases order.len(),
{
    if order.len() == 0 {
        (Seq::empty(), Seq::empty(), 0)
    } else {
        let (closed, open, bv) = pack(txs, order.drop_last(), n);
        let idx = order.last();
        let vsize = txs[idx as int].vsize as int;
        let fits = vsize <= sat_sub(MAX_BLOCK_VSIZE as int, bv);
        if !fits && closed.len() + 1 < n && open.len() > 0 {
            (closed.push(open), seq![idx], vsize)
        } else {
            (closed, open.push(idx), bv + vsize)
        }
    }
}

/// The `n` blocks that packing `order` yields: the closed blocks, the open
/// block, then empty blocks up to `n`.
pub open spec fn packed_blocks(txs: Seq<SnapTx>, order: Seq<TxIndex>, n: nat) -> Seq<Seq<TxIndex>> {
    let (closed, open, _) = pack(txs, order, n);
    let filled = closed.push(open);
    filled + Seq::new((n - filled.len()) as nat, |i: int| Seq::<TxIndex>::empty())
}

pub open spec fn flatten(blocks: Seq<Seq<TxIndex>>) -> Seq<TxIndex>
    decreases blocks.len(),
{
    if blocks.len() == 0 {
        Seq::empty()
    } else {
        flatten(blocks.drop_last()) + blocks.last()
    }
}

pub open spec fn blocks_view(blocks: Seq<Vec<TxIndex>>) -> Seq<Seq<TxIndex>> {
    blocks.map_values(|b: Vec<TxIndex>| b@)
}

proof fn lemma_flatten_push(blocks: Seq<Seq<TxIndex>>, b: Seq<TxIndex>)
    ensures
        flatten(blocks.push(b)) == flatten(blocks) + b,
{
    assert(blocks.push(b).drop_last() == blocks);
}

proof fn lemma_flatten_empties(blocks: Seq<Seq<TxIndex>>, k: nat)
    ensures
        flatten(blocks + Seq::new(k, |i: int| Seq::<TxIndex>::empty())) == flatten(blocks),
    decreases k,
{
    if k > 0 {
        let e = Seq::new(k, |i: int| Seq::<TxIndex>::empty());
        let e1 = Seq::new((k - 1) as nat, |i: int| Seq::<TxIndex>::empty());
        assert((blocks + e).drop_last() == blocks + e1);
        assert((blocks + e).last() == Seq::<TxIndex>::empty());
        lemma_flatten_empties(blocks, (k - 1) as nat);
        assert(flatten(blocks + e1) + Seq::<TxIndex>::empty() == flatten(blocks + e1));
    }
}

/// Packing keeps every placed index, in order: the closed blocks followed by
/// the open block are exactly `order`.
pub proof fn lemma_pack_keeps_order(txs: Seq<SnapTx>, order: Seq<TxIndex>, n: nat)
    ensures
        flatten(pack(txs, order, n).0) + pack(txs, order, n).1 == order,
        pack(txs, order, n).0.len() < n || n == 0 || order.len() == 0 ==> true,
    decreases order.len(),
{
    if order.len() > 0 {
        let rest = order.drop_last();
        lemma_pack_keeps_order(txs, rest, n);
        let (closed, open, bv) = pack(txs, rest, n);
        lemma_flatten_push(closed, open);
        assert(rest.push(order.last()) == order);
    }
}

/// Every candidate lands in exactly one projected block, in packing order.
pub proof fn lemma_packed_blocks_flatten(txs: Seq<SnapTx>, order: Seq<TxIndex>, n: nat)
    requires
        n > 0,
    ensures
        flatten(packed_blocks(txs, order, n)) == order,
{
    lemma_pack_keeps_order(txs, order, n);
    lemma_pack_closed_bound(txs, order, n);
    let (closed, open, _) = pack(txs, order, n);
    lemma_flatten_push(closed, open);
    lemma_flatten_empties(closed.push(open), (n - closed.push(open).len()) as nat);
}

/// At most `n - 1` blocks are ever closed.
pub proof fn lemma_pack_closed_bound(txs: Seq<SnapTx>, order: Seq<TxIndex>, n: nat)
    requires
        n > 0,
    ensures
        pack(txs, order, n).0.len() < n,
    decreases order.len(),
{
    if order.len() > 0 {
        lemma_pack_closed_bound(txs, order.drop_last(), n);
    }
}

/// Total vsize of the txs of block `b`.
pub open spec fn vsize_sum(txs: Seq<SnapTx>, b: Seq<TxIndex>) -> int
    decreases b.len(),
{
    if b.len() == 0 {
        0
    } else {
        vsize_sum(txs, b.drop_last()) + txs[b.last() as int].vsize
    }
}

/// Block `b` keeps to the block vsize: its txs total at most
/// `MAX_BLOCK_VSIZE`, or it holds one oversized tx and nothing that adds
/// to it.
pub open spec fn within_block(txs: Seq<SnapTx>, b: Seq<TxIndex>) -> bool {
    vsize_sum(txs, b) <= MAX_BLOCK_VSIZE || (b.len() > 0 && vsize_sum(txs, b) == txs[b[0] as int].vsize)
}

proof fn lemma_vsize_sum_push(txs: Seq<SnapTx>, b: Seq<TxIndex>, i: TxIndex)
    ensures
        vsize_sum(txs, b.push(i)) == vsize_sum(txs, b) + txs[i as int].vsize,
{
    assert(b.push(i).drop_last() =~= b);
}

proof fn lemma_vsize_sum_one(txs: Seq<SnapTx>, i: TxIndex)
    ensures
        vsize_sum(txs, seq![i]) == txs[i as int].vsize,
{
    let one = seq![i];
    assert(one.drop_last() =~= Seq::<TxIndex>::empty());
    assert(one.last() == i);
    assert(vsize_sum(txs, Seq::<TxIndex>::empty()) == 0);
    assert(vsize_sum(txs, one) == vsize_sum(txs, one.drop_last()) + txs[one.last() as int].vsize);
}

/// The shape greedy packing keeps: the open block's running vsize is the
/// sum of its txs; every closed block is non-empty, keeps to the block
/// vsize, and was closed because the tx starting the next block did not
/// fit; the open block keeps to the block vsize while it is not the last.
pub proof fn lemma_pack_shape(txs: Seq<SnapTx>, order: Seq<TxIndex>, n: nat)
    ensures
        ({
            let (closed, open, bv) = pack(txs, order, n);
            &&& bv == vsize_sum(txs, open)
            &&& closed.len() > 0 ==> open.len() > 0
            &&& forall|j: int| 0 <= j < closed.len() ==> (#[trigger] closed[j]).len() > 0 && within_block(txs, closed[j])
            &&& forall|j: int|
                0 <= j < closed.len() ==> vsize_sum(txs, #[trigger] closed[j]) + txs[(if j + 1 < closed.len() {
                    closed[j + 1]
                } else {
                    open
                })[0] as int].vsize > MAX_BLOCK_VSIZE
            &&& closed.len() + 1 < n ==> within_block(txs, open)
        }),
    decreases order.len(),
{
    if order.len() > 0 {
        let rest = order.drop_last();
        lemma_pack_shape(txs, rest, n);
        let (closed, open, bv) = pack(txs, rest, n);
        let idx = order.last();
        let vsize = txs[idx as int].vsize as int;
        let fits = vsize <= sat_sub(MAX_BLOCK_VSIZE as int, bv);
        if !fits && closed.len() + 1 < n && open.len() > 0 {
            let c2 = closed.push(open);
            lemma_vsize_sum_one(txs, idx);
            assert(seq![idx][0] == idx);
            assert forall|j: int| 0 <= j < c2.len() implies (#[trigger] c2[j]).len() > 0 && within_block(txs, c2[j]) by {
                if j < closed.len() {
                    assert(c2[j] == closed[j]);
                }
            }
            assert forall|j: int|
                0 <= j < c2.len() implies vsize_sum(txs, #[trigger] c2[j]) + txs[(if j + 1 < c2.len() {
                    c2[j + 1]
                } else {
                    seq![idx]
                })[0] as int].vsize > MAX_BLOCK_VSIZE by {
                if j < closed.len() {
                    assert(c2[j] == closed[j]);
                    if j + 1 < closed.len() {
                        assert(c2[j + 1] == closed[j + 1]);
                    } else {
                        assert(c2[j + 1] == open);
                    }
                } else {
                    assert(c2[j] == open);
                }
            }
        } else {
            let o2 = open.push(idx);
            lemma_vsize_sum_push(txs, open, idx);
            assert(open.len() > 0 ==> o2[0] == open[0]);
            assert forall|j: int|
                0 <= j < closed.len() implies vsize_sum(txs, #[trigger] closed[j]) + txs[(if j + 1 < closed.len() {
                    closed[j + 1]
                } else {
                    o2
                })[0] as int].vsize > MAX_BLOCK_VSIZE by {
                if j + 1 >= closed.len() {
                    assert(open.len() > 0);
                }
            }
            if closed.len() + 1 < n {
                if open.len() == 0 {
                    assert(o2 =~= seq![idx]);
                    lemma_vsize_sum_one(txs, idx);
                } else {
                    assert(fits);
                }
            }
        }
    }
}

/// Greedy packing fills blocks: every projected block but the last keeps
/// to the block vsize, and a block followed by a non-empty block was
/// closed only because the first tx of that next block did not fit in
/// it (its txs plus that tx exceed `MAX_BLOCK_VSIZE`).
pub proof fn law_packed_blocks_fill(txs: Seq<SnapTx>, order: Seq<TxIndex>, n: nat)
    requires
        n > 0,
    ensures
        packed_blocks(txs, order, n).len() == n,
        forall|j: int| 0 <= j < n - 1 ==> within_block(txs, #[trigger] packed_blocks(txs, order, n)[j]),
        forall|j: int|
            0 <= j < n - 1 && packed_blocks(txs, order, n)[j + 1].len() > 0 ==> (#[trigger] packed_blocks(
                txs,
                order,
                n,
            )[j]).len() > 0,
        forall|j: int|
            0 <= j < n - 1 && packed_blocks(txs, order, n)[j + 1].len() > 0 ==> vsize_sum(
                txs,
                #[trigger] packed_blocks(txs, order, n)[j],
            ) + txs[packed_blocks(txs, order, n)[j + 1][0] as int].vsize > MAX_BLOCK_VSIZE,
{
    lemma_pack_shape(txs, order, n);
    lemma_pack_closed_bound(txs, order, n);
    let (closed, open, bv) = pack(txs, order, n);
    let filled = closed.push(open);
    let blocks = packed_blocks(txs, order, n);
    let pad = Seq::new((n - filled.len()) as nat, |i: int| Seq::<TxIndex>::empty());
    assert(blocks == filled + pad);
    assert forall|j: int| 0 <= j < n - 1 implies within_block(txs, #[trigger] blocks[j]) by {
        if j < closed.len() {
            assert(blocks[j] == closed[j]);
        } else if j == closed.len() {
            assert(blocks[j] == open);
        } else {
            assert(blocks[j] == Seq::<TxIndex>::empty());
        }
    }
    assert forall|j: int| 0 <= j < n - 1 && blocks[j + 1].len() > 0 implies (#[trigger] blocks[j]).len() > 0 by {
        if j + 1 > closed.len() {
            assert(blocks[j + 1] == Seq::<TxIndex>::empty());
        } else {
            assert(blocks[j] == closed[j]);
        }
    }
    assert forall|j: int|
        0 <= j < n - 1 && blocks[j + 1].len() > 0 implies vsize_sum(txs, #[trigger] blocks[j])
        + txs[blocks[j + 1][0] as int].vsize > MAX_BLOCK_VSIZE by {
        if j + 1 > closed.len() {
            assert(blocks[j + 1] == Seq::<TxIndex>::empty());
        } else {
            assert(blocks[j] == closed[j]);
            if j + 1 < closed.len() {
                assert(blocks[j + 1] == closed[j + 1]);
            } else {
                assert(blocks[j + 1] == open);
            }
        }
    }
}

pub struct Partitioner;

impl Partitioner {
    /// Indices of the non-excluded txs in packing order.
    fn sorted_candidates(txs: &[SnapTx], excluded: &[u8]) -> (r: Vec<TxIndex>)
        requires
            txs@.len() == excluded@.len(),
            forall|i: int| 0 <= i < txs@.len() ==> (#[trigger] txs@[i]).chunk_rate.vsize > 0,
        ensures
            r@.to_multiset() == candidate_indices(excluded@, txs@.len() as int).to_multiset(),
            r@.len() <= txs@.len(),
            forall|i: int| 0 <= i < r@.len() ==> (#[trigger] r@[i]) < txs@.len(),
            packing_sorted(txs@, r@),
    {
        let mut cands: Vec<TxIndex> = Vec::new();
        let mut i: usize = 0;
        while i < txs.len()
            invariant
                i <= txs@.len() == excluded@.len(),
                cands@ == candidate_indices(excluded@, i as int),
                cands@.len() <= i,
                forall|k: int| 0 <= k < cands@.len() ==> (#[trigger] cands@[k]) < i,
            decreases txs@.len() - i,
        {
            if excluded[i] == 0 {
                cands.push(i);
            }
            i += 1;
        }
        let ghost unsorted = cands@;
        sort_by_packing_order(txs, &mut cands);
        proof {
            assert forall|i: int, j: int| 0 <= i < j < cands@.len() implies !cand_before(
                candidate_of(txs@, #[trigger] cands@[j]),
                candidate_of(txs@, #[trigger] cands@[i]),
            ) by {
                assert(candidate_of(txs@, cands@[j]) == candidate_at(txs@, cands@[j]));
                assert(candidate_of(txs@, cands@[i]) == candidate_at(txs@, cands@[i]));
            }
            assert forall|k: int| 0 <= k < cands@.len() implies (#[trigger] cands@[k]) < txs@.len() by {
                let x = cands@[k];
                vstd::seq_lib::to_multiset_contains(cands@, x);
                vstd::seq_lib::to_multiset_contains(unsorted, x);
                assert(cands@.contains(x));
                assert(unsorted.contains(x));
                let j = choose|j: int| 0 <= j < unsorted.len() && unsorted[j] == x;
                assert(unsorted[j] < txs@.len());
            }
        }
        cands
    }

    /// Pack the non-excluded txs (`excluded[i] == 0`) into
    /// `num_remaining_blocks` blocks by descending chunk rate, ties broken
    /// by ascending txid. A block closes when the next tx does not fit in
    /// the block vsize; the final block takes everything left.
    pub fn partition(txs: &[SnapTx], excluded: &[u8], num_remaining_blocks: usize) -> (r: Vec<Vec<TxIndex>>)
        requires
            txs@.len() == excluded@.len(),
            txs@.len() <= u32::MAX,
            forall|i: int| 0 <= i < txs@.len() ==> (#[trigger] txs@[i]).vsize <= u32::MAX,
            forall|i: int| 0 <= i < txs@.len() ==> (#[trigger] txs@[i]).chunk_rate.vsize > 0,
        ensures
            num_remaining_blocks == 0 ==> r@.len() == 0,
            num_remaining_blocks > 0 ==> {
                &&& blocks_view(r@) == packed_blocks(txs@, flatten(blocks_view(r@)), num_remaining_blocks as nat)
                &&& flatten(blocks_view(r@)).to_multiset() == candidate_indices(excluded@, txs@.len() as int).to_multiset()
                &&& packing_sorted(txs@, flatten(blocks_view(r@)))
                &&& r@.len() == num_remaining_blocks
                &&& forall|j: int| 0 <= j < r@.len() - 1 ==> within_block(txs@, (#[trigger] r@[j])@)
                &&& forall|j: int| 0 <= j < r@.len() - 1 && r@[j + 1]@.len() > 0 ==> (#[trigger] r@[j])@.len() > 0
                &&& forall|j: int|
                    0 <= j < r@.len() - 1 && r@[j + 1]@.len() > 0 ==> vsize_sum(txs@, (#[trigger] r@[j])@)
                        + txs@[r@[j + 1]@[0] as int].vsize > MAX_BLOCK_VSIZE
            },
    {
        let mut blocks: Vec<Vec<TxIndex>> = Vec::new();
        if num_remaining_blocks == 0 {
            return blocks;
        }
        let sorted = Self::sorted_candidates(txs, excluded);
        let last = num_remaining_blocks - 1;
        let mut open: Vec<TxIndex> = Vec::new();
        let mut block_vsize: u64 = 0;
        let mut k: usize = 0;
        while k < sorted.len()
            invariant
                k <= sorted@.len() <= txs@.len(),
                last + 1 == num_remaining_blocks,
                forall|i: int| 0 <= i < sorted@.len() ==> (#[trigger] sorted@[i]) < txs@.len(),
                forall|i: int| 0 <= i < txs@.len() ==> (#[trigger] txs@[i]).vsize <= u32::MAX,
                txs@.len() <= u32::MAX,
                block_vsize <= k * 0xffff_ffffu64,
                ({
                    let (closed, o, bv) = pack(txs@, sorted@.take(k as int), num_remaining_blocks as nat);
                    &&& blocks_view(blocks@) == closed
                    &&& open@ == o
                    &&& bv == block_vsize
                }),
            decreases sorted@.len() - k,
        {
            let idx = sorted[k];
            let vsize = txs[idx].vsize;
            proof {
                assert(sorted@.take(k + 1).drop_last() == sorted@.take(k as int));
                assert(sorted@.take(k + 1).last() == idx);
            }
            let room = if block_vsize > MAX_BLOCK_VSIZE { 0 } else { MAX_BLOCK_VSIZE - block_vsize };
            let fits = vsize <= room;
            if !fits && blocks.len() < last && open.len() > 0 {
                let ghost before = blocks@;
                let mut done: Vec<TxIndex> = Vec::new();
                std::mem::swap(&mut open, &mut done);
                blocks.push(done);
                proof {
                    assert(blocks_view(blocks@) =~= blocks_view(before).push(done@));
                    assert(seq![idx] =~= Seq::<TxIndex>::empty().push(idx));
                }
                open.push(idx);
                block_vsize = vsize;
            } else {
                open.push(idx);
                block_vsize = block_vsize + vsize;
            }
            k += 1;
        }
        proof {
            assert(sorted@.take(k as int) == sorted@);
            lemma_pack_closed_bound(txs@, sorted@, num_remaining_blocks as nat);
        }
        let ghost closed = blocks@;
        blocks.push(open);
        let ghost filled = blocks@;
        assert(blocks_view(filled) =~= blocks_view(closed).push(open@));
        while blocks.len() < num_remaining_blocks
            invariant
                filled.len() <= blocks@.len() <= num_remaining_blocks,
                blocks_view(blocks@) == blocks_view(filled) + Seq::new(
                    (blocks@.len() - filled.len()) as nat,
                    |i: int| Seq::<TxIndex>::empty(),
                ),
            decreases num_remaining_blocks - blocks@.len(),
        {
            let ghost prev = blocks@;
            blocks.push(Vec::new());
            assert(blocks_view(blocks@) =~= blocks_view(prev).push(Seq::<TxIndex>::empty()));
            assert(Seq::new((blocks@.len() - filled.len()) as nat, |i: int| Seq::<TxIndex>::empty())
                =~= Seq::new((prev.len() - filled.len()) as nat, |i: int| Seq::<TxIndex>::empty()).push(
                Seq::<TxIndex>::empty()));
            assert(blocks_view(blocks@) =~= blocks_view(filled) + Seq::new(
                (blocks@.len() - filled.len()) as nat,
                |i: int| Seq::<TxIndex>::empty(),
            ));
        }
        proof {
            lemma_packed_blocks_flatten(txs@, sorted@, num_remaining_blocks as nat);
            assert(blocks_view(blocks@) =~= packed_blocks(txs@, sorted@, num_remaining_blocks as nat));
            law_packed_blocks_fill(txs@, sorted@, num_remaining_blocks as nat);
            let pb = packed_blocks(txs@, sorted@, num_remaining_blocks as nat);
            assert forall|j: int| 0 <= j < blocks@.len() implies (#[trigger] blocks@[j])@ == pb[j] by {
                assert(blocks_view(blocks@)[j] == blocks@[j]@);
            }
        }
        blocks
    }
}

} // verus!
