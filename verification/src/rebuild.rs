//! Building a published projection: block 0 from the node's template,
//! the rest packed by chunk rate, then per-block stats, fee tiers and the
//! next-block hash.
use vstd::prelude::*;

use crate::fees::{rate_in_range, recommended, BlockStats, Fees};
use crate::order::{cand_before, candidate_at, sort_by_packing_order};
use crate::partition::{
    blocks_view, candidate_indices, flatten, lemma_pack_closed_bound, packed_blocks, packing_sorted, Partitioner,
};
use crate::snapshot::{block0_of, fx_txids_hash, prefix_index_get, PrefixIndex, SnapTx, Snapshot, TxIndex};
use crate::types::{prefix_of, FeeRate, Txid};

verus! {

/// Blocks a projection holds: the template block and seven packed ones.
pub const NUM_BLOCKS: usize = 8;

/// Sum of `vals`, capped at `u64::MAX`.
pub open spec fn capped_total(vals: Seq<u64>) -> u64
    decreases vals.len(),
{
    if vals.len() == 0 {
        0
    } else {
        let prev = capped_total(vals.drop_last());
        if prev as int + vals.last() as int > u64::MAX as int {
            u64::MAX
        } else {
            (prev + vals.last()) as u64
        }
    }
}

/// The percentile behind each slot of `fee_range`.
pub open spec fn fee_percentile(j: int) -> int {
    if j == 0 {
        0
    } else if j == 1 {
        10
    } else if j == 2 {
        25
    } else if j == 3 {
        50
    } else if j == 4 {
        75
    } else if j == 5 {
        90
    } else {
        100
    }
}

/// The chunk rate at percentile `p` of a block whose members are listed in
/// packing order (highest rate first); a rate of zero for an empty block.
pub open spec fn rate_at_percentile(txs: Seq<SnapTx>, sorted: Seq<TxIndex>, p: int) -> FeeRate {
    if sorted.len() == 0 {
        FeeRate { fee: 0, vsize: 1 }
    } else {
        let n = sorted.len() - 1;
        txs[sorted[n - n * p / 100] as int].chunk_rate
    }
}

/// The stats of `block`, given its members in packing order: count,
/// capped size, vsize and fee totals, and chunk-rate percentiles.
pub open spec fn stats_from(txs: Seq<SnapTx>, block: Seq<TxIndex>, sorted: Seq<TxIndex>, s: BlockStats) -> bool {
    &&& s.tx_count == block.len()
    &&& s.total_size == capped_total(block.map_values(|i: TxIndex| txs[i as int].size))
    &&& s.total_vsize == capped_total(block.map_values(|i: TxIndex| txs[i as int].vsize))
    &&& s.total_fee == capped_total(block.map_values(|i: TxIndex| txs[i as int].fee))
    &&& forall|j: int| 0 <= j < 7 ==> #[trigger] s.fee_range[j] == rate_at_percentile(txs, sorted, fee_percentile(j))
}

/// `s` are the stats of `block`: taken over its members sorted into
/// packing order.
pub open spec fn block_stats_of(txs: Seq<SnapTx>, block: Seq<TxIndex>, s: BlockStats) -> bool {
    exists|sorted: Seq<TxIndex>|
        #![trigger stats_from(txs, block, sorted, s)]
        sorted.to_multiset() == block.to_multiset() && packing_sorted(txs, sorted) && stats_from(
            txs,
            block,
            sorted,
            s,
        )
}

/// `r` is the empty-block rate or the chunk rate of one of `txs`.
pub open spec fn rate_from(txs: Seq<SnapTx>, r: FeeRate) -> bool {
    r == (FeeRate { fee: 0, vsize: 1 }) || exists|i: int| 0 <= i < txs.len() && r == (#[trigger] txs[i]).chunk_rate
}

/// Every slot in range, sizes and rates as the packing and the fee tiers
/// need them.
pub open spec fn snap_txs_ok(txs: Seq<SnapTx>) -> bool {
    &&& txs.len() <= u32::MAX
    &&& forall|i: int| 0 <= i < txs.len() ==> (#[trigger] txs[i]).vsize <= u32::MAX
    &&& forall|i: int| 0 <= i < txs.len() ==> rate_in_range((#[trigger] txs[i]).chunk_rate)
}

/// Slots of the template's txids that the index knows (by prefix), in
/// template order.
pub open spec fn template_slots(index: Map<u64, TxIndex>, gbt: Seq<Txid>) -> Seq<TxIndex>
    decreases gbt.len(),
{
    if gbt.len() == 0 {
        Seq::empty()
    } else {
        let rest = template_slots(index, gbt.drop_last());
        let p = prefix_of(gbt.last());
        if index.contains_key(p) {
            rest.push(index[p])
        } else {
            rest
        }
    }
}

/// 1 for a slot in `block`, 0 otherwise.
pub open spec fn excluded_by(block: Seq<TxIndex>, n: nat) -> Seq<u8> {
    Seq::new(n, |i: int| if block.contains(i as usize) { 1u8 } else { 0u8 })
}

/// Sum with a cap at `u64::MAX`.
fn add_capped(a: u64, b: u64) -> (r: u64)
    ensures
        r == if a as int + b as int > u64::MAX as int {
            u64::MAX
        } else {
            (a + b) as u64
        },
{
    if a > u64::MAX - b {
        u64::MAX
    } else {
        a + b
    }
}

/// Rate at percentile `p` of `sorted` (packing order).
fn percentile_rate(txs: &[SnapTx], sorted: &Vec<TxIndex>, p: u128) -> (r: FeeRate)
    requires
        p <= 100,
        forall|k: int| 0 <= k < sorted@.len() ==> (#[trigger] sorted@[k]) < txs@.len(),
    ensures
        r == rate_at_percentile(txs@, sorted@, p as int),
        r == (FeeRate { fee: 0, vsize: 1 }) || exists|i: int| 0 <= i < txs@.len() && r == (#[trigger] txs@[i]).chunk_rate,
{
    if sorted.len() == 0 {
        return FeeRate { fee: 0, vsize: 1 };
    }
    let n: u128 = (sorted.len() - 1) as u128;
    assert(n * p <= 100 * 0xffff_ffff_ffff_ffffu128) by (nonlinear_arith)
        requires
            n <= 0xffff_ffff_ffff_ffffu128,
            p <= 100,
    ;
    let off: u128 = n * p / 100;
    assert(off <= n) by (nonlinear_arith)
        requires
            off == n * p / 100,
            p <= 100,
    ;
    let pos = (n - off) as usize;
    let r = txs[sorted[pos]].chunk_rate;
    assert(r == txs@[sorted@[pos as int] as int].chunk_rate);
    r
}

impl BlockStats {
    /// Stats of one block: member count, size, vsize and fee totals, and
    /// the chunk rates at the 0/10/25/50/75/90/100th percentiles.
    pub fn for_block(block: &Vec<TxIndex>, txs: &[SnapTx]) -> (r: BlockStats)
        requires
            forall|k: int| 0 <= k < block@.len() ==> (#[trigger] block@[k]) < txs@.len(),
            forall|i: int| 0 <= i < txs@.len() ==> (#[trigger] txs@[i]).chunk_rate.vsize > 0,
        ensures
            block_stats_of(txs@, block@, r),
            forall|j: int| 0 <= j < 7 ==> rate_from(txs@, #[trigger] r.fee_range[j]),
    {
        let mut total_size: u64 = 0;
        let mut total_vsize: u64 = 0;
        let mut total_fee: u64 = 0;
        let mut k: usize = 0;
        while k < block.len()
            invariant
                k <= block@.len(),
                forall|j: int| 0 <= j < block@.len() ==> (#[trigger] block@[j]) < txs@.len(),
                total_size == capped_total(block@.take(k as int).map_values(|i: TxIndex| txs@[i as int].size)),
                total_vsize == capped_total(block@.take(k as int).map_values(|i: TxIndex| txs@[i as int].vsize)),
                total_fee == capped_total(block@.take(k as int).map_values(|i: TxIndex| txs@[i as int].fee)),
            decreases block.len() - k,
        {
            let t = &txs[block[k]];
            proof {
                let b = block@.take(k + 1);
                assert(b.map_values(|i: TxIndex| txs@[i as int].size).drop_last() =~= block@.take(
                    k as int,
                ).map_values(|i: TxIndex| txs@[i as int].size));
                assert(b.map_values(|i: TxIndex| txs@[i as int].vsize).drop_last() =~= block@.take(
                    k as int,
                ).map_values(|i: TxIndex| txs@[i as int].vsize));
                assert(b.map_values(|i: TxIndex| txs@[i as int].fee).drop_last() =~= block@.take(
                    k as int,
                ).map_values(|i: TxIndex| txs@[i as int].fee));
            }
            total_size = add_capped(total_size, t.size);
            total_vsize = add_capped(total_vsize, t.vsize);
            total_fee = add_capped(total_fee, t.fee);
            k += 1;
        }
        proof {
            assert(block@.take(block@.len() as int) =~= block@);
        }
        let mut sorted = block.clone();
        proof {
            assert(sorted@ =~= block@);
        }
        sort_by_packing_order(txs, &mut sorted);
        proof {
            assert forall|k: int| 0 <= k < sorted@.len() implies (#[trigger] sorted@[k]) < txs@.len() by {
                vstd::seq_lib::to_multiset_contains(sorted@, sorted@[k]);
                assert(block@.to_multiset().count(sorted@[k]) > 0);
                vstd::seq_lib::to_multiset_contains(block@, sorted@[k]);
                assert(block@.contains(sorted@[k]));
            }
            assert forall|i: int, j: int| 0 <= i < j < sorted@.len() implies !cand_before(
                crate::partition::candidate_of(txs@, #[trigger] sorted@[j]),
                crate::partition::candidate_of(txs@, #[trigger] sorted@[i]),
            ) by {
                assert(crate::partition::candidate_of(txs@, sorted@[j]) == candidate_at(txs@, sorted@[j]));
                assert(crate::partition::candidate_of(txs@, sorted@[i]) == candidate_at(txs@, sorted@[i]));
            }
        }
        let fee_range = [
            percentile_rate(txs, &sorted, 0),
            percentile_rate(txs, &sorted, 10),
            percentile_rate(txs, &sorted, 25),
            percentile_rate(txs, &sorted, 50),
            percentile_rate(txs, &sorted, 75),
            percentile_rate(txs, &sorted, 90),
            percentile_rate(txs, &sorted, 100),
        ];
        let r = BlockStats { tx_count: block.len() as u64, total_size, total_vsize, total_fee, fee_range };
        proof {
            assert forall|j: int| 0 <= j < 7 implies #[trigger] r.fee_range[j] == rate_at_percentile(
                txs@,
                sorted@,
                fee_percentile(j),
            ) by {}
            assert(stats_from(txs@, block@, sorted@, r));
            assert forall|j: int| 0 <= j < 7 implies rate_from(txs@, #[trigger] r.fee_range[j]) by {}
        }
        r
    }

    /// Stats of every block, in order.
    pub fn for_blocks(blocks: &Vec<Vec<TxIndex>>, txs: &[SnapTx]) -> (r: Vec<BlockStats>)
        requires
            forall|b: int, k: int|
                0 <= b < blocks@.len() && 0 <= k < blocks@[b]@.len() ==> (#[trigger] blocks@[b]@[k]) < txs@.len(),
            forall|i: int| 0 <= i < txs@.len() ==> (#[trigger] txs@[i]).chunk_rate.vsize > 0,
        ensures
            r@.len() == blocks@.len(),
            forall|b: int| 0 <= b < blocks@.len() ==> block_stats_of(txs@, blocks@[b]@, #[trigger] r@[b]),
            forall|b: int, j: int| 0 <= b < blocks@.len() && 0 <= j < 7 ==> rate_from(txs@, #[trigger] r@[b].fee_range[j]),
    {
        let mut out: Vec<BlockStats> = Vec::new();
        let mut b: usize = 0;
        while b < blocks.len()
            invariant
                b <= blocks@.len(),
                out@.len() == b,
                forall|bb: int, k: int|
                    0 <= bb < blocks@.len() && 0 <= k < blocks@[bb]@.len() ==> (#[trigger] blocks@[bb]@[k]) < txs@.len(),
                forall|i: int| 0 <= i < txs@.len() ==> (#[trigger] txs@[i]).chunk_rate.vsize > 0,
                forall|bb: int| 0 <= bb < b ==> block_stats_of(txs@, blocks@[bb]@, #[trigger] out@[bb]),
                forall|bb: int, j: int| 0 <= bb < b && 0 <= j < 7 ==> rate_from(txs@, #[trigger] out@[bb].fee_range[j]),
            decreases blocks.len() - b,
        {
            let s = Self::for_block(&blocks[b], txs);
            out.push(s);
            b += 1;
        }
        out
    }
}

/// A member of one block is in the flattened blocks.
proof fn lemma_flatten_contains(blocks: Seq<Seq<TxIndex>>, b: int, k: int)
    requires
        0 <= b < blocks.len(),
        0 <= k < blocks[b].len(),
    ensures
        flatten(blocks).contains(blocks[b][k]),
    decreases blocks.len(),
{
    let f = flatten(blocks);
    let init = flatten(blocks.drop_last());
    assert(f == init + blocks.last());
    if b == blocks.len() - 1 {
        assert(f[init.len() + k] == blocks[b][k]);
    } else {
        lemma_flatten_contains(blocks.drop_last(), b, k);
        assert(blocks.drop_last()[b] == blocks[b]);
        let i = choose|i: int| 0 <= i < init.len() && init[i] == blocks[b][k];
        assert(f[i] == init[i]);
    }
}

/// The candidates below `n` are below `n`.
proof fn lemma_candidates_below(excluded: Seq<u8>, n: int)
    ensures
        forall|k: int|
            0 <= k < candidate_indices(excluded, n).len() ==> (#[trigger] candidate_indices(excluded, n)[k]) < n,
    decreases n,
{
    if n > 0 {
        lemma_candidates_below(excluded, n - 1);
        let prev = candidate_indices(excluded, n - 1);
        let c = candidate_indices(excluded, n);
        assert forall|k: int| 0 <= k < c.len() implies (#[trigger] c[k]) < n by {
            if k < prev.len() {
                assert(c[k] == prev[k]);
            }
        }
    }
}

/// Builds the published projection from the snapshot transactions and
/// their prefix index: block 0 is the template's transactions that are
/// live (found by prefix), in template order; the other candidates are
/// packed into the remaining blocks; then the block stats, the fee tiers
/// under `min_fee` and the hash of block 0.
pub fn build_snapshot(txs: Vec<SnapTx>, prefix_to_idx: PrefixIndex, gbt_txids: &[Txid], min_fee: FeeRate) -> (s:
    Snapshot)
    requires
        snap_txs_ok(txs@),
        forall|p: u64| #[trigger] prefix_to_idx@.contains_key(p) ==> prefix_to_idx@[p] < txs@.len(),
        rate_in_range(min_fee),
    ensures
        s.wf(),
        s.txs_seq() == txs@,
        s.index() == prefix_to_idx@,
        s.min_fee == min_fee,
        s.blocks_seq().len() == NUM_BLOCKS,
        s.blocks_seq()[0]@ == template_slots(prefix_to_idx@, gbt_txids@),
        ({
            let rest = blocks_view(s.blocks_seq()).drop_first();
            &&& rest == packed_blocks(txs@, flatten(rest), (NUM_BLOCKS - 1) as nat)
            &&& flatten(rest).to_multiset() == candidate_indices(
                excluded_by(s.blocks_seq()[0]@, txs@.len()),
                txs@.len() as int,
            ).to_multiset()
            &&& packing_sorted(txs@, flatten(rest))
        }),
        s.block_stats@.len() == NUM_BLOCKS,
        forall|b: int| 0 <= b < NUM_BLOCKS ==> block_stats_of(txs@, s.blocks_seq()[b]@, #[trigger] s.block_stats@[b]),
        s.fees == recommended(s.block_stats@, min_fee),
        s.next_block_hash == fx_txids_hash(block0_of(txs@, s.blocks_seq())),
{
    let n = txs.len();
    let mut block0: Vec<TxIndex> = Vec::new();
    let mut k: usize = 0;
    while k < gbt_txids.len()
        invariant
            k <= gbt_txids@.len(),
            n == txs@.len(),
            forall|p: u64| #[trigger] prefix_to_idx@.contains_key(p) ==> prefix_to_idx@[p] < n,
            block0@ == template_slots(prefix_to_idx@, gbt_txids@.take(k as int)),
            forall|j: int| 0 <= j < block0@.len() ==> (#[trigger] block0@[j]) < n,
        decreases gbt_txids.len() - k,
    {
        proof {
            assert(gbt_txids@.take(k + 1).drop_last() =~= gbt_txids@.take(k as int));
        }
        match prefix_index_get(&prefix_to_idx, &gbt_txids[k].prefix()) {
            Some(i) => block0.push(i),
            None => {},
        }
        k += 1;
    }
    proof {
        assert(gbt_txids@.take(gbt_txids@.len() as int) =~= gbt_txids@);
    }
    let mut excluded: Vec<u8> = Vec::new();
    let mut i: usize = 0;
    while i < n
        invariant
            i <= n,
            excluded@.len() == i,
            forall|j: int| 0 <= j < i ==> excluded@[j] == 0u8,
        decreases n - i,
    {
        excluded.push(0u8);
        i += 1;
    }
    let mut k: usize = 0;
    while k < block0.len()
        invariant
            k <= block0@.len(),
            excluded@.len() == n,
            forall|j: int| 0 <= j < block0@.len() ==> (#[trigger] block0@[j]) < n,
            forall|j: int|
                0 <= j < n ==> excluded@[j] == if block0@.take(k as int).contains(j as usize) {
                    1u8
                } else {
                    0u8
                },
        decreases block0.len() - k,
    {
        let ghost before = excluded@;
        excluded.set(block0[k], 1u8);
        proof {
            assert forall|j: int| 0 <= j < n implies excluded@[j] == if block0@.take(k + 1).contains(
                j as usize,
            ) {
                1u8
            } else {
                0u8
            } by {
                if block0@.take(k as int).contains(j as usize) {
                    let w = choose|w: int| 0 <= w < k && #[trigger] block0@.take(k as int)[w] == j as usize;
                    assert(block0@.take(k + 1)[w] == j as usize);
                }
                if block0@.take(k + 1).contains(j as usize) && j as usize != block0@[k as int] {
                    let w = choose|w: int| 0 <= w < k + 1 && #[trigger] block0@.take(k + 1)[w] == j as usize;
                    assert(block0@.take(k as int)[w] == j as usize);
                }
                if j as usize == block0@[k as int] {
                    assert(block0@.take(k + 1)[k as int] == j as usize);
                }
            }
        }
        k += 1;
    }
    proof {
        assert(block0@.take(block0@.len() as int) =~= block0@);
        assert(excluded@ =~= excluded_by(block0@, n as nat));
    }
    let mut rest = Partitioner::partition(&txs, &excluded, NUM_BLOCKS - 1);
    let ghost rest_view = blocks_view(rest@);
    proof {
        lemma_pack_closed_bound(txs@, flatten(rest_view), (NUM_BLOCKS - 1) as nat);
        lemma_candidates_below(excluded@, n as int);
        assert forall|b: int, kk: int| 0 <= b < rest@.len() && 0 <= kk < rest@[b]@.len() implies (
        #[trigger] rest@[b]@[kk]) < n by {
            assert(rest_view[b] == rest@[b]@);
            lemma_flatten_contains(rest_view, b, kk);
            let x = rest@[b]@[kk];
            vstd::seq_lib::to_multiset_contains(flatten(rest_view), x);
            let c = candidate_indices(excluded@, n as int);
            assert(c.to_multiset().count(x) > 0);
            vstd::seq_lib::to_multiset_contains(c, x);
            let w = choose|w: int| 0 <= w < c.len() && c[w] == x;
        }
    }
    let ghost b0 = block0@;
    let ghost rest_seq = rest@;
    let mut blocks: Vec<Vec<TxIndex>> = Vec::new();
    blocks.push(block0);
    blocks.append(&mut rest);
    proof {
        assert(blocks@.len() == NUM_BLOCKS);
        assert(blocks_view(blocks@).drop_first() =~= rest_view);
        assert(blocks@[0]@ == b0);
        assert forall|b: int, kk: int| 0 <= b < blocks@.len() && 0 <= kk < blocks@[b]@.len() implies (
        #[trigger] blocks@[b]@[kk]) < txs@.len() by {
            if b > 0 {
                assert(blocks@[b] == rest_seq[b - 1]);
            }
        }
    }
    let block_stats = BlockStats::for_blocks(&blocks, &txs);
    proof {
        assert forall|kk: int| 0 <= kk < block_stats@.len() implies rate_in_range(
            #[trigger] block_stats@[kk].fee_range[3],
        ) by {
            assert(rate_from(txs@, block_stats@[kk].fee_range[3]));
        }
    }
    let fees = Fees::compute(&block_stats, min_fee);
    let next_block_hash = Snapshot::hash_next_block(&blocks, &txs);
    Snapshot::from_parts(txs, blocks, block_stats, fees, min_fee, next_block_hash, prefix_to_idx)
}

} // verus!
