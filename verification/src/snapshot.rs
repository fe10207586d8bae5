use std::collections::HashMap;
use std::hash::{Hash, Hasher};

use rustc_hash::{FxBuildHasher, FxHasher};
use vstd::prelude::*;

use crate::fees::{BlockStats, RecommendedFees};
use crate::types::{prefix_of, FeeRate, Txid, TxidPrefix};

verus! {

/// Dense index of a live transaction inside one snapshot.
pub type TxIndex = usize;

/// Per-transaction data of a snapshot: identity, size, the linearized
/// chunk rate, and in-pool parent/child adjacency.
#[derive(Debug, Clone)]
pub struct SnapTx {
    pub txid: Txid,
    pub fee: u64,
    pub vsize: u64,
    pub weight: u64,
    pub size: u64,
    pub chunk_rate: FeeRate,
    pub parents: Vec<TxIndex>,
    pub children: Vec<TxIndex>,
}

/// Txid prefix to snapshot slot.
pub type PrefixIndex = HashMap<TxidPrefix, TxIndex, FxBuildHasher>;

/// `HashMap::default` with the Fx hasher: claims the map is empty.
#[verifier::external_body]
pub(crate) fn prefix_index_new() -> (r: PrefixIndex)
    ensures
        r@.dom() == Set::<TxidPrefix>::empty(),
{
    HashMap::default()
}

/// `HashMap::insert`: claims `k` maps to `v` afterwards, nothing else
/// changed, and the previous value is returned.
#[verifier::external_body]
pub(crate) fn prefix_index_insert(m: &mut PrefixIndex, k: TxidPrefix, v: TxIndex) -> (r: Option<TxIndex>)
    ensures
        final(m)@ == old(m)@.insert(k, v),
        r == (if old(m)@.contains_key(k) {
            Some(old(m)@[k])
        } else {
            None
        }),
{
    m.insert(k, v)
}

/// `HashMap::get`: claims the value under `k`, or `None` when absent.
#[verifier::external_body]
pub(crate) fn prefix_index_get(m: &PrefixIndex, k: &TxidPrefix) -> (r: Option<TxIndex>)
    ensures
        r == (if m@.contains_key(*k) {
            Some(m@[*k])
        } else {
            None
        }),
{
    m.get(k).copied()
}

/// What rustc-hash's `FxHasher` gives after hashing each txid of `txids`
/// in order (32 bytes each). The hasher is unseeded, so the value is the
/// same in every process on one target (its multiplier depends on the
/// pointer width).
pub uninterp spec fn fx_txids_hash(txids: Seq<Txid>) -> u64;

/// Feeds the txids, in order, to a fresh `FxHasher` and returns
/// `finish()`: claims the result is `fx_txids_hash` of the sequence.
#[verifier::external_body]
fn fx_hash_txids(txids: &[Txid]) -> (r: u64)
    ensures
        r == fx_txids_hash(txids@),
{
    let mut hasher = FxHasher::default();
    for txid in txids {
        txid.hash(&mut hasher);
    }
    hasher.finish()
}

/// One published projection of the mempool: per-tx data, projected
/// blocks (block 0 is the node's own template), their stats and the fee
/// tiers derived from them.
pub struct Snapshot {
    pub txs: Vec<SnapTx>,
    pub blocks: Vec<Vec<TxIndex>>,
    pub block_stats: Vec<BlockStats>,
    pub fees: RecommendedFees,
    pub min_fee: FeeRate,
    /// Content tag of the projected next block.
    pub next_block_hash: u64,
    pub prefix_to_idx: PrefixIndex,
}

impl Snapshot {
    pub open spec fn txs_seq(&self) -> Seq<SnapTx> {
        self.txs@
    }

    pub open spec fn blocks_seq(&self) -> Seq<Vec<TxIndex>> {
        self.blocks@
    }

    /// Slot of each indexed prefix.
    pub closed spec fn index(&self) -> Map<TxidPrefix, TxIndex> {
        self.prefix_to_idx@
    }

    /// Every indexed slot exists.
    pub closed spec fn wf(&self) -> bool {
        forall|p: TxidPrefix| #[trigger] self.index().contains_key(p) ==> self.index()[p] < self.txs_seq().len()
    }

    /// A projection from its parts.
    pub(crate) fn from_parts(
        txs: Vec<SnapTx>,
        blocks: Vec<Vec<TxIndex>>,
        block_stats: Vec<BlockStats>,
        fees: RecommendedFees,
        min_fee: FeeRate,
        next_block_hash: u64,
        prefix_to_idx: PrefixIndex,
    ) -> (s: Self)
        requires
            forall|p: TxidPrefix| #[trigger] prefix_to_idx@.contains_key(p) ==> prefix_to_idx@[p] < txs@.len(),
        ensures
            s.wf(),
            s.txs == txs,
            s.blocks == blocks,
            s.block_stats == block_stats,
            s.fees == fees,
            s.min_fee == min_fee,
            s.next_block_hash == next_block_hash,
            s.index() == prefix_to_idx@,
    {
        Snapshot { txs, blocks, block_stats, fees, min_fee, next_block_hash, prefix_to_idx }
    }

    /// The empty projection: no transactions, no blocks.
    pub fn empty() -> (s: Self)
        ensures
            s.wf(),
            s.txs_seq().len() == 0,
            s.blocks_seq().len() == 0,
            s.index().dom() == Set::<TxidPrefix>::empty(),
    {
        Snapshot {
            txs: Vec::new(),
            blocks: Vec::new(),
            block_stats: Vec::new(),
            fees: RecommendedFees {
                fastest_fee: 0,
                half_hour_fee: 0,
                hour_fee: 0,
                economy_fee: 0,
                minimum_fee: 0,
            },
            min_fee: FeeRate { fee: 0, vsize: 0 },
            next_block_hash: 0,
            prefix_to_idx: prefix_index_new(),
        }
    }

    /// A snapshot holding just `(prefix, chunk_rate, txid)` entries, one
    /// slot each, with no blocks.
    pub fn for_test_with_chunk_rates(entries: &[(TxidPrefix, FeeRate, Txid)]) -> (s: Self)
        ensures
            s.wf(),
            s.txs_seq().len() == entries@.len(),
            forall|i: int|
                0 <= i < entries@.len() ==> (#[trigger] s.txs_seq()[i]).txid == entries@[i].2
                    && s.txs_seq()[i].chunk_rate == entries@[i].1,
            forall|p: TxidPrefix|
                #[trigger] s.index().contains_key(p) <==> exists|i: int|
                    0 <= i < entries@.len() && entries@[i].0 == p,
            forall|p: TxidPrefix|
                #[trigger] s.index().contains_key(p) ==> entries@[s.index()[p] as int].0 == p,
    {
        let mut s = Self::empty();
        let mut i: usize = 0;
        while i < entries.len()
            invariant
                i <= entries@.len(),
                s.txs_seq().len() == i,
                s.wf(),
                forall|k: int|
                    0 <= k < i ==> (#[trigger] s.txs_seq()[k]).txid == entries@[k].2
                        && s.txs_seq()[k].chunk_rate == entries@[k].1,
                forall|p: TxidPrefix|
                    #[trigger] s.index().contains_key(p) <==> exists|k: int|
                        0 <= k < i && entries@[k].0 == p,
                forall|p: TxidPrefix|
                    #[trigger] s.index().contains_key(p) ==> entries@[s.index()[p] as int].0 == p,
            decreases entries.len() - i,
        {
            let (prefix, rate, txid) = entries[i];
            let ghost idx0 = s.index();
            let ghost len0 = s.txs_seq().len();
            prefix_index_insert(&mut s.prefix_to_idx, prefix, i);
            s.txs.push(
                SnapTx {
                    txid,
                    fee: 0,
                    vsize: 0,
                    weight: 0,
                    size: 0,
                    chunk_rate: rate,
                    parents: Vec::new(),
                    children: Vec::new(),
                },
            );
            proof {
                assert(s.index() == idx0.insert(prefix, i));
                assert(s.txs_seq().len() == len0 + 1);
                assert forall|p: TxidPrefix| #[trigger] s.index().contains_key(p) implies s.index()[p]
                    < s.txs_seq().len() by {
                    if p != prefix {
                        assert(idx0.contains_key(p));
                    }
                }
                assert forall|p: TxidPrefix| #[trigger] s.index().contains_key(p) <==> exists|k: int|
                    0 <= k < i + 1 && entries@[k].0 == p by {
                    if p == prefix {
                        assert(entries@[i as int].0 == p);
                    } else {
                        if idx0.contains_key(p) {
                            let k = choose|k: int| 0 <= k < i && entries@[k].0 == p;
                            assert(0 <= k < i + 1 && entries@[k].0 == p);
                        }
                        if exists|k: int| 0 <= k < i + 1 && entries@[k].0 == p {
                            let k = choose|k: int| 0 <= k < i + 1 && entries@[k].0 == p;
                            assert(k != i);
                            assert(exists|k2: int| 0 <= k2 < i && entries@[k2].0 == p);
                        }
                    }
                }
                assert forall|k: int|
                    0 <= k < i + 1 implies (#[trigger] s.txs_seq()[k]).txid == entries@[k].2
                        && s.txs_seq()[k].chunk_rate == entries@[k].1 by {
                    if k == i {
                        assert(entries@[k] == (prefix, rate, txid));
                    }
                }
            }
            i += 1;
        }
        s
    }

    pub fn tx(&self, idx: TxIndex) -> (r: Option<&SnapTx>)
        ensures
            r == (if idx < self.txs_seq().len() {
                Some(&self.txs_seq()[idx as int])
            } else {
                None
            }),
    {
        if idx < self.txs.len() {
            Some(&self.txs[idx])
        } else {
            None
        }
    }

    pub fn idx_of(&self, prefix: &TxidPrefix) -> (r: Option<TxIndex>)
        ensures
            r == (if self.index().contains_key(*prefix) {
                Some(self.index()[*prefix])
            } else {
                None
            }),
    {
        prefix_index_get(&self.prefix_to_idx, prefix)
    }

    /// Linearized chunk rate of a live tx by prefix.
    pub fn chunk_rate_for(&self, prefix: &TxidPrefix) -> (r: Option<FeeRate>)
        requires
            self.wf(),
        ensures
            r == (if self.index().contains_key(*prefix) {
                Some(self.txs_seq()[self.index()[*prefix] as int].chunk_rate)
            } else {
                None
            }),
    {
        match self.idx_of(prefix) {
            Some(i) => Some(self.txs[i].chunk_rate),
            None => None,
        }
    }

    /// Txids of block 0 (the node's template), in template order. Every
    /// slot of block 0 must exist.
    pub fn block0_txids(&self) -> (r: Vec<Txid>)
        requires
            self.blocks_seq().len() > 0 ==> forall|k: int|
                0 <= k < self.blocks_seq()[0]@.len() ==> #[trigger] self.blocks_seq()[0]@[k] < self.txs_seq().len(),
        ensures
            r@ == block0_of(self.txs_seq(), self.blocks_seq()),
    {
        let mut out: Vec<Txid> = Vec::new();
        if self.blocks.len() == 0 {
            return out;
        }
        let block = &self.blocks[0];
        let mut k: usize = 0;
        while k < block.len()
            invariant
                self.blocks_seq().len() > 0,
                *block == self.blocks_seq()[0],
                forall|j: int| 0 <= j < block@.len() ==> #[trigger] block@[j] < self.txs_seq().len(),
                k <= block@.len(),
                out@ == block@.take(k as int).map_values(|i: TxIndex| self.txs_seq()[i as int].txid),
            decreases block.len() - k,
        {
            out.push(self.txs[block[k]].txid);
            assert(block@.take(k + 1) =~= block@.take(k as int).push(block@[k as int]));
            k += 1;
        }
        assert(block@.take(block@.len() as int) =~= block@);
        out
    }
}

/// Txids of `block` mapped through the snapshot's slots.
fn txids_of_block(block: &Vec<TxIndex>, txs: &[SnapTx]) -> (r: Vec<Txid>)
    requires
        forall|k: int| 0 <= k < block@.len() ==> #[trigger] block@[k] < txs@.len(),
    ensures
        r@ == block@.map_values(|i: TxIndex| txs@[i as int].txid),
{
    let mut out: Vec<Txid> = Vec::new();
    let mut k: usize = 0;
    while k < block.len()
        invariant
            forall|j: int| 0 <= j < block@.len() ==> #[trigger] block@[j] < txs@.len(),
            k <= block@.len(),
            out@ == block@.take(k as int).map_values(|i: TxIndex| txs@[i as int].txid),
        decreases block.len() - k,
    {
        out.push(txs[block[k]].txid);
        assert(block@.take(k + 1) =~= block@.take(k as int).push(block@[k as int]));
        k += 1;
    }
    assert(block@.take(block@.len() as int) =~= block@);
    out
}

impl Snapshot {
    /// Content tag of the projected next block: the Fx hash of block 0's
    /// txids in template order (txids, not slots, since slots are
    /// reassigned every cycle), or 0 without blocks.
    pub fn hash_next_block(blocks: &[Vec<TxIndex>], txs: &[SnapTx]) -> (r: u64)
        requires
            blocks@.len() > 0 ==> forall|k: int|
                0 <= k < blocks@[0]@.len() ==> #[trigger] blocks@[0]@[k] < txs@.len(),
        ensures
            blocks@.len() == 0 ==> r == 0,
            blocks@.len() > 0 ==> r == fx_txids_hash(block0_of(txs@, blocks@)),
    {
        if blocks.len() == 0 {
            return 0;
        }
        let txids = txids_of_block(&blocks[0], txs);
        fx_hash_txids(&txids)
    }
}

/// Txids of the first block, in order (empty without blocks).
pub open spec fn block0_of(txs: Seq<SnapTx>, blocks: Seq<Vec<TxIndex>>) -> Seq<Txid> {
    if blocks.len() == 0 {
        Seq::empty()
    } else {
        blocks[0]@.map_values(|i: TxIndex| txs[i as int].txid)
    }
}

} // verus!
