use std::cmp::Ordering;

use vstd::prelude::*;

use crate::snapshot::{SnapTx, TxIndex};
use crate::types::{bytes_lt_from, rate_eq, rate_gt, txid_lt, FeeRate, Txid};

verus! {

/// A transaction competing for a projected block: its snapshot index,
/// vsize, chunk rate and txid.
#[derive(Debug, Clone, Copy)]
pub struct Candidate {
    pub idx: usize,
    pub vsize: u64,
    pub rate: FeeRate,
    pub txid: Txid,
}

/// `a` packs before `b`: higher chunk rate first, ties broken by
/// ascending txid.
pub open spec fn cand_before(a: Candidate, b: Candidate) -> bool {
    rate_gt(a.rate, b.rate) || (rate_eq(a.rate, b.rate) && txid_lt(a.txid, b.txid))
}

proof fn lemma_bytes_lt_step(a: [u8; 32], b: [u8; 32], k: int)
    requires
        0 <= k < 32,
        forall|j: int| 0 <= j < k ==> a[j] == b[j],
    ensures
        bytes_lt_from(a, b, 0) == bytes_lt_from(a, b, k),
    decreases k,
{
    if k > 0 {
        lemma_bytes_lt_step(a, b, k - 1);
    }
}

proof fn lemma_bytes_lt_at(a: [u8; 32], b: [u8; 32], k: usize)
    requires
        k < 32,
        forall|j: int| 0 <= j < k ==> a[j] == b[j],
    ensures
        bytes_lt_from(a, b, 0) == bytes_lt_from(a, b, k as int),
        bytes_lt_from(b, a, 0) == bytes_lt_from(b, a, k as int),
{
    lemma_bytes_lt_step(a, b, k as int);
    lemma_bytes_lt_step(b, a, k as int);
}

/// Byte-lexicographic order of two txids.
pub fn txid_order(a: &Txid, b: &Txid) -> (r: Ordering)
    ensures
        (r == Ordering::Less) == txid_lt(*a, *b),
        (r == Ordering::Greater) == txid_lt(*b, *a),
        (r == Ordering::Equal) == (a.0@ == b.0@),
{
    let mut k: usize = 0;
    while k < 32
        invariant
            k <= 32,
            forall|j: int| 0 <= j < k ==> a.0[j] == b.0[j],
        decreases 32 - k,
    {
        if a.0[k] < b.0[k] {
            proof {
                lemma_bytes_lt_at(a.0, b.0, k);
            }
            return Ordering::Less;
        }
        if a.0[k] > b.0[k] {
            proof {
                lemma_bytes_lt_at(a.0, b.0, k);
            }
            return Ordering::Greater;
        }
        k += 1;
    }
    proof {
        assert(a.0@ =~= b.0@);
        lemma_bytes_lt_equal(a.0, b.0, 0);
        lemma_bytes_lt_equal(b.0, a.0, 0);
    }
    Ordering::Equal
}

proof fn lemma_bytes_lt_equal(a: [u8; 32], b: [u8; 32], k: int)
    requires
        0 <= k,
        forall|j: int| 0 <= j < 32 ==> a[j] == b[j],
    ensures
        !bytes_lt_from(a, b, k),
    decreases 32 - k,
{
    if k < 32 {
        lemma_bytes_lt_equal(a, b, k + 1);
    }
}

/// Packing order of two candidates: `Less` when `a` packs first.
pub fn candidate_order(a: &Candidate, b: &Candidate) -> (r: Ordering)
    ensures
        (r == Ordering::Less) == cand_before(*a, *b),
        (r == Ordering::Greater) == cand_before(*b, *a),
{
    if a.rate.gt(&b.rate) {
        return Ordering::Less;
    }
    if b.rate.gt(&a.rate) {
        return Ordering::Greater;
    }
    proof {
        assert(rate_eq(a.rate, b.rate));
        assert(rate_eq(b.rate, a.rate));
    }
    txid_order(&a.txid, &b.txid)
}

/// Packing order of snapshot entries `a` and `b`.
pub fn index_order(txs: &[SnapTx], a: TxIndex, b: TxIndex) -> (r: Ordering)
    requires
        a < txs@.len(),
        b < txs@.len(),
    ensures
        (r == Ordering::Less) == cand_before(candidate_at(txs@, a), candidate_at(txs@, b)),
        (r == Ordering::Greater) == cand_before(candidate_at(txs@, b), candidate_at(txs@, a)),
{
    let ca = Candidate { idx: a, vsize: txs[a].vsize, rate: txs[a].chunk_rate, txid: txs[a].txid };
    let cb = Candidate { idx: b, vsize: txs[b].vsize, rate: txs[b].chunk_rate, txid: txs[b].txid };
    candidate_order(&ca, &cb)
}

pub open spec fn candidate_at(txs: Seq<SnapTx>, i: TxIndex) -> Candidate {
    Candidate { idx: i, vsize: txs[i as int].vsize, rate: txs[i as int].chunk_rate, txid: txs[i as int].txid }
}

/// Sorts snapshot indices into packing order with
/// `slice::sort_unstable_by`, comparing with [`index_order`].
///
/// Trusted: std documents that the slice ends up sorted by the comparison
/// when it is a total order, which it is here since every chunk vsize is
/// positive. The result is a permutation of the input, and no later index
/// packs strictly before an earlier one.
#[verifier::external_body]
pub(crate) fn sort_by_packing_order(txs: &[SnapTx], order: &mut Vec<TxIndex>)
    requires
        forall|i: int| 0 <= i < old(order)@.len() ==> (#[trigger] old(order)@[i]) < txs@.len(),
        forall|i: int| 0 <= i < txs@.len() ==> (#[trigger] txs@[i]).chunk_rate.vsize > 0,
    ensures
        final(order)@.to_multiset() == old(order)@.to_multiset(),
        final(order)@.len() == old(order)@.len(),
        forall|i: int, j: int|
            0 <= i < j < final(order)@.len() ==> !cand_before(
                candidate_at(txs@, #[trigger] final(order)@[j]),
                candidate_at(txs@, #[trigger] final(order)@[i]),
            ),
{
    order.sort_unstable_by(|a, b| index_order(txs, *a, *b));
}

} // verus!
