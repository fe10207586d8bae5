//! Spend status of transaction outputs, from what the chain indexes and
//! the live pool report about the spender.
use vstd::prelude::*;

use crate::types::Txid;

verus! {

/// Where a transaction stands: confirmed in a block, or still in the pool.
#[derive(Debug, Clone, Copy)]
pub struct TxStatus {
    pub confirmed: bool,
    pub block_height: Option<u32>,
    pub block_hash: Option<[u8; 32]>,
    pub block_time: Option<u64>,
}

/// Spend status of one output: the spending tx and input, and that tx's
/// status, when spent.
#[derive(Debug, Clone, Copy)]
pub struct TxOutspend {
    pub spent: bool,
    pub txid: Option<Txid>,
    pub vin: Option<u64>,
    pub status: Option<TxStatus>,
}

/// The confirmed spender of an output, as the chain indexes give it.
#[derive(Debug, Clone, Copy)]
pub struct SpendInfo {
    /// Index of the spending transaction.
    pub tx_index: u64,
    /// Global index of the spending transaction's first input.
    pub first_txin: u64,
    pub txid: Txid,
    pub height: u32,
    pub block_hash: [u8; 32],
    pub block_time: u64,
}

/// An unspent output.
pub open spec fn unspent_spec() -> TxOutspend {
    TxOutspend { spent: false, txid: None, vin: None, status: None }
}

/// Status of a transaction still in the pool.
pub open spec fn unconfirmed_spec() -> TxStatus {
    TxStatus { confirmed: false, block_height: None, block_hash: None, block_time: None }
}

impl TxOutspend {
    pub fn unspent() -> (r: Self)
        ensures
            r == unspent_spec(),
    {
        TxOutspend { spent: false, txid: None, vin: None, status: None }
    }
}

/// Spend status from the pool's spender lookup: spent by `(txid, vin)`
/// with an unconfirmed status, or unspent when the pool has no spender.
pub fn mempool_outspend(spender: Option<(Txid, u64)>) -> (r: TxOutspend)
    ensures
        r == match spender {
            Some((txid, vin)) => TxOutspend {
                spent: true,
                txid: Some(txid),
                vin: Some(vin),
                status: Some(unconfirmed_spec()),
            },
            None => unspent_spec(),
        },
{
    match spender {
        Some((txid, vin)) => TxOutspend {
            spent: true,
            txid: Some(txid),
            vin: Some(vin),
            status: Some(TxStatus { confirmed: false, block_height: None, block_hash: None, block_time: None }),
        },
        None => TxOutspend::unspent(),
    }
}

/// Confirmed spend status of the output spent by input `txin_index`:
/// unspent when no input spends it (`spending` is `None`) or the spender
/// lies at or past the indexed bound `bound_tx_index`; otherwise spent by
/// the spender's txid at input `txin_index - first_txin`, confirmed at the
/// spender's height, block hash and time.
pub fn outspend_of(txin_index: u64, spending: Option<SpendInfo>, bound_tx_index: u64) -> (r: TxOutspend)
    requires
        spending matches Some(s) ==> s.first_txin <= txin_index,
    ensures
        r == match spending {
            None => unspent_spec(),
            Some(s) => if s.tx_index >= bound_tx_index {
                unspent_spec()
            } else {
                TxOutspend {
                    spent: true,
                    txid: Some(s.txid),
                    vin: Some((txin_index - s.first_txin) as u64),
                    status: Some(
                        TxStatus {
                            confirmed: true,
                            block_height: Some(s.height),
                            block_hash: Some(s.block_hash),
                            block_time: Some(s.block_time),
                        },
                    ),
                }
            },
        },
{
    match spending {
        None => TxOutspend::unspent(),
        Some(s) => {
            if s.tx_index >= bound_tx_index {
                TxOutspend::unspent()
            } else {
                TxOutspend {
                    spent: true,
                    txid: Some(s.txid),
                    vin: Some(txin_index - s.first_txin),
                    status: Some(
                        TxStatus {
                            confirmed: true,
                            block_height: Some(s.height),
                            block_hash: Some(s.block_hash),
                            block_time: Some(s.block_time),
                        },
                    ),
                }
            }
        },
    }
}

/// Overlays the pool's spend statuses on the outputs the chain reports
/// unspent: each output not spent on chain takes the pool's status at
/// the same position; spent ones stay.
pub fn merge_outspends(outspends: &mut Vec<TxOutspend>, pool: &Vec<TxOutspend>)
    requires
        old(outspends)@.len() == pool@.len(),
    ensures
        final(outspends)@.len() == old(outspends)@.len(),
        forall|i: int|
            0 <= i < old(outspends)@.len() ==> #[trigger] final(outspends)@[i] == if old(outspends)@[i].spent {
                old(outspends)@[i]
            } else {
                pool@[i]
            },
{
    let ghost before = outspends@;
    let mut i: usize = 0;
    while i < outspends.len()
        invariant
            before.len() == pool@.len(),
            outspends@.len() == before.len(),
            i <= before.len(),
            forall|j: int| 0 <= j < i ==> #[trigger] outspends@[j] == if before[j].spent {
                before[j]
            } else {
                pool@[j]
            },
            forall|j: int| i <= j < before.len() ==> #[trigger] outspends@[j] == before[j],
        decreases before.len() - i,
    {
        if !outspends[i].spent {
            outspends.set(i, pool[i]);
        }
        i += 1;
    }
}

} // verus!
