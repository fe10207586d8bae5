use vstd::prelude::*;

verus! {

/// Why an address lookup failed.
#[derive(Debug, Clone, Copy, PartialEq, Eq, Structural)]
pub enum AddrError {
    /// The address's type index lies beyond what the indexes cover.
    UnknownAddr,
}

/// What the chain tables hold for one address (amounts in sats).
#[derive(Debug, Clone, Copy, PartialEq, Eq, Structural)]
pub struct AddrChainData {
    pub received: u64,
    pub sent: u64,
    pub funded_txo_count: u64,
    pub spent_txo_count: u64,
    pub tx_count: u64,
}

/// The mempool's pending sums for one address (sats).
#[derive(Debug, Clone, Copy, PartialEq, Eq, Structural)]
pub struct AddrMempoolSums {
    pub funded_txo_sum: u64,
    pub spent_txo_sum: u64,
}

/// Confirmed activity of one address.
#[derive(Debug, Clone, Copy, PartialEq, Eq, Structural)]
pub struct AddrChainStats {
    pub balance: u64,
    pub type_index: u32,
    pub funded_txo_count: u64,
    pub funded_txo_sum: u64,
    pub spent_txo_count: u64,
    pub spent_txo_sum: u64,
    pub tx_count: u64,
}

/// Confirmed activity plus the balance once pending mempool activity
/// settles.
#[derive(Debug, Clone, Copy, PartialEq, Eq, Structural)]
pub struct AddrBalances {
    pub chain_stats: AddrChainStats,
    pub mempool: AddrMempoolSums,
    pub balance: u64,
}

/// The amounts of `data` and `mempool` add up without leaving `u64`:
/// confirmed receipts cover confirmed spends, and receipts with pending
/// funding cover confirmed and pending spends.
pub open spec fn sums_fit(data: AddrChainData, mempool: AddrMempoolSums) -> bool {
    &&& data.sent <= data.received
    &&& data.received + mempool.funded_txo_sum <= u64::MAX
    &&& data.sent + mempool.spent_txo_sum <= data.received + mempool.funded_txo_sum
}

/// Statistics of the address at `type_index` among those of its type,
/// of which the indexes cover the first `safe_len`: an index at or beyond
/// that bound is an unknown address. Otherwise the confirmed balance is
/// received less sent, and the overall balance adds pending funding and
/// takes away pending spends.
pub fn addr_balances(
    type_index: u32,
    safe_len: u32,
    data: AddrChainData,
    mempool: AddrMempoolSums,
) -> (r: Result<AddrBalances, AddrError>)
    requires
        type_index < safe_len ==> sums_fit(data, mempool),
    ensures
        type_index >= safe_len <==> r == Err::<AddrBalances, AddrError>(AddrError::UnknownAddr),
        type_index < safe_len ==> r == Ok::<AddrBalances, AddrError>(
            AddrBalances {
                chain_stats: AddrChainStats {
                    balance: (data.received - data.sent) as u64,
                    type_index,
                    funded_txo_count: data.funded_txo_count,
                    funded_txo_sum: data.received,
                    spent_txo_count: data.spent_txo_count,
                    spent_txo_sum: data.sent,
                    tx_count: data.tx_count,
                },
                mempool,
                balance: (data.received + mempool.funded_txo_sum - data.sent - mempool.spent_txo_sum) as u64,
            },
        ),
{
    if type_index >= safe_len {
        return Err(AddrError::UnknownAddr);
    }
    let balance = data.received + mempool.funded_txo_sum - data.sent - mempool.spent_txo_sum;
    Ok(
        AddrBalances {
            chain_stats: AddrChainStats {
                balance: data.received - data.sent,
                type_index,
                funded_txo_count: data.funded_txo_count,
                funded_txo_sum: data.received,
                spent_txo_count: data.spent_txo_count,
                spent_txo_sum: data.sent,
                tx_count: data.tx_count,
            },
            mempool,
            balance,
        },
    )
}

} // verus!
