use brk_core::{addr_balances, AddrChainData, AddrError, AddrMempoolSums};

fn data() -> AddrChainData {
    AddrChainData { received: 10_000, sent: 4_000, funded_txo_count: 3, spent_txo_count: 1, tx_count: 4 }
}

#[test]
fn addr_balances_adds_pending_funding_and_takes_pending_spends() {
    let mempool = AddrMempoolSums { funded_txo_sum: 500, spent_txo_sum: 2_000 };
    let r = addr_balances(7, 8, data(), mempool).unwrap();
    assert_eq!(r.chain_stats.balance, 6_000);
    assert_eq!(r.chain_stats.type_index, 7);
    assert_eq!(r.chain_stats.funded_txo_sum, 10_000);
    assert_eq!(r.chain_stats.spent_txo_sum, 4_000);
    assert_eq!(r.chain_stats.tx_count, 4);
    assert_eq!(r.balance, 4_500);
    assert_eq!(r.mempool, mempool);
}

#[test]
fn addr_balances_rejects_an_index_past_the_safe_length() {
    let mempool = AddrMempoolSums { funded_txo_sum: 0, spent_txo_sum: 0 };
    assert_eq!(addr_balances(8, 8, data(), mempool), Err(AddrError::UnknownAddr));
    assert_eq!(addr_balances(0, 0, data(), mempool), Err(AddrError::UnknownAddr));
}
