use brk_core::{merge_outspends, mempool_outspend, outspend_of, SpendInfo, TxOutspend, Txid};

fn txid(seed: u8) -> Txid {
    let mut bytes = [0u8; 32];
    bytes[0] = seed;
    Txid(bytes)
}

fn spender(tx_index: u64, first_txin: u64) -> SpendInfo {
    SpendInfo { tx_index, first_txin, txid: txid(7), height: 840_000, block_hash: [9; 32], block_time: 1_700_000_000 }
}

#[test]
fn confirmed_spender_gives_its_input_position_and_block() {
    let r = outspend_of(1_005, Some(spender(40, 1_000)), 100);
    assert!(r.spent);
    assert_eq!(r.txid, Some(txid(7)));
    assert_eq!(r.vin, Some(5));
    let status = r.status.unwrap();
    assert!(status.confirmed);
    assert_eq!(status.block_height, Some(840_000));
    assert_eq!(status.block_hash, Some([9; 32]));
    assert_eq!(status.block_time, Some(1_700_000_000));
}

#[test]
fn no_spender_or_one_past_the_bound_is_unspent() {
    let none = outspend_of(12, None, 100);
    assert!(!none.spent && none.txid.is_none() && none.vin.is_none() && none.status.is_none());
    let past = outspend_of(1_005, Some(spender(100, 1_000)), 100);
    assert!(!past.spent && past.txid.is_none() && past.status.is_none());
}

#[test]
fn pool_spender_is_unconfirmed() {
    let r = mempool_outspend(Some((txid(3), 2)));
    assert!(r.spent);
    assert_eq!(r.txid, Some(txid(3)));
    assert_eq!(r.vin, Some(2));
    assert!(!r.status.unwrap().confirmed);
    assert!(!mempool_outspend(None).spent);
}

#[test]
fn pool_statuses_fill_only_the_outputs_unspent_on_chain() {
    let confirmed = outspend_of(1_001, Some(spender(40, 1_000)), 100);
    let mut outspends = vec![confirmed, TxOutspend::unspent(), TxOutspend::unspent()];
    let pool = vec![
        mempool_outspend(Some((txid(4), 0))),
        mempool_outspend(Some((txid(5), 1))),
        mempool_outspend(None),
    ];
    merge_outspends(&mut outspends, &pool);
    assert_eq!(outspends[0].txid, Some(txid(7)));
    assert_eq!(outspends[1].txid, Some(txid(5)));
    assert!(!outspends[1].status.unwrap().confirmed);
    assert!(!outspends[2].spent);
}
