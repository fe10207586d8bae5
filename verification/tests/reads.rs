use brk_core::{
    live_effective_fee_rate, transaction_times_hash, FeeRate, MempoolEntryInfo, Snapshot, State,
    Transaction, TxEntry, TxIn, TxOut, TxRemoval, Txid,
};

fn txid(seed: u8) -> Txid {
    let mut bytes = [0u8; 32];
    bytes[0] = seed;
    Txid(bytes)
}

fn fake_tx(seed: u8) -> Transaction {
    Transaction {
        txid: txid(seed),
        version: 2,
        lock_time: 0,
        input: vec![TxIn {
            txid: txid(seed.wrapping_add(0x80)),
            vout: 0,
            prevout: None,
            is_coinbase: false,
            sequence: 0xffff_fffd,
        }],
        output: vec![TxOut { script_pubkey: vec![0x51], value: 1_000 }],
        total_size: 200,
        weight: 800,
        total_sigop_cost: 0,
        fee: 0,
    }
}

fn entry(t: Txid, fee: u64, vsize: u64, first_seen: u64) -> TxEntry {
    let info = MempoolEntryInfo { txid: t, vsize, weight: vsize * 4, fee, first_seen, depends: vec![] };
    TxEntry::new(&info, vsize, false)
}

#[test]
fn transaction_times_hash_includes_order_and_length() {
    assert_ne!(transaction_times_hash(&[1, 2]), transaction_times_hash(&[2, 1]));
    assert_ne!(transaction_times_hash(&[1]), transaction_times_hash(&[1, 0]));
    assert_eq!(transaction_times_hash(&[1, 2]), transaction_times_hash(&[1, 2]));
}

#[test]
fn transaction_times_fall_back_to_vanished_tombstones_only() {
    let mut state = State::new();
    state.txs.insert(fake_tx(1), entry(txid(1), 100, 100, 111));
    state.graveyard.bury(fake_tx(2), entry(txid(2), 100, 100, 222), FeeRate::new(1, 1), TxRemoval::Vanished);
    state.graveyard.bury(
        fake_tx(3),
        entry(txid(3), 100, 100, 333),
        FeeRate::new(1, 1),
        TxRemoval::Replaced { by: txid(4) },
    );
    let txids = [txid(3), txid(2), txid(1), txid(9)];
    assert_eq!(state.transaction_times_for(&txids), vec![0, 222, 111, 0]);
    let (times, hash) = state.transaction_times_with_hash(&txids);
    assert_eq!(times, vec![0, 222, 111, 0]);
    assert_eq!(hash, transaction_times_hash(&[0, 222, 111, 0]));
    assert_eq!(state.first_seen(&txid(2)), Some(222));
    assert_eq!(state.first_seen(&txid(3)), None);
}

#[test]
fn graveyard_fee_rate_is_the_rate_captured_at_burial() {
    let mut state = State::new();
    state.graveyard.bury(fake_tx(2), entry(txid(2), 100, 100, 0), FeeRate::new(500, 100), TxRemoval::Vanished);
    assert_eq!(state.graveyard_fee_rate(&txid(2)), Some(FeeRate::new(500, 100)));
    assert_eq!(state.graveyard_fee_rate(&txid(5)), None);
}

#[test]
fn live_effective_fee_rate_prefers_the_snapshot_chunk_rate() {
    let mut state = State::new();
    state.txs.insert(fake_tx(1), entry(txid(1), 100, 100, 0));
    state.txs.insert(fake_tx(2), entry(txid(2), 300, 100, 0));
    let snapshot =
        Snapshot::for_test_with_chunk_rates(&[(txid(1).prefix(), FeeRate::new(900, 200), txid(1))]);
    assert_eq!(live_effective_fee_rate(&snapshot, &state, &txid(1)), Some(FeeRate::new(900, 200)));
    assert_eq!(live_effective_fee_rate(&snapshot, &state, &txid(2)), Some(FeeRate::new(300, 100)));
    assert_eq!(live_effective_fee_rate(&snapshot, &state, &txid(3)), None);
}
