use brk_core::{
    AddedKind, FeeRate, MempoolEntryInfo, Preparer, State, Transaction, TxAddition, TxEntry,
    TxIn, TxOut, TxRemoval, Txid, TxidMap,
};

fn fake_txid(seed: u8) -> Txid {
    let mut bytes = [0u8; 32];
    bytes[0] = seed;
    Txid(bytes)
}

fn p2wpkh_script(n: u8) -> Vec<u8> {
    let mut script = vec![0x00, 0x14];
    script.extend_from_slice(&[n; 20]);
    script
}

fn fake_tx(seed: u8, prevouts: &[Option<TxOut>], outputs: &[(Vec<u8>, u64)]) -> Transaction {
    Transaction {
        txid: fake_txid(seed),
        version: 2,
        lock_time: 0,
        input: prevouts
            .iter()
            .enumerate()
            .map(|(i, prevout)| TxIn {
                txid: fake_txid(seed.wrapping_add(0x80)),
                vout: i as u32,
                prevout: prevout.clone(),
                is_coinbase: false,
                sequence: 0xffff_fffd,
            })
            .collect(),
        output: outputs
            .iter()
            .map(|(script, value)| TxOut { script_pubkey: script.clone(), value: *value })
            .collect(),
        total_size: 200,
        weight: 800,
        total_sigop_cost: 0,
        fee: 0,
    }
}


fn fake_entry_info(txid: Txid, fee: u64, vsize: u64) -> MempoolEntryInfo {
    MempoolEntryInfo {
        txid,
        vsize,
        weight: vsize * 4,
        fee,
        first_seen: 0,
        depends: vec![],
    }
}

fn seed_known(state: &mut State, txid: Txid) {
    let mut tx = fake_tx(0xA0, &[None], &[(p2wpkh_script(50), 5_000)]);
    tx.txid = txid;
    for input in tx.input.iter_mut() {
        input.prevout = Some(TxOut { script_pubkey: p2wpkh_script(51), value: 1_000 });
    }
    let info = fake_entry_info(txid, 1_000, 100);
    let entry = TxEntry::new(&info, 100, false);
    state.txs.insert(tx, entry);
}

fn seed_graveyard(state: &mut State, txid: Txid) {
    let mut tx = fake_tx(0xB0, &[None], &[(p2wpkh_script(60), 5_000)]);
    tx.txid = txid;
    let info = fake_entry_info(txid, 500, 100);
    let entry = TxEntry::new(&info, 100, false);
    let rate = FeeRate::new(500, 100);
    state.graveyard.bury(tx, entry, rate, TxRemoval::Vanished);
}

/// A fetched transaction spending output 0 of `spent`.
fn raw_spending(txid: Txid, spent: Txid, value: u64) -> Transaction {
    let mut tx = fake_tx(txid.0[0], &[None], &[(p2wpkh_script(7), value)]);
    tx.txid = txid;
    tx.input[0].txid = spent;
    tx.input[0].vout = 0;
    tx
}

#[test]
fn classify_addition_skips_already_known() {
    let mut state = State::new();
    let known_txid = fake_txid(0x10);
    seed_known(&mut state, known_txid);

    let info = fake_entry_info(known_txid, 100, 100);
    let mut new_txs: TxidMap<Transaction> = TxidMap::default();
    new_txs.insert(known_txid, raw_spending(known_txid, fake_txid(0x11), 1_234));

    let pulled = Preparer::prepare(&[known_txid], vec![info], new_txs, &state);
    assert!(pulled.added.is_empty(), "known tx must be filtered out");
    assert!(pulled.removed.is_empty(), "still live, nothing removed");
}

#[test]
fn classify_addition_emits_revived_for_graveyard_hit() {
    let mut state = State::new();
    let txid = fake_txid(0x20);
    seed_graveyard(&mut state, txid);

    let info = fake_entry_info(txid, 100, 100);
    let pulled = Preparer::prepare(&[txid], vec![info], TxidMap::default(), &state);

    assert_eq!(pulled.added.len(), 1);
    assert!(matches!(pulled.added[0].kind(), AddedKind::Revived));
}

#[test]
fn classify_addition_emits_fresh_with_raw_payload() {
    let state = State::new();
    let txid = fake_txid(0x30);
    let info = fake_entry_info(txid, 200, 120);
    let mut new_txs: TxidMap<Transaction> = TxidMap::default();
    new_txs.insert(txid, raw_spending(txid, fake_txid(0x31), 2_345));

    let pulled = Preparer::prepare(&[txid], vec![info], new_txs, &state);
    assert_eq!(pulled.added.len(), 1);
    assert!(matches!(pulled.added[0].kind(), AddedKind::Fresh));
}

#[test]
fn classify_addition_drops_entry_with_no_raw_and_no_graveyard() {
    let state = State::new();
    let txid = fake_txid(0x40);
    let info = fake_entry_info(txid, 100, 100);

    let pulled = Preparer::prepare(&[txid], vec![info], TxidMap::default(), &state);
    assert!(pulled.added.is_empty(), "no payload, no tomb -> filtered");
}

#[test]
fn classify_removal_marks_replaced_when_outpoint_is_spent_by_new_tx() {
    let mut state = State::new();
    let parent_txid = fake_txid(0x50);
    let loser_txid = fake_txid(0x51);
    let replacer_txid = fake_txid(0x52);
    {
        let prev = Some(TxOut { script_pubkey: p2wpkh_script(80), value: 10_000 });
        let mut tx = fake_tx(0x51, &[prev], &[(p2wpkh_script(81), 5_000)]);
        tx.txid = loser_txid;
        tx.input[0].txid = parent_txid;
        tx.input[0].vout = 0;
        let info = fake_entry_info(loser_txid, 100, 100);
        let entry = TxEntry::new(&info, 100, false);
        state.txs.insert(tx, entry);
    }

    let info = fake_entry_info(replacer_txid, 200, 120);
    let mut new_txs: TxidMap<Transaction> = TxidMap::default();
    new_txs.insert(replacer_txid, raw_spending(replacer_txid, parent_txid, 4_321));

    let pulled = Preparer::prepare(&[replacer_txid], vec![info], new_txs, &state);
    assert_eq!(pulled.removed.len(), 1);
    let (_, reason) = pulled.removed[0];
    match reason {
        TxRemoval::Replaced { by } => assert_eq!(by, replacer_txid),
        TxRemoval::Vanished => panic!("expected Replaced, got Vanished"),
    }
}

#[test]
fn classify_removal_marks_vanished_when_no_new_tx_spends_outpoint() {
    let mut state = State::new();
    let gone_txid = fake_txid(0x60);
    {
        let prev = Some(TxOut { script_pubkey: p2wpkh_script(90), value: 10_000 });
        let mut tx = fake_tx(0x60, &[prev], &[(p2wpkh_script(91), 6_000)]);
        tx.txid = gone_txid;
        tx.input[0].txid = fake_txid(0xAA);
        let info = fake_entry_info(gone_txid, 100, 100);
        let entry = TxEntry::new(&info, 100, false);
        state.txs.insert(tx, entry);
    }

    let pulled = Preparer::prepare(&[], vec![], TxidMap::default(), &state);
    assert_eq!(pulled.removed.len(), 1);
    assert!(matches!(pulled.removed[0].1, TxRemoval::Vanished));
}

#[test]
fn fresh_resolves_prevout_from_same_cycle_mempool_parent() {
    let mut state = State::new();
    let parent_txid = fake_txid(0x70);
    let child_txid = fake_txid(0x71);
    {
        let mut parent = fake_tx(0x70, &[], &[(p2wpkh_script(100), 7_777)]);
        parent.txid = parent_txid;
        parent.input.clear();
        let info = fake_entry_info(parent_txid, 100, 80);
        let entry = TxEntry::new(&info, 80, false);
        state.txs.insert(parent, entry);
    }

    let info = fake_entry_info(child_txid, 200, 120);
    let mut new_txs: TxidMap<Transaction> = TxidMap::default();
    new_txs.insert(child_txid, raw_spending(child_txid, parent_txid, 6_000));

    let pulled = Preparer::prepare(&[parent_txid, child_txid], vec![info], new_txs, &state);
    let TxAddition::Fresh { tx, .. } = &pulled.added[0] else {
        panic!("expected Fresh classification");
    };
    let prevout = tx.input[0]
        .prevout
        .as_ref()
        .expect("parent in same-cycle pool must resolve");
    assert_eq!(prevout.value, 7_777);
    assert!(pulled.removed.is_empty());
}

#[test]
fn live_len_counts_distinct_prefixes() {
    let state = State::new();
    let a = fake_txid(0x01);
    let pulled = Preparer::prepare(&[a, a, fake_txid(0x02)], vec![], TxidMap::default(), &state);
    assert_eq!(pulled.live_len, 2);
}

#[test]
fn fresh_entry_signals_rbf_from_input_sequences() {
    let state = State::new();
    let txid = fake_txid(0x75);
    let mut raw = raw_spending(txid, fake_txid(0x76), 1_000);
    raw.input[0].sequence = 0xffff_ffff;
    let mut new_txs: TxidMap<Transaction> = TxidMap::default();
    new_txs.insert(txid, raw);
    let pulled = Preparer::prepare(&[txid], vec![fake_entry_info(txid, 10, 10)], new_txs, &state);
    let TxAddition::Fresh { entry, .. } = &pulled.added[0] else {
        panic!("expected Fresh classification");
    };
    assert!(!entry.rbf);
}
