use brk_core::{MempoolEntryInfo, Transaction, TxEntry, TxIn, TxOut, TxStore, Txid, RECENT_CAP};

fn fake_txid(seed: u8) -> Txid {
    let mut bytes = [0u8; 32];
    bytes[0] = seed;
    Txid(bytes)
}

fn p2wpkh_script(n: u8) -> Vec<u8> {
    let mut script = vec![0x00, 0x14];
    script.extend_from_slice(&[n; 20]);
    script
}

fn fake_tx(seed: u8, prevouts: &[Option<TxOut>], outputs: &[(Vec<u8>, u64)]) -> Transaction {
    Transaction {
        txid: fake_txid(seed),
        version: 2,
        lock_time: 0,
        input: prevouts
            .iter()
            .enumerate()
            .map(|(i, prevout)| TxIn {
                txid: fake_txid(seed.wrapping_add(0x80)),
                vout: i as u32,
                prevout: prevout.clone(),
                is_coinbase: false,
                sequence: 0xffff_fffd,
            })
            .collect(),
        output: outputs
            .iter()
            .map(|(script, value)| TxOut { script_pubkey: script.clone(), value: *value })
            .collect(),
        total_size: 200,
        weight: 800,
        total_sigop_cost: 0,
        fee: 0,
    }
}

fn txout(script: Vec<u8>, value: u64) -> TxOut {
    TxOut { script_pubkey: script, value }
}

fn entry_for(tx: &Transaction, fee: u64, vsize: u64) -> TxEntry {
    let info = MempoolEntryInfo {
        txid: tx.txid,
        vsize,
        weight: vsize * 4,
        fee,
        first_seen: 0,
        depends: vec![],
    };
    TxEntry::new(&info, vsize, false)
}

fn tx_without_prevouts(seed: u8) -> Transaction {
    fake_tx(seed, &[None, None], &[(p2wpkh_script(1), 1_000)])
}

fn tx_with_prevouts(seed: u8) -> Transaction {
    let prev = Some(txout(p2wpkh_script(2), 2_000));
    fake_tx(seed, &[prev], &[(p2wpkh_script(3), 500)])
}

fn recompute_txids_hash(store: &TxStore) -> u64 {
    TxStore::txids_hash_of(&store.txids())
}

#[test]
fn insert_records_unresolved_when_prevouts_missing() {
    let mut store = TxStore::new();
    let tx = tx_without_prevouts(1);
    let entry = entry_for(&tx, 100, 100);
    let prefix = entry.txid_prefix();
    store.insert(tx, entry);

    assert!(store.unresolved().contains(&prefix));
    assert_eq!(store.len(), 1);
}

#[test]
fn insert_skips_unresolved_when_all_prevouts_present() {
    let mut store = TxStore::new();
    let tx = tx_with_prevouts(2);
    let entry = entry_for(&tx, 200, 150);
    let prefix = entry.txid_prefix();
    store.insert(tx, entry);

    assert!(!store.unresolved().contains(&prefix));
    assert_eq!(store.len(), 1);
}

#[test]
fn remove_by_prefix_clears_unresolved_and_returns_record() {
    let mut store = TxStore::new();
    let tx = tx_without_prevouts(3);
    let entry = entry_for(&tx, 300, 200);
    let prefix = entry.txid_prefix();
    store.insert(tx, entry);
    assert!(store.unresolved().contains(&prefix));

    let removed = store.remove_by_prefix(&prefix).expect("record present");
    assert_eq!(removed.entry.txid_prefix(), prefix);
    assert!(!store.unresolved().contains(&prefix));
    assert_eq!(store.len(), 0);
    assert!(store.remove_by_prefix(&prefix).is_none());
}

#[test]
fn swap_remove_preserves_remaining_lookups() {
    let mut store = TxStore::new();
    let mut prefixes = Vec::new();
    for seed in 1..=3 {
        let tx = tx_with_prevouts(seed);
        let entry = entry_for(&tx, 100, 100);
        prefixes.push(entry.txid_prefix());
        store.insert(tx, entry);
    }

    store.remove_by_prefix(&prefixes[1]).expect("middle record");

    assert!(store.record_by_prefix(&prefixes[0]).is_some());
    assert!(store.record_by_prefix(&prefixes[1]).is_none());
    assert!(store.record_by_prefix(&prefixes[2]).is_some());
}

#[test]
fn txids_hash_tracks_inserts_and_swap_removals() {
    let mut store = TxStore::new();
    let mut prefixes = Vec::new();
    assert_eq!(store.txids_hash(), recompute_txids_hash(&store));

    for seed in 4..=6 {
        let tx = tx_with_prevouts(seed);
        let entry = entry_for(&tx, 100, 100);
        prefixes.push(entry.txid_prefix());
        store.insert(tx, entry);
        assert_eq!(store.txids_hash(), recompute_txids_hash(&store));
    }

    store.remove_by_prefix(&prefixes[1]).expect("middle record");
    assert_eq!(store.txids_hash(), recompute_txids_hash(&store));

    store.remove_by_prefix(&prefixes[2]).expect("last record");
    assert_eq!(store.txids_hash(), recompute_txids_hash(&store));

    store.remove_by_prefix(&prefixes[0]).expect("final record");
    assert_eq!(store.txids_hash(), 0);
}

#[test]
fn content_revision_tracks_serialized_body_changes() {
    let mut store = TxStore::new();
    let tx = tx_without_prevouts(7);
    let entry = entry_for(&tx, 100, 100);
    let prefix = entry.txid_prefix();
    assert_eq!(store.content_revision(), 0);

    store.insert(tx, entry);
    assert_eq!(store.content_revision(), 1);

    assert!(store.apply_fills(&prefix, Vec::new()).is_empty());
    assert_eq!(store.content_revision(), 1);

    let prevout = txout(p2wpkh_script(8), 2_000);
    let applied = store.apply_fills(&prefix, vec![(0usize, prevout)]);
    assert_eq!(applied.len(), 1);
    assert_eq!(applied[0].value, 2_000);
    assert_eq!(store.content_revision(), 2);

    assert!(store
        .apply_fills(&prefix, vec![(0usize, txout(p2wpkh_script(9), 3_000))])
        .is_empty());
    assert_eq!(store.content_revision(), 2);

    store.remove_by_prefix(&prefix).expect("stored record");
    assert_eq!(store.content_revision(), 3);
    assert!(store.remove_by_prefix(&prefix).is_none());
    assert_eq!(store.content_revision(), 3);
}

#[test]
fn full_txid_lookups_reject_prefix_collisions() {
    let mut store = TxStore::new();
    let tx = tx_with_prevouts(9);
    let stored_txid = tx.txid;
    let entry = entry_for(&tx, 100, 100);
    store.insert(tx, entry);

    let mut bytes = stored_txid.0;
    bytes[8] ^= 1;
    let colliding_txid = Txid(bytes);
    assert_eq!(stored_txid.prefix(), colliding_txid.prefix());

    assert!(store.contains(&stored_txid));
    assert!(store.get(&stored_txid).is_some());
    assert!(store.entry(&stored_txid).is_some());
    assert!(!store.contains(&colliding_txid));
    assert!(store.get(&colliding_txid).is_none());
    assert!(store.entry(&colliding_txid).is_none());
}

#[test]
fn apply_fills_writes_only_missing_inputs_and_refreshes_sigops() {
    let mut store = TxStore::new();
    let prev_present = txout(p2wpkh_script(4), 7_000);
    let tx = fake_tx(4, &[None, Some(prev_present.clone())], &[(p2wpkh_script(5), 1_000)]);
    let entry = entry_for(&tx, 400, 250);
    let prefix = entry.txid_prefix();
    store.insert(tx, entry);
    assert!(store.unresolved().contains(&prefix));

    let new_prevout = txout(p2wpkh_script(6), 9_000);
    let overwrite_attempt = txout(p2wpkh_script(99), 1);
    let applied = store.apply_fills(
        &prefix,
        vec![(0usize, new_prevout.clone()), (1usize, overwrite_attempt)],
    );

    assert_eq!(applied.len(), 1);
    assert_eq!(applied[0].value, new_prevout.value);

    let record = store.record_by_prefix(&prefix).expect("record present");
    assert_eq!(record.tx.input[0].prevout.as_ref().unwrap().value, new_prevout.value);
    assert_eq!(record.tx.input[1].prevout.as_ref().unwrap().value, prev_present.value);
    assert!(!store.unresolved().contains(&prefix));
}

#[test]
fn apply_fills_unknown_prefix_is_noop() {
    let mut store = TxStore::new();
    let stray_prefix = fake_txid(0xFF).prefix();
    let applied = store.apply_fills(&stray_prefix, vec![(0usize, txout(Vec::new(), 1))]);
    assert!(applied.is_empty());
}

#[test]
fn apply_fills_partial_keeps_unresolved() {
    let mut store = TxStore::new();
    let tx = tx_without_prevouts(5);
    let entry = entry_for(&tx, 500, 300);
    let prefix = entry.txid_prefix();
    store.insert(tx, entry);

    let one = txout(p2wpkh_script(7), 3_000);
    let applied = store.apply_fills(&prefix, vec![(0usize, one)]);
    assert_eq!(applied.len(), 1);
    assert!(store.unresolved().contains(&prefix), "input 1 still has None prevout");
}

#[test]
fn recent_is_capped_and_newest_first() {
    let mut store = TxStore::new();
    for i in 0..(RECENT_CAP as u8 + 5) {
        let tx = tx_with_prevouts(i + 10);
        let entry = entry_for(&tx, 100, 100);
        store.insert(tx, entry);
    }
    assert_eq!(store.recent().len(), RECENT_CAP);
    let newest = store.recent().first().expect("at least one");
    let last_inserted_txid = fake_txid(RECENT_CAP as u8 + 5 + 10 - 1);
    assert_eq!(newest.txid, last_inserted_txid);
}

#[test]
fn recent_entry_reports_fee_vsize_and_output_value() {
    let mut store = TxStore::new();
    let mut tx = fake_tx(40, &[None], &[(p2wpkh_script(1), 1_500), (p2wpkh_script(2), 2_500)]);
    tx.fee = 321;
    tx.weight = 561;
    let entry = entry_for(&tx, 321, 141);
    store.insert(tx, entry);
    let recent = store.recent()[0];
    assert_eq!(recent.fee, 321);
    assert_eq!(recent.vsize, 141);
    assert_eq!(recent.value, 4_000);
}

#[test]
fn txids_follow_storage_order_after_swap_removal() {
    let mut store = TxStore::new();
    let mut prefixes = Vec::new();
    for seed in 50..54 {
        let tx = tx_with_prevouts(seed);
        let entry = entry_for(&tx, 100, 100);
        prefixes.push(entry.txid_prefix());
        store.insert(tx, entry);
    }
    store.remove_by_prefix(&prefixes[0]);
    let txids: Vec<u8> = store.txids().iter().map(|t| t.0[0]).collect();
    assert_eq!(txids, vec![53, 51, 52]);
    let (prefix, record) = store.record_at(0).unwrap();
    assert_eq!(*prefix, record.entry.txid_prefix());
    assert!(store.record_at(3).is_none());
}

#[test]
fn refilling_the_same_fills_writes_nothing() {
    let mut store = TxStore::new();
    let tx = tx_without_prevouts(6);
    let entry = entry_for(&tx, 600, 300);
    let prefix = entry.txid_prefix();
    store.insert(tx, entry);

    let fills = vec![(0usize, txout(p2wpkh_script(8), 4_000)), (1usize, txout(p2wpkh_script(9), 5_000))];
    assert_eq!(store.apply_fills(&prefix, fills.clone()).len(), 2);
    let revision = store.content_revision();
    assert!(store.apply_fills(&prefix, fills).is_empty());
    assert_eq!(store.content_revision(), revision);
}

#[test]
fn insert_then_remove_restores_the_pool() {
    let mut store = TxStore::new();
    for seed in 10..=11 {
        let tx = tx_with_prevouts(seed);
        let entry = entry_for(&tx, 100, 100);
        store.insert(tx, entry);
    }
    let txids_before = store.txids();
    let hash_before = store.txids_hash();

    let tx = tx_without_prevouts(12);
    let txid = tx.txid;
    let entry = entry_for(&tx, 300, 150);
    let prefix = entry.txid_prefix();
    store.insert(tx, entry);
    assert_ne!(store.txids_hash(), hash_before);

    let record = store.remove_by_prefix(&prefix).expect("just inserted");
    assert_eq!(record.entry.txid, txid);
    assert_eq!(record.entry.fee, 300);
    assert_eq!(store.txids(), txids_before);
    assert_eq!(store.txids_hash(), hash_before);
    assert!(!store.unresolved().contains(&prefix));
}
