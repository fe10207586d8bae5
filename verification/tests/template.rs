use brk_core::{
    block_template_diff_resolved, can_reuse, collect_txs, lookup_body, BlockHistory, BlockTemplateDiffEntry,
    FeeRate, MempoolEntryInfo, Snapshot, State, Transaction, TxEntry, TxIn, TxOut, TxRemoval,
    Txid, HISTORY,
};

fn fake_txid(seed: u8) -> Txid {
    let mut bytes = [0u8; 32];
    bytes[0] = seed;
    Txid(bytes)
}

fn p2wpkh_script(n: u8) -> Vec<u8> {
    let mut script = vec![0x00, 0x14];
    script.extend_from_slice(&[n; 20]);
    script
}

fn fake_tx(seed: u8, prevouts: &[Option<TxOut>], outputs: &[(Vec<u8>, u64)]) -> Transaction {
    Transaction {
        txid: fake_txid(seed),
        version: 2,
        lock_time: 0,
        input: prevouts
            .iter()
            .enumerate()
            .map(|(i, prevout)| TxIn {
                txid: fake_txid(seed.wrapping_add(0x80)),
                vout: i as u32,
                prevout: prevout.clone(),
                is_coinbase: false,
                sequence: 0xffff_fffd,
            })
            .collect(),
        output: outputs
            .iter()
            .map(|(script, value)| TxOut { script_pubkey: script.clone(), value: *value })
            .collect(),
        total_size: 200,
        weight: 800,
        total_sigop_cost: 0,
        fee: 0,
    }
}


fn fake_entry_info(txid: Txid, fee: u64, vsize: u64) -> MempoolEntryInfo {
    MempoolEntryInfo {
        txid,
        vsize,
        weight: vsize * 4,
        fee,
        first_seen: 0,
        depends: vec![],
    }
}

fn insert_tx(state: &mut State, seed: u8, fee: u64, vsize: u64) -> Txid {
    let tx = fake_tx(seed, &[None], &[(p2wpkh_script(seed + 1), 1_234)]);
    let txid = tx.txid;
    let info = fake_entry_info(txid, fee, vsize);
    let entry = TxEntry::new(&info, vsize, false);
    state.txs.insert(tx, entry);
    txid
}

/// A projection whose block 0 is exactly `block0`, tagged `hash`.
fn snapshot_with_block0(block0: &[Txid], hash: u64) -> Snapshot {
    let entries: Vec<(u64, FeeRate, Txid)> = block0
        .iter()
        .map(|t| (t.prefix(), FeeRate::new(1, 1), *t))
        .collect();
    let mut snap = Snapshot::for_test_with_chunk_rates(&entries);
    snap.blocks = vec![(0..block0.len()).collect()];
    snap.next_block_hash = hash;
    snap.min_fee = FeeRate::new(1, 1);
    snap
}

/// Records `block0` in `history` the way the rebuilder does and returns
/// the projection.
fn tick(history: &mut BlockHistory, block0: &[Txid], hash: u64) -> Snapshot {
    let snap = snapshot_with_block0(block0, hash);
    history.record(hash, snap.block0_txids());
    snap
}

#[test]
fn block_template_diff_round_trip_reconstructs_t1_from_t0() {
    let mut state = State::new();
    let mut history = BlockHistory::new();
    let txid_a = insert_tx(&mut state, 0xA1, 1_111, 100);
    let txid_b = insert_tx(&mut state, 0xA2, 2_222, 100);
    let t0 = tick(&mut history, &[txid_a, txid_b], 0x1000);
    let t0_bodies: Vec<Transaction> = t0
        .block0_txids()
        .iter()
        .map(|t| lookup_body(&state, t).unwrap())
        .collect();

    let txid_c = insert_tx(&mut state, 0xA3, 3_333, 100);
    let t1 = tick(&mut history, &[txid_a, txid_b, txid_c], 0x2000);

    let past = history.historical_block0(0x1000).expect("t0 is still in history");
    let (diff, _) = block_template_diff_resolved(&state, &t1, 0x1000, &past);
    assert_eq!(diff.since, 0x1000);
    assert_eq!(diff.hash, 0x2000);

    let mut reconstructed = Vec::with_capacity(diff.order.len());
    for entry in &diff.order {
        match entry {
            BlockTemplateDiffEntry::Retained(idx) => {
                reconstructed.push(t0_bodies[*idx as usize].clone());
            }
            BlockTemplateDiffEntry::New(tx) => reconstructed.push(tx.clone()),
        }
    }
    let expected = t1.block0_txids();
    let got: Vec<Txid> = reconstructed.iter().map(|tx| tx.txid).collect();
    assert_eq!(got, expected, "diff round-trips back into T1 ordering");
    assert!(diff.removed.is_empty());
}

#[test]
fn block_template_diff_removed_lists_evicted_txs() {
    let mut state = State::new();
    let mut history = BlockHistory::new();
    let txid_a = insert_tx(&mut state, 0xA4, 1_111, 100);
    let txid_b = insert_tx(&mut state, 0xA5, 2_222, 100);
    tick(&mut history, &[txid_a, txid_b], 0x3000);

    let t1 = tick(&mut history, &[txid_b], 0x4000);
    let past = history.historical_block0(0x3000).unwrap();
    let (diff, _) = block_template_diff_resolved(&state, &t1, 0x3000, &past);
    assert_eq!(diff.removed, vec![txid_a]);
}

#[test]
fn block_template_diff_unknown_since_returns_none() {
    let mut history = BlockHistory::new();
    tick(&mut history, &[], 0x5000);
    assert!(history.historical_block0(0xDEAD_BEEF).is_none());
}

#[test]
fn resolved_block_template_diff_owns_its_single_history_lookup() {
    let mut state = State::new();
    let mut history = BlockHistory::new();
    let first = insert_tx(&mut state, 0xB0, 1_000, 100);
    let mut txids = vec![first];
    let mut hash = 0x6000u64;
    tick(&mut history, &txids, hash);
    let since = hash;
    let resolved = history.historical_block0(since).expect("initial template in history");

    let mut latest = snapshot_with_block0(&txids, hash);
    for seed in 0xB1..=0xBB {
        txids.push(insert_tx(&mut state, seed, 1_000, 100));
        hash += 1;
        latest = tick(&mut history, &txids, hash);
    }
    assert!(history.historical_block0(since).is_none());

    let (diff, _) = block_template_diff_resolved(&state, &latest, since, &resolved);
    assert_eq!(diff.since, since);
    assert_eq!(diff.order.len(), txids.len());
}

#[test]
fn block_template_empty_pool_has_no_transactions() {
    let state = State::new();
    let mut history = BlockHistory::new();
    let snap = tick(&mut history, &[], 0x7000);
    let transactions = collect_txs(&state, &snap.block0_txids());
    assert!(transactions.is_empty());
}

#[test]
fn block_template_hash_matches_next_block_hash() {
    let mut state = State::new();
    let txid = insert_tx(&mut state, 0xA0, 1_234, 100);
    let entries = [(txid.prefix(), FeeRate::new(1_234, 100), txid)];
    let mut snap = Snapshot::for_test_with_chunk_rates(&entries);
    snap.blocks = vec![vec![0]];
    snap.next_block_hash = Snapshot::hash_next_block(&snap.blocks, &snap.txs);

    let transactions = collect_txs(&state, &snap.block0_txids());
    assert_eq!(snap.next_block_hash, Snapshot::hash_next_block(&[vec![0]], &snap.txs));
    assert_eq!(transactions.len(), 1);
    assert_eq!(transactions[0].txid, txid);
}

#[test]
fn collect_txs_reads_live_then_buried_bodies_and_drops_unknown() {
    let mut state = State::new();
    let live = insert_tx(&mut state, 0xD1, 1_000, 100);
    let buried_tx = fake_tx(0xD2, &[None], &[(p2wpkh_script(3), 700)]);
    let buried = buried_tx.txid;
    let entry = TxEntry::new(&fake_entry_info(buried, 10, 10), 10, false);
    state.graveyard.bury(buried_tx, entry, FeeRate::new(10, 10), TxRemoval::Vanished);
    let txs = collect_txs(&state, &[fake_txid(0xD3), buried, live]);
    assert_eq!(txs.len(), 2);
    assert_eq!(txs[0].txid, buried);
    assert_eq!(txs[0].output[0].value, 700);
    assert_eq!(txs[1].txid, live);
}

#[test]
fn diff_sends_bodies_of_buried_txs_and_skips_unknown_ones() {
    let mut state = State::new();
    let mut history = BlockHistory::new();
    let kept = insert_tx(&mut state, 0xC1, 1_000, 100);
    tick(&mut history, &[kept], 0x8000);

    let buried_tx = fake_tx(0xC2, &[None], &[(p2wpkh_script(9), 900)]);
    let buried = buried_tx.txid;
    let entry = TxEntry::new(&fake_entry_info(buried, 10, 10), 10, false);
    state.graveyard.bury(buried_tx, entry, FeeRate::new(10, 10), TxRemoval::Vanished);
    let unknown = fake_txid(0xC3);

    let t1 = tick(&mut history, &[buried, kept, unknown], 0x9000);
    let past = history.historical_block0(0x8000).unwrap();
    let (diff, _) = block_template_diff_resolved(&state, &t1, 0x8000, &past);
    assert_eq!(diff.order.len(), 2);
    assert!(matches!(&diff.order[0], BlockTemplateDiffEntry::New(tx) if tx.txid == buried));
    assert!(matches!(diff.order[1], BlockTemplateDiffEntry::Retained(0)));
}

#[test]
fn history_keeps_the_newest_entries_and_replaces_same_hash() {
    let mut history = BlockHistory::new();
    for h in 0..(HISTORY as u64 + 3) {
        history.record(h, vec![fake_txid(h as u8)]);
    }
    assert!(history.historical_block0(0).is_none());
    assert!(history.historical_block0(2).is_none());
    assert_eq!(history.historical_block0(3), Some(vec![fake_txid(3)]));
    history.record(5, vec![fake_txid(0xEE)]);
    assert_eq!(history.historical_block0(5), Some(vec![fake_txid(0xEE)]));
}

#[test]
fn can_reuse_only_for_identical_inputs() {
    let a = fake_txid(1);
    let b = fake_txid(2);
    let empty = Snapshot::empty();
    assert!(!can_reuse(&empty, &[], FeeRate::new(1, 1_000), false), "first tick always builds");

    let snap = snapshot_with_block0(&[a, b], 1);
    assert!(can_reuse(&snap, &[a, b], FeeRate::new(1, 1), false));
    assert!(!can_reuse(&snap, &[b, a], FeeRate::new(1, 1), false), "reordered template rebuilds");
    assert!(!can_reuse(&snap, &[a, b], FeeRate::new(2, 1), false), "changed min fee rebuilds");
    assert!(!can_reuse(&snap, &[a, b], FeeRate::new(1, 1), true), "changed pool rebuilds");
}

#[test]
fn diff_reports_the_pool_revision_it_was_built_against() {
    let mut state = State::new();
    let mut history = BlockHistory::new();
    let txid_a = insert_tx(&mut state, 0xD1, 1_000, 100);
    tick(&mut history, &[txid_a], 0xA000);
    let txid_b = insert_tx(&mut state, 0xD2, 2_000, 100);
    let t1 = tick(&mut history, &[txid_a, txid_b], 0xB000);
    let past = history.historical_block0(0xA000).unwrap();
    let (_, revision) = block_template_diff_resolved(&state, &t1, 0xA000, &past);
    assert_eq!(revision, 2);
    assert_eq!(revision, state.txs.content_revision());
}

#[test]
fn history_forgets_a_hash_after_ten_newer_distinct_records() {
    let mut history = BlockHistory::new();
    history.record(0x77, vec![fake_txid(1)]);
    for k in 0..(HISTORY as u64 - 1) {
        history.record(0x100 + k, vec![]);
    }
    assert_eq!(history.historical_block0(0x77), Some(vec![fake_txid(1)]));
    history.record(0x200, vec![]);
    assert!(history.historical_block0(0x77).is_none());
}
