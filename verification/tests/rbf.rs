use brk_core::{
    rbf_for_tx, recent_rbf_trees, FeeRate, MempoolEntryInfo, Snapshot, State, Transaction,
    TxEntry, TxIn, TxOut, TxRemoval, Txid,
};

fn fake_txid(seed: u8) -> Txid {
    let mut bytes = [0u8; 32];
    bytes[0] = seed;
    Txid(bytes)
}

fn p2wpkh_script(n: u8) -> Vec<u8> {
    let mut script = vec![0x00, 0x14];
    script.extend_from_slice(&[n; 20]);
    script
}

fn fake_tx(seed: u8, prevouts: &[Option<TxOut>], outputs: &[(Vec<u8>, u64)]) -> Transaction {
    Transaction {
        txid: fake_txid(seed),
        version: 2,
        lock_time: 0,
        input: prevouts
            .iter()
            .enumerate()
            .map(|(i, prevout)| TxIn {
                txid: fake_txid(seed.wrapping_add(0x80)),
                vout: i as u32,
                prevout: prevout.clone(),
                is_coinbase: false,
                sequence: 0xffff_fffd,
            })
            .collect(),
        output: outputs
            .iter()
            .map(|(script, value)| TxOut { script_pubkey: script.clone(), value: *value })
            .collect(),
        total_size: 200,
        weight: 800,
        total_sigop_cost: 0,
        fee: 0,
    }
}


fn fake_entry_info(txid: Txid, fee: u64, vsize: u64) -> MempoolEntryInfo {
    MempoolEntryInfo {
        txid,
        vsize,
        weight: vsize * 4,
        fee,
        first_seen: 0,
        depends: vec![],
    }
}

/// A live replacer plus buried predecessors, oldest first, each replaced
/// by the next (the last by the live tx).
fn build_rbf_world(live_seed: u8, predecessors: &[u8]) -> (State, Txid, Vec<Txid>) {
    let mut state = State::new();
    let live_tx = fake_tx(live_seed, &[None], &[(p2wpkh_script(live_seed + 1), 1_234)]);
    let live_txid = live_tx.txid;
    let live_entry = TxEntry::new(&fake_entry_info(live_txid, 5_000, 100), 100, true);

    let mut pred_txids = Vec::with_capacity(predecessors.len());
    for (i, seed) in predecessors.iter().enumerate() {
        let tx = fake_tx(*seed, &[None], &[(p2wpkh_script(seed + 1), 1_234)]);
        let txid = tx.txid;
        let entry = TxEntry::new(&fake_entry_info(txid, 1_000, 100), 100, true);
        let by = predecessors
            .get(i + 1)
            .map(|next_seed| fake_txid(*next_seed))
            .unwrap_or(live_txid);
        let rate = FeeRate::new(entry.fee, entry.vsize);
        state.graveyard.bury(tx, entry, rate, TxRemoval::Replaced { by });
        pred_txids.push(txid);
    }
    state.txs.insert(live_tx, live_entry);
    (state, live_txid, pred_txids)
}

#[test]
fn rbf_for_tx_single_replacement_returns_root_and_replaces() {
    let (state, live, preds) = build_rbf_world(0xC0, &[0xC1]);
    let pred = preds[0];

    let rbf = rbf_for_tx(&state, &Snapshot::empty(), &pred);
    let root = rbf.root.expect("terminal replacer reachable");
    assert_eq!(root.txid, live);
    assert!(root.in_mempool);
    assert!(!root.replaces[0].in_mempool);
    let replaced_txids: Vec<Txid> = root.replaces.iter().map(|n| n.txid).collect();
    assert_eq!(replaced_txids, vec![pred]);
    assert!(rbf.replaces.is_empty(), "pred has no predecessors of its own");
}

#[test]
fn rbf_for_tx_chain_walks_to_terminal_root() {
    let (state, live, preds) = build_rbf_world(0xC2, &[0xC3, 0xC4]);
    let a = preds[0];
    let b = preds[1];

    let rbf = rbf_for_tx(&state, &Snapshot::empty(), &a);
    let root = rbf.root.expect("terminal replacer reachable");
    assert_eq!(root.txid, live);
    assert_eq!(root.replaces.len(), 1);
    assert_eq!(root.replaces[0].txid, b);
    assert_eq!(root.replaces[0].replaces.len(), 1);
    assert_eq!(root.replaces[0].replaces[0].txid, a);
}

#[test]
fn rbf_for_tx_unknown_tx_returns_none_root() {
    let state = State::new();
    let bogus = Txid([0u8; 32]);
    let rbf = rbf_for_tx(&state, &Snapshot::empty(), &bogus);
    assert!(rbf.root.is_none());
    assert!(rbf.replaces.is_empty());
}

#[test]
fn rbf_for_tx_rejects_live_prefix_collision() {
    let (state, live, _) = build_rbf_world(0xCA, &[]);
    let mut bytes = live.0;
    bytes[8] ^= 1;
    let collision = Txid(bytes);
    assert_eq!(live.prefix(), collision.prefix());

    assert!(rbf_for_tx(&state, &Snapshot::empty(), &collision).is_empty());
}

#[test]
fn recent_rbf_trees_dedup_by_root_and_respect_limit() {
    let (mut state, live, _preds) = build_rbf_world(0xC5, &[0xC6, 0xC7]);
    {
        let extra = fake_tx(0xC8, &[None], &[(p2wpkh_script(0xC9), 1_234)]);
        let extra_txid = extra.txid;
        let entry = TxEntry::new(&fake_entry_info(extra_txid, 999, 100), 100, true);
        let rate = FeeRate::new(entry.fee, entry.vsize);
        state.graveyard.bury(extra, entry, rate, TxRemoval::Replaced { by: live });
    }
    let trees = recent_rbf_trees(&state, &Snapshot::empty(), false, 10);
    assert_eq!(trees.len(), 1, "all paths roll up to one root");
    assert_eq!(trees[0].txid, live);

    let capped = recent_rbf_trees(&state, &Snapshot::empty(), false, 0);
    assert!(capped.is_empty(), "limit honored");
}

#[test]
fn full_rbf_flags_a_non_signalling_predecessor() {
    let mut state = State::new();
    let live_tx = fake_tx(0xD0, &[None], &[(p2wpkh_script(1), 1_000), (p2wpkh_script(2), 500)]);
    let live = live_tx.txid;
    state
        .txs
        .insert(live_tx, TxEntry::new(&fake_entry_info(live, 5_000, 100), 100, true));
    let pred_tx = fake_tx(0xD1, &[None], &[(p2wpkh_script(3), 1_000)]);
    let pred = pred_tx.txid;
    let entry = TxEntry::new(&fake_entry_info(pred, 1_000, 100), 100, false);
    state
        .graveyard
        .bury(pred_tx, entry, FeeRate::new(1_000, 100), TxRemoval::Replaced { by: live });

    let root = rbf_for_tx(&state, &Snapshot::empty(), &pred).root.unwrap();
    assert!(root.full_rbf);
    assert_eq!(root.value, 1_500);
    assert_eq!(root.rate, FeeRate::new(5_000, 100));
    assert_eq!(root.replaces[0].rate, FeeRate::new(1_000, 100));

    assert_eq!(recent_rbf_trees(&state, &Snapshot::empty(), true, 5).len(), 1);
}

#[test]
fn live_root_takes_the_snapshot_chunk_rate() {
    let (state, live, preds) = build_rbf_world(0xE0, &[0xE1]);
    let lifted = FeeRate::new(9_000, 100);
    let snapshot = Snapshot::for_test_with_chunk_rates(&[(live.prefix(), lifted, live)]);
    let root = rbf_for_tx(&state, &snapshot, &preds[0]).root.unwrap();
    assert_eq!(root.rate, lifted);
    assert_eq!(root.replaces[0].rate, FeeRate::new(1_000, 100));
}

#[test]
fn recent_rbf_trees_list_the_latest_replacement_first() {
    let mut state = State::new();
    let mut roots = Vec::new();
    for (live_seed, pred_seed) in [(0xA0u8, 0xA1u8), (0xB0, 0xB1)] {
        let live_tx = fake_tx(live_seed, &[None], &[(p2wpkh_script(live_seed), 1_000)]);
        let live = live_tx.txid;
        state
            .txs
            .insert(live_tx, TxEntry::new(&fake_entry_info(live, 5_000, 100), 100, true));
        let pred_tx = fake_tx(pred_seed, &[None], &[(p2wpkh_script(pred_seed), 1_000)]);
        let pred = pred_tx.txid;
        let entry = TxEntry::new(&fake_entry_info(pred, 1_000, 100), 100, true);
        state
            .graveyard
            .bury(pred_tx, entry, FeeRate::new(1_000, 100), TxRemoval::Replaced { by: live });
        roots.push(live);
    }
    let trees = recent_rbf_trees(&state, &Snapshot::empty(), false, 10);
    let listed: Vec<Txid> = trees.iter().map(|t| t.txid).collect();
    assert_eq!(listed, vec![roots[1], roots[0]]);

    let first = recent_rbf_trees(&state, &Snapshot::empty(), false, 1);
    assert_eq!(first.len(), 1);
    assert_eq!(first[0].txid, roots[1]);

    // every replaced tx signalled: nothing qualifies as full-RBF
    assert!(recent_rbf_trees(&state, &Snapshot::empty(), true, 10).is_empty());
}
