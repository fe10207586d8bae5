use brk_core::{
    fitting_additions, AddedKind, Applier, FeeRate, MempoolEntryInfo, Snapshot, State, Transaction, TxAdded,
    TxAddition, TxEntry, TxIn, TxOut, TxRemoval, TxRemoved, Txid,
};

fn fake_txid(seed: u8) -> Txid {
    let mut bytes = [0u8; 32];
    bytes[0] = seed;
    Txid(bytes)
}

fn p2wpkh_script(n: u8) -> Vec<u8> {
    let mut script = vec![0x00, 0x14];
    script.extend_from_slice(&[n; 20]);
    script
}

fn fake_tx(seed: u8, prevouts: &[Option<TxOut>], outputs: &[(Vec<u8>, u64)]) -> Transaction {
    Transaction {
        txid: fake_txid(seed),
        version: 2,
        lock_time: 0,
        input: prevouts
            .iter()
            .enumerate()
            .map(|(i, prevout)| TxIn {
                txid: fake_txid(seed.wrapping_add(0x80)),
                vout: i as u32,
                prevout: prevout.clone(),
                is_coinbase: false,
                sequence: 0xffff_fffd,
            })
            .collect(),
        output: outputs
            .iter()
            .map(|(script, value)| TxOut { script_pubkey: script.clone(), value: *value })
            .collect(),
        total_size: 200,
        weight: 800,
        total_sigop_cost: 0,
        fee: 0,
    }
}


fn fake_entry_info(txid: Txid, fee: u64, vsize: u64) -> MempoolEntryInfo {
    MempoolEntryInfo {
        txid,
        vsize,
        weight: vsize * 4,
        fee,
        first_seen: 0,
        depends: vec![],
    }
}

fn fresh_addition(seed: u8, fee: u64, vsize: u64) -> (TxAddition, Txid) {
    let prev = Some(TxOut { script_pubkey: p2wpkh_script(seed), value: 2_500 });
    let tx = fake_tx(seed, &[prev], &[(p2wpkh_script(seed + 1), 1_234)]);
    let txid = tx.txid;
    let info = fake_entry_info(txid, fee, vsize);
    let entry = TxEntry::new(&info, vsize, false);
    (TxAddition::Fresh { tx, entry }, txid)
}

fn apply(
    state: &mut State,
    snapshot: &Snapshot,
    removed: Vec<(u64, TxRemoval)>,
    added: Vec<TxAddition>,
) -> (Vec<TxRemoved>, Vec<TxAdded>) {
    let mut removed_events = Vec::new();
    let mut added_events = Vec::new();
    Applier::apply(state, snapshot, removed, added, &mut removed_events, &mut added_events);
    (removed_events, added_events)
}

#[test]
fn publish_one_inserts_into_all_stores() {
    let mut state = State::new();
    let snapshot = Snapshot::empty();
    let (addition, txid) = fresh_addition(0xC0, 200, 100);

    let (_, added) = apply(&mut state, &snapshot, vec![], vec![addition]);

    assert!(state.txs.contains(&txid));
    assert_eq!(added.len(), 1);
    assert_eq!(added[0].txid, txid);
    assert_eq!(added[0].fee_rate, FeeRate::new(200, 100));
}

#[test]
fn revived_path_exhumes_body_from_graveyard() {
    let mut state = State::new();
    let snapshot = Snapshot::empty();
    let (addition, txid) = fresh_addition(0xC1, 300, 100);
    let TxAddition::Fresh { tx, entry } = addition else {
        unreachable!();
    };
    let rate = FeeRate::new(entry.fee, entry.vsize);
    state.graveyard.bury(tx, entry.clone(), rate, TxRemoval::Vanished);

    let (_, added) = apply(&mut state, &snapshot, vec![], vec![TxAddition::Revived { entry }]);

    assert!(state.txs.contains(&txid), "revived tx republished");
    assert!(state.graveyard.get(&txid).is_none(), "tomb consumed");
    assert_eq!(added.len(), 1);
    assert!(matches!(added[0].kind, AddedKind::Revived));
}

#[test]
fn revived_with_empty_graveyard_is_dropped() {
    let mut state = State::new();
    let snapshot = Snapshot::empty();
    let coinbase = Txid([0u8; 32]);
    let info = fake_entry_info(coinbase, 100, 100);
    let entry = TxEntry::new(&info, 100, false);

    let (_, added) = apply(&mut state, &snapshot, vec![], vec![TxAddition::Revived { entry }]);

    assert!(!state.txs.contains(&coinbase));
    assert!(added.is_empty(), "no body, no event");
}

#[test]
fn bury_preserves_chunk_rate_from_snapshot() {
    let mut state = State::new();
    let (addition, txid) = fresh_addition(0xC2, 100, 100);
    apply(&mut state, &Snapshot::empty(), vec![], vec![addition]);
    let isolated_rate = FeeRate::new(100, 100);

    let cpfp_rate = FeeRate::new(500, 100);
    let prefix = txid.prefix();
    let snapshot = Snapshot::for_test_with_chunk_rates(&[(prefix, cpfp_rate, txid)]);

    let (removed, _) = apply(&mut state, &snapshot, vec![(prefix, TxRemoval::Vanished)], vec![]);

    assert_eq!(removed.len(), 1);
    assert_eq!(removed[0].chunk_rate, cpfp_rate);
    assert_ne!(removed[0].chunk_rate, isolated_rate);
    assert_eq!(state.graveyard.get(&txid).unwrap().chunk_rate, cpfp_rate);
}

#[test]
fn bury_falls_back_to_isolated_rate_when_snapshot_misses() {
    let mut state = State::new();
    let (addition, txid) = fresh_addition(0xC3, 700, 100);
    apply(&mut state, &Snapshot::empty(), vec![], vec![addition]);

    let isolated_rate = FeeRate::new(700, 100);
    let prefix = txid.prefix();

    let (removed, _) = apply(&mut state, &Snapshot::empty(), vec![(prefix, TxRemoval::Vanished)], vec![]);

    assert_eq!(removed[0].chunk_rate, isolated_rate);
}

#[test]
fn removal_of_unknown_prefix_emits_nothing() {
    let mut state = State::new();
    let (removed, added) = apply(
        &mut state,
        &Snapshot::empty(),
        vec![(fake_txid(0x44).prefix(), TxRemoval::Vanished)],
        vec![],
    );
    assert!(removed.is_empty());
    assert!(added.is_empty());
    assert_eq!(state.graveyard.tombstones_len(), 0);
}

#[test]
fn replaced_removal_is_recorded_with_its_replacer() {
    let mut state = State::new();
    let (addition, txid) = fresh_addition(0xC4, 100, 100);
    apply(&mut state, &Snapshot::empty(), vec![], vec![addition]);
    let by = fake_txid(0xC9);
    let (removed, _) = apply(
        &mut state,
        &Snapshot::empty(),
        vec![(txid.prefix(), TxRemoval::Replaced { by })],
        vec![],
    );
    assert!(matches!(removed[0].reason, TxRemoval::Replaced { by: b } if b == by));
    assert!(!state.txs.contains(&txid));
    let preds = state.graveyard.predecessors_of(&by);
    assert_eq!(preds.len(), 1);
    assert_eq!(preds[0].0, txid);
}

#[test]
fn fitting_additions_drop_live_and_repeated_prefixes() {
    let mut state = State::new();
    let (live, live_txid) = fresh_addition(0xD0, 100, 100);
    apply(&mut state, &Snapshot::empty(), vec![], vec![live]);

    let (again, _) = fresh_addition(0xD0, 100, 100);
    let (first, first_txid) = fresh_addition(0xD1, 100, 100);
    let (twin, _) = fresh_addition(0xD1, 300, 100);
    let (second, second_txid) = fresh_addition(0xD2, 100, 100);
    let kept = fitting_additions(&state, vec![again, first, twin, second]);
    let kept_txids: Vec<Txid> = kept.iter().map(|a| a.txid()).collect();
    assert_eq!(kept_txids, vec![first_txid, second_txid]);
    assert!(state.txs.contains(&live_txid));
}
