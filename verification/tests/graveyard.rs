use brk_core::{
    FeeRate, MempoolEntryInfo, Transaction, TxEntry, TxGraveyard, TxIn, TxOut, TxRemoval, Txid,
    RETENTION_NS,
};

fn fake_txid(seed: u8) -> Txid {
    let mut bytes = [0u8; 32];
    bytes[0] = seed;
    Txid(bytes)
}

fn p2wpkh_script(n: u8) -> Vec<u8> {
    let mut script = vec![0x00, 0x14];
    script.extend_from_slice(&[n; 20]);
    script
}

fn fake_tx(seed: u8, prevouts: &[Option<TxOut>], outputs: &[(Vec<u8>, u64)]) -> Transaction {
    Transaction {
        txid: fake_txid(seed),
        version: 2,
        lock_time: 0,
        input: prevouts
            .iter()
            .enumerate()
            .map(|(i, prevout)| TxIn {
                txid: fake_txid(seed.wrapping_add(0x80)),
                vout: i as u32,
                prevout: prevout.clone(),
                is_coinbase: false,
                sequence: 0xffff_fffd,
            })
            .collect(),
        output: outputs
            .iter()
            .map(|(script, value)| TxOut { script_pubkey: script.clone(), value: *value })
            .collect(),
        total_size: 200,
        weight: 800,
        total_sigop_cost: 0,
        fee: 0,
    }
}

fn tomb_inputs(seed: u8) -> (Transaction, TxEntry, FeeRate) {
    let tx = fake_tx(seed, &[], &[]);
    let info = MempoolEntryInfo {
        txid: tx.txid,
        vsize: 100,
        weight: 400,
        fee: 100,
        first_seen: 0,
        depends: vec![],
    };
    let entry = TxEntry::new(&info, 100, false);
    let rate = FeeRate::new(100, 100);
    (tx, entry, rate)
}

/// A clock reading past the retention window of a burial at time 0.
const AGED: u64 = RETENTION_NS + 1_000;

#[test]
fn bury_then_exhume_roundtrips_the_tombstone() {
    let mut g = TxGraveyard::new();
    let (tx, entry, rate) = tomb_inputs(1);
    let txid = entry.txid;
    g.bury(tx, entry, rate, TxRemoval::Vanished);
    assert_eq!(g.tombstones_len(), 1);
    assert!(g.get(&txid).is_some());

    let resurrected = g.exhume(&txid).expect("tombstone present");
    assert_eq!(resurrected.entry.txid, txid);
    assert!(g.get(&txid).is_none());
    assert_eq!(g.tombstones_len(), 0);
    assert_eq!(g.order_len(), 1);
}

#[test]
fn get_vanished_filters_out_replaced_tombstones() {
    let mut g = TxGraveyard::new();
    let (tx_a, entry_a, rate) = tomb_inputs(2);
    let (tx_b, entry_b, _) = tomb_inputs(3);
    let txid_a = entry_a.txid;
    let txid_b = entry_b.txid;
    g.bury(tx_a, entry_a, rate, TxRemoval::Replaced { by: txid_b });
    g.bury(tx_b, entry_b, rate, TxRemoval::Vanished);

    assert!(g.get_vanished(&txid_a).is_none());
    assert!(g.get_vanished(&txid_b).is_some());
}

#[test]
fn replacement_root_walks_replaced_chain() {
    let mut g = TxGraveyard::new();
    let (tx_a, entry_a, rate) = tomb_inputs(4);
    let (tx_b, entry_b, _) = tomb_inputs(5);
    let (tx_c, entry_c, _) = tomb_inputs(6);
    let a = entry_a.txid;
    let b = entry_b.txid;
    let c = entry_c.txid;
    g.bury(tx_a, entry_a, rate, TxRemoval::Replaced { by: b });
    g.bury(tx_b, entry_b, rate, TxRemoval::Replaced { by: c });
    g.bury(tx_c, entry_c, rate, TxRemoval::Vanished);

    assert_eq!(g.replacement_root_of(a), c);
    assert_eq!(g.replacement_root_of(c), c);

    let unknown = fake_txid(99);
    assert_eq!(g.replacement_root_of(unknown), unknown);
}

#[test]
fn predecessors_of_returns_direct_replacers() {
    let mut g = TxGraveyard::new();
    let (tx_a, entry_a, rate) = tomb_inputs(7);
    let (tx_b, entry_b, _) = tomb_inputs(8);
    let (tx_c, entry_c, _) = tomb_inputs(9);
    let replacer = entry_c.txid;
    let a = entry_a.txid;
    let b = entry_b.txid;
    g.bury(tx_a, entry_a, rate, TxRemoval::Replaced { by: replacer });
    g.bury(tx_b, entry_b, rate, TxRemoval::Replaced { by: replacer });
    g.bury(tx_c, entry_c, rate, TxRemoval::Vanished);

    let mut preds: Vec<Txid> = g.predecessors_of(&replacer).iter().map(|(t, _)| *t).collect();
    preds.sort_unstable_by_key(|t| t.0[0]);
    let mut expected = vec![a, b];
    expected.sort_unstable_by_key(|t| t.0[0]);
    assert_eq!(preds, expected);

    assert_eq!(g.predecessors_of(&fake_txid(123)).len(), 0);

    g.exhume(&a).unwrap();
    assert_eq!(g.predecessors_of(&replacer).len(), 1);
    assert_eq!(g.predecessors_of(&replacer).first().map(|(t, _)| *t), Some(b));
}

#[test]
fn re_bury_moves_predecessor_to_new_replacer() {
    let mut g = TxGraveyard::new();
    let (tx, entry, rate) = tomb_inputs(20);
    let predecessor = entry.txid;
    let first = fake_txid(21);
    let second = fake_txid(22);

    g.bury(tx.clone(), entry.clone(), rate, TxRemoval::Replaced { by: first });
    g.bury(tx, entry, rate, TxRemoval::Replaced { by: second });

    assert_eq!(g.predecessors_of(&first).len(), 0);
    assert_eq!(
        g.predecessors_of(&second).first().map(|(t, _)| *t),
        Some(predecessor)
    );
}

#[test]
fn eviction_removes_predecessor_index_entry() {
    let mut g = TxGraveyard::new();
    let (tx, entry, rate) = tomb_inputs(23);
    let replacer = fake_txid(24);
    g.bury_at(tx, entry, rate, TxRemoval::Replaced { by: replacer }, 0);
    g.evict_old_at(AGED);

    assert_eq!(g.predecessors_of(&replacer).len(), 0);
}

#[test]
fn replaced_iter_recent_first_skips_stale_order_entries() {
    let mut g = TxGraveyard::new();
    let (tx_a, entry_a, rate) = tomb_inputs(10);
    let (tx_b, entry_b, _) = tomb_inputs(11);
    let replacer = entry_b.txid;
    let pred = entry_a.txid;
    g.bury_at(tx_a.clone(), entry_a.clone(), rate, TxRemoval::Replaced { by: replacer }, 1);
    g.bury_at(tx_b, entry_b, rate, TxRemoval::Vanished, 2);

    // Re-bury the predecessor: its first log entry is now stale.
    g.bury_at(tx_a, entry_a, rate, TxRemoval::Replaced { by: replacer }, 3);

    let collected = g.replaced_iter_recent_first();
    assert_eq!(collected, vec![(pred, replacer)]);
}

#[test]
fn evict_old_drops_aged_tombstones() {
    let mut g = TxGraveyard::new();
    let (tx_a, entry_a, rate) = tomb_inputs(12);
    let (tx_b, entry_b, _) = tomb_inputs(13);
    let txid_a = entry_a.txid;
    let txid_b = entry_b.txid;
    g.bury_at(tx_a, entry_a, rate, TxRemoval::Vanished, 0);
    g.bury_at(tx_b, entry_b, rate, TxRemoval::Vanished, AGED);

    g.evict_old_at(AGED);

    assert!(g.get(&txid_a).is_none(), "aged tombstone evicted");
    assert!(g.get(&txid_b).is_some(), "fresh tombstone retained");
}

#[test]
fn re_bury_mid_retention_resets_age() {
    let mut g = TxGraveyard::new();
    let (tx, entry, rate) = tomb_inputs(14);
    let txid = entry.txid;
    g.bury_at(tx.clone(), entry.clone(), rate, TxRemoval::Vanished, 0);

    // Re-bury later: the stale log entry still carries the old time, but
    // the tombstone's burial time is fresh, so eviction keeps it.
    g.bury_at(tx, entry, rate, TxRemoval::Vanished, AGED);
    g.evict_old_at(AGED);
    assert!(g.get(&txid).is_some());
    assert_eq!(g.order_len(), 1);
}

#[test]
fn eviction_keeps_tombstones_just_inside_the_window() {
    let mut g = TxGraveyard::new();
    let (tx, entry, rate) = tomb_inputs(30);
    let txid = entry.txid;
    g.bury_at(tx, entry, rate, TxRemoval::Vanished, 1_000);
    g.evict_old_at(1_000 + RETENTION_NS - 1);
    assert!(g.get(&txid).is_some());
    g.evict_old_at(1_000 + RETENTION_NS);
    assert!(g.get(&txid).is_none());
    assert_eq!(g.order_len(), 0);
}

#[test]
fn tombstone_reports_its_replacer() {
    let mut g = TxGraveyard::new();
    let (tx, entry, rate) = tomb_inputs(31);
    let txid = entry.txid;
    let by = fake_txid(32);
    g.bury_at(tx, entry, rate, TxRemoval::Replaced { by }, 5);
    let tomb = g.get(&txid).unwrap();
    assert_eq!(tomb.replaced_by(), Some(&by));
    assert_eq!(tomb.removed_at, 5);
    assert_eq!(*tomb.txid(), txid);
}

#[test]
fn exhuming_a_replaced_tombstone_unlinks_it_from_its_replacer() {
    let mut g = TxGraveyard::new();
    let (tx, entry, rate) = tomb_inputs(40);
    let txid = entry.txid;
    let by = fake_txid(41);
    g.bury(tx, entry, rate, TxRemoval::Replaced { by });
    assert_eq!(g.predecessors_of(&by).len(), 1);
    let order_before = g.order_len();

    let tomb = g.exhume(&txid).expect("tombstone present");
    assert!(matches!(tomb.removal, TxRemoval::Replaced { by: b } if b == by));
    assert_eq!(tomb.chunk_rate, rate);
    assert!(g.predecessors_of(&by).is_empty());
    assert_eq!(g.order_len(), order_before);
    assert_eq!(g.tombstones_len(), 0);
    assert!(g.exhume(&txid).is_none());
}

#[test]
fn chain_checks_count_links_and_catch_a_cycle() {
    let mut g = TxGraveyard::new();
    let (tx_a, entry_a, rate) = tomb_inputs(4);
    let (tx_b, entry_b, _) = tomb_inputs(5);
    let a = entry_a.txid;
    let b = entry_b.txid;
    g.bury(tx_a, entry_a, rate, TxRemoval::Replaced { by: b });
    assert!(g.chain_ends_within(a, 1));
    assert!(!g.chain_ends_within(a, 0));
    assert!(g.chain_ends_within(b, 0));
    assert!(g.chains_all_end());

    g.bury(tx_b, entry_b, rate, TxRemoval::Replaced { by: a });
    assert!(!g.chain_ends_within(a, 5));
    assert!(!g.chains_all_end());
    let unknown = fake_txid(99);
    assert!(g.chain_ends_within(unknown, 0));
}
