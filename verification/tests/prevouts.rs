use std::collections::HashMap;

use brk_core::{MempoolEntryInfo, Prevouts, State, Transaction, TxEntry, TxIn, TxOut, Txid};

fn txid(seed: u8) -> Txid {
    let mut bytes = [0u8; 32];
    bytes[0] = seed;
    Txid(bytes)
}

fn tx_with_outputs(seed: u8, values: &[u64]) -> Transaction {
    Transaction {
        txid: txid(seed),
        version: 2,
        lock_time: 0,
        input: vec![TxIn {
            txid: txid(seed.wrapping_add(0x80)),
            vout: 0,
            prevout: None,
            is_coinbase: false,
            sequence: 0xffff_ffff,
        }],
        output: values
            .iter()
            .map(|v| TxOut { script_pubkey: vec![0x51, seed], value: *v })
            .collect(),
        total_size: 100,
        weight: 400,
        total_sigop_cost: 0,
        fee: 0,
    }
}

#[test]
fn unique_parents_keeps_first_occurrence_order() {
    let holes = [(txid(3), 0), (txid(1), 2), (txid(3), 1), (txid(2), 0), (txid(1), 0)];
    assert_eq!(Prevouts::unique_parents(&holes), vec![txid(3), txid(1), txid(2)]);
    assert!(Prevouts::unique_parents(&[]).is_empty());
}

#[test]
fn outputs_for_holes_skips_missing_parents_and_outputs() {
    let mut parents = HashMap::default();
    parents.insert(txid(1), tx_with_outputs(1, &[10, 20]));
    let holes = [(txid(1), 1), (txid(1), 5), (txid(2), 0)];
    let found = Prevouts::outputs_for_holes(&holes, &parents);
    assert_eq!(found.len(), 1);
    let out = &found[&(txid(1), 1)];
    assert_eq!(out.value, 20);
    assert_eq!(out.script_pubkey, vec![0x51, 1]);
}

#[test]
fn flattened_holes_resolve_back_to_their_spenders() {
    let holes = vec![
        (txid(9), vec![(0usize, txid(1), 0u32), (2, txid(2), 0)]),
        (txid(8), vec![(1usize, txid(1), 1u32)]),
    ];
    let flat = Prevouts::flatten_holes(&holes);
    assert_eq!(flat, vec![(txid(1), 0), (txid(2), 0), (txid(1), 1)]);
    let mut parents = HashMap::default();
    parents.insert(txid(1), tx_with_outputs(1, &[10, 20]));
    let resolved = Prevouts::outputs_for_holes(&flat, &parents);
    let fills = Prevouts::resolve_external(holes, resolved);
    assert_eq!(fills.len(), 2);
    assert_eq!(fills[0].0, txid(9));
    assert_eq!(fills[0].1.len(), 1);
    assert_eq!(fills[0].1[0].0, 0);
    assert_eq!(fills[0].1[0].1.value, 10);
    assert_eq!(fills[1].0, txid(8));
    assert_eq!(fills[1].1[0].1.value, 20);
}

fn entry_for(t: Txid) -> TxEntry {
    let info = MempoolEntryInfo { txid: t, vsize: 100, weight: 400, fee: 100, first_seen: 0, depends: vec![] };
    TxEntry::new(&info, 100, false)
}

/// A child spending output 1 of `parent` and output 0 of an unknown tx.
fn child_of(seed: u8, parent: Txid) -> Transaction {
    let mut child = tx_with_outputs(seed, &[5]);
    child.input = vec![
        TxIn { txid: parent, vout: 1, prevout: None, is_coinbase: false, sequence: 0xffff_ffff },
        TxIn { txid: txid(0x77), vout: 0, prevout: None, is_coinbase: false, sequence: 0xffff_ffff },
    ];
    child
}

#[test]
fn gather_splits_missing_prevouts_into_live_fills_and_outside_holes() {
    let mut state = State::new();
    let parent = tx_with_outputs(1, &[10, 20]);
    let parent_txid = parent.txid;
    let mut parent_resolved = parent.clone();
    parent_resolved.input[0].prevout = Some(TxOut { script_pubkey: vec![0x51], value: 50 });
    state.txs.insert(parent_resolved, entry_for(parent_txid));
    let child = child_of(2, parent_txid);
    state.txs.insert(child, entry_for(txid(2)));

    let (fills, holes) = Prevouts::gather(&state.txs);
    assert_eq!(fills.len(), 1);
    assert_eq!(fills[0].0, txid(2));
    assert_eq!(fills[0].1.len(), 1);
    assert_eq!(fills[0].1[0].0, 0);
    assert_eq!(fills[0].1[0].1.value, 20);
    assert_eq!(holes.len(), 1);
    assert_eq!(holes[0].0, txid(2));
    assert_eq!(holes[0].1, vec![(1usize, txid(0x77), 0u32)]);

    let written = Prevouts::apply_batches(&mut state, fills);
    assert_eq!(written.len(), 1);
    assert_eq!(written[0].1.len(), 1);
    let child_now = state.txs.get(&txid(2)).unwrap();
    assert_eq!(child_now.input[0].prevout.as_ref().map(|o| o.value), Some(20));
    assert!(child_now.input[1].prevout.is_none());

    let (fills, holes) = Prevouts::gather(&state.txs);
    assert!(fills.is_empty());
    assert_eq!(holes.len(), 1);
}
