use std::collections::HashMap;

use brk_core::{
    BlockTemplateTx, Fetcher, MempoolEntryInfo, State, Transaction, TxEntry, TxIn, TxOut, Txid,
    MAX_TX_FETCHES_PER_CYCLE,
};

fn txid(seed: u8) -> Txid {
    let mut bytes = [0u8; 32];
    bytes[0] = seed;
    Txid(bytes)
}

fn fake_tx(seed: u8) -> Transaction {
    Transaction {
        txid: txid(seed),
        version: 2,
        lock_time: 0,
        input: vec![TxIn {
            txid: txid(seed.wrapping_add(0x80)),
            vout: 0,
            prevout: None,
            is_coinbase: false,
            sequence: 0xffff_fffd,
        }],
        output: vec![TxOut { script_pubkey: vec![0x51], value: 1_000 }],
        total_size: 200,
        weight: 800,
        total_sigop_cost: 0,
        fee: 0,
    }
}

fn info(t: Txid) -> MempoolEntryInfo {
    MempoolEntryInfo { txid: t, vsize: 100, weight: 400, fee: 100, first_seen: 0, depends: vec![] }
}

fn state_with(seeds: &[u8]) -> State {
    let mut state = State::new();
    for &s in seeds {
        let tx = fake_tx(s);
        let entry = TxEntry::new(&info(tx.txid), 100, false);
        state.txs.insert(tx, entry);
    }
    state
}

fn template_tx(seed: u8, weight: u64) -> BlockTemplateTx {
    BlockTemplateTx {
        txid: txid(seed),
        weight,
        fee: 500,
        depends: vec![txid(seed.wrapping_add(1))],
        tx: fake_tx(seed),
    }
}

#[test]
fn plan_fetches_only_txids_neither_live_nor_in_the_template() {
    let state = state_with(&[1]);
    let live = [txid(1), txid(2), txid(3), txid(4)];
    let template = [template_tx(3, 400), template_tx(1, 400)];
    let plan = Fetcher::plan(&live, &template, &state);
    assert_eq!(plan.new_txids, vec![txid(2), txid(4)]);
    assert_eq!(plan.synthesize, vec![true, false]);
}

#[test]
fn plan_caps_the_fetch_batch() {
    let state = State::new();
    let live: Vec<Txid> = (0..MAX_TX_FETCHES_PER_CYCLE + 5)
        .map(|i| {
            let mut bytes = [0u8; 32];
            bytes[..8].copy_from_slice(&(i as u64).to_le_bytes());
            Txid(bytes)
        })
        .collect();
    let plan = Fetcher::plan(&live, &[], &state);
    assert_eq!(plan.new_txids.len(), MAX_TX_FETCHES_PER_CYCLE);
    assert_eq!(plan.new_txids[..], live[..MAX_TX_FETCHES_PER_CYCLE]);
}

#[test]
fn assemble_synthesizes_template_only_entries_and_extends_the_listing() {
    let template = vec![template_tx(3, 401), template_tx(1, 400)];
    let fetched_entry = info(txid(2));
    let mut fetched_txs = HashMap::default();
    fetched_txs.insert(txid(2), fake_tx(2));
    let out = Fetcher::assemble(
        vec![txid(2)],
        template,
        &[true, false],
        vec![fetched_entry],
        fetched_txs,
        1_700_000_000,
    );
    assert_eq!(out.block_template_txids, vec![txid(3), txid(1)]);
    assert_eq!(out.live_txids, vec![txid(2), txid(3), txid(1)]);
    assert_eq!(out.new_entries.len(), 2);
    let synth = &out.new_entries[1];
    assert_eq!(synth.txid, txid(3));
    assert_eq!(synth.vsize, 101);
    assert_eq!(synth.weight, 401);
    assert_eq!(synth.fee, 500);
    assert_eq!(synth.first_seen, 1_700_000_000);
    assert_eq!(synth.depends, vec![txid(4)]);
    assert_eq!(out.new_txs.len(), 2);
    assert!(out.new_txs.contains_key(&txid(3)));
    assert!(!out.new_txs.contains_key(&txid(1)));
}
