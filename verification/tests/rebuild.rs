use brk_core::{
    build_snapshot, FeeRate, Fees, PrefixIndex, SnapTx, Snapshot, TxIndex, Txid, NUM_BLOCKS,
};

fn txid(seed: u8) -> Txid {
    let mut bytes = [0u8; 32];
    bytes[0] = seed;
    Txid(bytes)
}

fn snap_tx(seed: u8, fee: u64, vsize: u64) -> SnapTx {
    SnapTx {
        txid: txid(seed),
        fee,
        vsize,
        weight: vsize * 4,
        size: vsize + 10,
        chunk_rate: FeeRate::new(fee, vsize),
        parents: Vec::new(),
        children: Vec::new(),
    }
}

fn pool() -> (Vec<SnapTx>, PrefixIndex) {
    let txs = vec![
        snap_tx(1, 1_000, 100),
        snap_tx(2, 5_000, 100),
        snap_tx(3, 2_000, 100),
        snap_tx(4, 300, 100),
    ];
    let mut index = PrefixIndex::default();
    for (i, t) in txs.iter().enumerate() {
        index.insert(t.txid.prefix(), i);
    }
    (txs, index)
}

#[test]
fn block_zero_follows_the_template_and_the_rest_is_packed_by_rate() {
    let (txs, index) = pool();
    let min_fee = FeeRate::new(1_000, 1_000);
    // the template lists tx 3, an unknown tx, then tx 1
    let gbt = vec![txid(3), txid(99), txid(1)];
    let snap = build_snapshot(txs.clone(), index, &gbt, min_fee);

    assert_eq!(snap.blocks.len(), NUM_BLOCKS);
    assert_eq!(snap.blocks[0], vec![2 as TxIndex, 0]);
    assert_eq!(snap.blocks[1], vec![1 as TxIndex, 3]);
    assert!(snap.blocks[2..].iter().all(|b| b.is_empty()));
    assert_eq!(snap.min_fee, min_fee);
    assert_eq!(snap.block0_txids(), vec![txid(3), txid(1)]);
}

#[test]
fn block_stats_total_and_rank_the_members() {
    let (txs, index) = pool();
    let snap = build_snapshot(txs, index, &[txid(3), txid(1)], FeeRate::new(1_000, 1_000));
    let s0 = &snap.block_stats[0];
    assert_eq!(s0.tx_count, 2);
    assert_eq!(s0.total_vsize, 200);
    assert_eq!(s0.total_size, 220);
    assert_eq!(s0.total_fee, 3_000);
    // lowest rate at the 0th percentile, highest at the 100th
    assert_eq!(s0.fee_range[0], FeeRate::new(1_000, 100));
    assert_eq!(s0.fee_range[6], FeeRate::new(2_000, 100));
    let empty = &snap.block_stats[7];
    assert_eq!(empty.tx_count, 0);
    assert_eq!(empty.fee_range[3], FeeRate::new(0, 1));
}

#[test]
fn fees_and_hash_come_from_the_built_blocks() {
    let (txs, index) = pool();
    let min_fee = FeeRate::new(2_000, 1_000);
    let snap = build_snapshot(txs.clone(), index, &[txid(2)], min_fee);
    assert_eq!(snap.fees, Fees::compute(&snap.block_stats, min_fee));
    assert_eq!(snap.next_block_hash, Snapshot::hash_next_block(&snap.blocks, &txs));
    assert_ne!(snap.next_block_hash, 0);

    let (txs2, index2) = pool();
    let other = build_snapshot(txs2, index2, &[txid(3)], min_fee);
    assert_ne!(other.next_block_hash, snap.next_block_hash);
}
