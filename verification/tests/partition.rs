use brk_core::{FeeRate, Partitioner, SnapTx, TxIndex, Txid, MAX_BLOCK_VSIZE};

fn snap_tx(seed: u8, fee: u64, vsize: u64) -> SnapTx {
    let mut bytes = [0u8; 32];
    bytes[0] = seed;
    SnapTx {
        txid: Txid(bytes),
        fee,
        vsize,
        weight: vsize * 4,
        size: vsize,
        chunk_rate: FeeRate::new(fee, vsize),
        parents: Vec::new(),
        children: Vec::new(),
    }
}

#[test]
fn zero_blocks_returns_empty() {
    let txs = vec![snap_tx(1, 100, 100)];
    let blocks = Partitioner::partition(&txs, &[0], 0);
    assert!(blocks.is_empty());
}

#[test]
fn higher_chunk_rate_packs_first() {
    let txs = vec![snap_tx(1, 100, 100), snap_tx(2, 1_000, 100)];
    let blocks = Partitioner::partition(&txs, &[0, 0], 3);
    assert_eq!(blocks[0][0], 1 as TxIndex);
    assert_eq!(blocks[0][1], 0 as TxIndex);
}

#[test]
fn excluded_txs_are_skipped() {
    let txs = vec![snap_tx(1, 100, 100), snap_tx(2, 1_000, 100)];
    let excluded = [0, 1];
    let blocks = Partitioner::partition(&txs, &excluded, 3);
    let flat: Vec<TxIndex> = blocks.into_iter().flatten().collect();
    assert_eq!(flat, vec![0 as TxIndex]);
}

#[test]
fn vsize_cap_respected_except_for_last_block() {
    let big = MAX_BLOCK_VSIZE - 100;
    let txs = vec![
        snap_tx(1, 1_000, big),
        snap_tx(2, 900, big),
        snap_tx(3, 800, big),
    ];
    let included = [0, 0, 0];
    let one_block = Partitioner::partition(&txs, &included, 1);
    assert_eq!(one_block.len(), 1);
    assert_eq!(one_block[0].len(), 3, "final block ignores vsize cap");

    let three_blocks = Partitioner::partition(&txs, &included, 3);
    assert_eq!(three_blocks[0].len(), 1);
    assert_eq!(three_blocks[1].len(), 1);
    assert_eq!(three_blocks[2].len(), 1);
}

#[test]
fn txid_breaks_ties_within_same_rate() {
    let txs = vec![
        snap_tx(0x20, 100, 100),
        snap_tx(0x10, 100, 100),
        snap_tx(0x30, 100, 100),
    ];
    let blocks = Partitioner::partition(&txs, &[0, 0, 0], 1);
    let txids: Vec<u8> = blocks[0].iter().map(|&i| txs[i].txid.0[0]).collect();
    assert_eq!(txids, vec![0x10, 0x20, 0x30]);
}

#[test]
fn every_candidate_lands_in_exactly_one_block() {
    let txs: Vec<SnapTx> = (0..40u8)
        .map(|i| snap_tx(i, 100 + u64::from(i) * 7, 40_000 + u64::from(i) * 1_000))
        .collect();
    let mut excluded = vec![0u8; txs.len()];
    excluded[3] = 1;
    excluded[17] = 1;
    let blocks = Partitioner::partition(&txs, &excluded, 4);
    assert_eq!(blocks.len(), 4);
    let mut seen: Vec<TxIndex> = blocks.iter().flatten().copied().collect();
    seen.sort_unstable();
    let expected: Vec<TxIndex> = (0..txs.len()).filter(|&i| excluded[i] == 0).collect();
    assert_eq!(seen, expected);
    for block in &blocks[..3] {
        let vsize: u64 = block.iter().map(|&i| txs[i].vsize).sum();
        assert!(vsize <= MAX_BLOCK_VSIZE);
    }
}
