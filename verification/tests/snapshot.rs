use brk_core::{can_reuse, FeeRate, Snapshot, SnapTx, Txid};

fn txid(seed: u8) -> Txid {
    let mut bytes = [0u8; 32];
    bytes[0] = seed;
    Txid(bytes)
}

fn snap_tx(seed: u8) -> SnapTx {
    SnapTx {
        txid: txid(seed),
        fee: 1_234,
        vsize: 100,
        weight: 400,
        size: 100,
        chunk_rate: FeeRate::new(1_234, 100),
        parents: vec![],
        children: vec![],
    }
}

#[test]
fn next_block_hash_is_deterministic_across_runs() {
    let txs = vec![snap_tx(1), snap_tx(2), snap_tx(3)];
    let blocks = vec![vec![0usize, 1, 2]];
    let h1 = Snapshot::hash_next_block(&blocks, &txs);
    let h2 = Snapshot::hash_next_block(&blocks, &txs);
    assert_eq!(h1, h2);
}

#[test]
fn next_block_hash_changes_with_block0_membership() {
    let txs = vec![snap_tx(1), snap_tx(2), snap_tx(3)];
    let two_member = vec![vec![0usize, 1]];
    let three_member = vec![vec![0usize, 1, 2]];
    assert_ne!(
        Snapshot::hash_next_block(&two_member, &txs),
        Snapshot::hash_next_block(&three_member, &txs),
    );
}

#[test]
fn next_block_hash_changes_with_block0_order() {
    let txs = vec![snap_tx(1), snap_tx(2), snap_tx(3)];
    let forward = vec![vec![0usize, 1, 2]];
    let reversed = vec![vec![2usize, 1, 0]];
    assert_ne!(
        Snapshot::hash_next_block(&forward, &txs),
        Snapshot::hash_next_block(&reversed, &txs),
    );
}

#[test]
fn empty_blocks_hash_is_zero() {
    let txs = vec![snap_tx(1)];
    let blocks: Vec<Vec<usize>> = vec![];
    assert_eq!(Snapshot::hash_next_block(&blocks, &txs), 0);
}

#[test]
fn next_block_hash_ignores_later_blocks_and_slot_numbers() {
    let txs = vec![snap_tx(1), snap_tx(2), snap_tx(3)];
    let moved = vec![snap_tx(3), snap_tx(1), snap_tx(2)];
    let a = Snapshot::hash_next_block(&[vec![0, 1], vec![2]], &txs);
    let b = Snapshot::hash_next_block(&[vec![1, 2]], &moved);
    assert_eq!(a, b);
}

/// The published projection plus a rebuild counter, driven the way the
/// cycle drives it: reuse when nothing relevant changed, else rebuild
/// with block 0 set to the node's template.
struct Rebuilds {
    snapshot: Snapshot,
    count: u64,
}

impl Rebuilds {
    fn new() -> Self {
        Rebuilds { snapshot: Snapshot::empty(), count: 0 }
    }

    fn tick(&mut self, gbt_txids: &[Txid], min_fee: FeeRate, membership_changed: bool) {
        if can_reuse(&self.snapshot, gbt_txids, min_fee, membership_changed) {
            return;
        }
        let mut snap = Snapshot::empty();
        snap.txs = gbt_txids
            .iter()
            .map(|t| SnapTx { txid: *t, ..snap_tx(0) })
            .collect();
        snap.blocks = vec![(0..gbt_txids.len()).collect()];
        snap.min_fee = min_fee;
        snap.next_block_hash = Snapshot::hash_next_block(&snap.blocks, &snap.txs);
        self.snapshot = snap;
        self.count += 1;
    }
}

fn min_fee(sats: u64) -> FeeRate {
    FeeRate::new(sats, 1_000)
}

#[test]
fn first_tick_always_builds() {
    let mut rebuilder = Rebuilds::new();
    rebuilder.tick(&[], min_fee(1), false);
    assert_eq!(rebuilder.count, 1);
}

#[test]
fn identical_inputs_reuse_snapshot() {
    let mut rebuilder = Rebuilds::new();
    let txids = vec![txid(1), txid(2)];
    rebuilder.tick(&txids, min_fee(1), true);
    rebuilder.tick(&txids, min_fee(1), false);
    assert_eq!(rebuilder.count, 1);
}

#[test]
fn reordered_template_rebuilds() {
    let mut rebuilder = Rebuilds::new();
    let mut txids = vec![txid(1), txid(2)];
    rebuilder.tick(&txids, min_fee(1), true);
    txids.reverse();
    rebuilder.tick(&txids, min_fee(1), false);
    assert_eq!(rebuilder.count, 2);
}

#[test]
fn changed_min_fee_rebuilds() {
    let mut rebuilder = Rebuilds::new();
    let txids = vec![txid(1)];
    rebuilder.tick(&txids, min_fee(1), true);
    rebuilder.tick(&txids, min_fee(2), false);
    assert_eq!(rebuilder.count, 2);
}

#[test]
fn changed_pool_rebuilds() {
    let mut rebuilder = Rebuilds::new();
    let txids = vec![txid(1)];
    rebuilder.tick(&txids, min_fee(1), true);
    rebuilder.tick(&txids, min_fee(1), true);
    assert_eq!(rebuilder.count, 2);
}

#[test]
fn the_same_rate_written_differently_is_reused() {
    let mut rebuilder = Rebuilds::new();
    let txids = vec![txid(1)];
    rebuilder.tick(&txids, FeeRate::new(1, 1_000), true);
    rebuilder.tick(&txids, FeeRate::new(2, 2_000), false);
    assert_eq!(rebuilder.count, 1);
}
