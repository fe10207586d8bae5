use brk_core::{intersect_dates, merkle_path, period_bounds, round_half_up, BlockBucket, Date, Txid};

#[test]
fn date_intersection_stays_sorted() {
    let a = Date::new(2026, 8, 1);
    let b = Date::new(2026, 8, 2);
    let c = Date::new(2026, 8, 3);

    assert_eq!(intersect_dates(vec![a, b, c], vec![a, c]), vec![a, c]);
}

#[test]
fn date_intersection_of_disjoint_lists_is_empty() {
    let a = Date::new(2025, 1, 1);
    let b = Date::new(2025, 12, 31);
    assert_eq!(intersect_dates(vec![a], vec![b]), vec![]);
    assert_eq!(intersect_dates(vec![], vec![a, b]), vec![]);
}

#[test]
fn round_half_up_rounds_halves_upwards() {
    assert_eq!(round_half_up(10, 4), 3);
    assert_eq!(round_half_up(9, 4), 2);
    assert_eq!(round_half_up(11, 4), 3);
    assert_eq!(round_half_up(0, 3), 0);
    assert_eq!(round_half_up(u64::MAX, 1), u64::MAX);
}

#[test]
fn block_bucket_means_over_its_offsets() {
    let bucket = BlockBucket::new(101, 1_700_000_000, vec![0, 2, 3]);
    let values = [10u64, 1_000, 20, 31];
    assert_eq!(bucket.mean(&values), 20);
    assert_eq!(bucket.mean_rounded(&values), 20);
    let halves = BlockBucket::new(0, 0, vec![0, 1]);
    assert_eq!(halves.mean(&[1, 2]), 1);
    assert_eq!(halves.mean_rounded(&[1, 2]), 2);
}

fn txid(seed: u8) -> Txid {
    let mut bytes = [0u8; 32];
    bytes[0] = seed;
    bytes[31] = seed.wrapping_mul(3);
    Txid(bytes)
}

fn reversed(mut h: [u8; 32]) -> [u8; 32] {
    h.reverse();
    h
}

#[test]
fn merkle_path_of_a_single_transaction_is_empty() {
    assert!(merkle_path(&[txid(1)], 0).is_empty());
}

#[test]
fn merkle_path_starts_with_the_display_order_sibling() {
    let txids = [txid(1), txid(2), txid(3)];
    let path = merkle_path(&txids, 0);
    assert_eq!(path.len(), 2);
    assert_eq!(path[0], reversed(txids[1].0));

    let last = merkle_path(&txids, 2);
    assert_eq!(last.len(), 2);
    // an odd level pairs its last hash with itself
    assert_eq!(last[0], reversed(txids[2].0));
    // both leaves under the same parent share the next sibling
    assert_eq!(merkle_path(&txids, 0)[1], merkle_path(&txids, 1)[1]);
    assert_ne!(last[1], path[1]);
}

#[test]
fn date_intersection_of_unsorted_lists_follows_the_merge_walk() {
    let a = Date::new(2026, 8, 1);
    let c = Date::new(2026, 8, 3);
    assert_eq!(intersect_dates(vec![c, a], vec![a, c]), vec![c]);
}

#[test]
fn period_bounds_count_epochs_and_halvings_up_to_the_tip() {
    assert_eq!(period_bounds(0), (0, 0));
    assert_eq!(period_bounds(1), (1, 1));
    assert_eq!(period_bounds(2016), (1, 1));
    assert_eq!(period_bounds(2017), (2, 1));
    assert_eq!(period_bounds(210_001), (105, 2));
}
