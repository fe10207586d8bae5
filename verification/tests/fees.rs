use brk_core::{BlockStats, FeeRate, Fees};

/// A block whose seven fee-range percentiles are all `median`
/// (`fee` sats over `vsize` vbytes).
fn block(vsize: u64, fee: u64, per: u64) -> BlockStats {
    let median = FeeRate::new(fee, per);
    BlockStats {
        tx_count: 1,
        total_size: vsize,
        total_vsize: vsize,
        total_fee: vsize * fee / per,
        fee_range: [median, median, median, median, median, median, median],
    }
}

#[test]
fn empty_stats_collapses_every_tier_to_min_fee() {
    let min = FeeRate::new(2, 1);
    let fees = Fees::compute(&[], min);
    assert_eq!(fees.minimum_fee, 2_000);
    assert_eq!(fees.economy_fee, 2_000);
    assert_eq!(fees.hour_fee, 2_000);
    assert_eq!(fees.fastest_fee, 2_500);
    assert_eq!(fees.half_hour_fee, 2_250);
}

#[test]
fn min_fee_floor_lifts_below_one_sat_rates() {
    let min = FeeRate::new(0, 1);
    let fees = Fees::compute(&[], min);
    assert!(fees.minimum_fee >= 1);
    assert!(fees.fastest_fee >= 1_000);
}

#[test]
fn small_partial_final_block_collapses_to_min_fee() {
    let stats = vec![block(400_000, 25, 2)];
    let min = FeeRate::new(1, 1);
    let fees = Fees::compute(&stats, min);
    assert_eq!(fees.hour_fee, 1_000);
    assert_eq!(fees.economy_fee, 1_000);
}

#[test]
fn full_block_carries_signal_into_top_tier() {
    let stats = vec![block(1_000_000, 25, 1), block(1_000_000, 10, 1)];
    let min = FeeRate::new(1, 1);
    let fees = Fees::compute(&stats, min);
    assert_eq!(fees.fastest_fee, 25_500);
    assert_eq!(fees.hour_fee, 1_000);
}

#[test]
fn partial_final_block_tapers_linearly() {
    let stats = vec![block(725_000, 10, 1)];
    let min = FeeRate::new(1, 1);
    let fees = Fees::compute(&stats, min);
    assert_eq!(fees.fastest_fee, 5_000);
}

#[test]
fn fee_tiers_never_invert() {
    let stats = vec![
        block(1_000_000, 3, 1),
        block(1_000_000, 40, 1),
        block(800_000, 7, 1),
    ];
    let fees = Fees::compute(&stats, FeeRate::new(3, 2));
    assert!(fees.fastest_fee >= fees.half_hour_fee);
    assert!(fees.half_hour_fee >= fees.hour_fee);
    assert!(fees.hour_fee >= fees.economy_fee);
    assert!(fees.economy_fee >= fees.minimum_fee);
    assert_eq!(fees.minimum_fee, 1_500);
}

#[test]
fn second_block_is_smoothed_toward_the_first() {
    // Block 1 (full, next exists) blends its median with block 0's tier:
    // (1000 * 10 + 20_000 * 1) / (2 * 1) = 15_000 milli-sat/vB.
    let stats = vec![
        block(1_000_000, 20, 1),
        block(1_000_000, 10, 1),
        block(1_000_000, 10, 1),
    ];
    let fees = Fees::compute(&stats, FeeRate::new(1, 1));
    assert_eq!(fees.fastest_fee, 20_500);
    assert_eq!(fees.half_hour_fee, 15_250);
}
