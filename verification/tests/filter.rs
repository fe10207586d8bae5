use brk_core::{
    OutputType, PaymentFilter, ScaledOutput, COMMON_ROUND_RANGES, MODERN_TX_OUTPUT_FANOUT_CAP,
    MODERN_TX_OUTPUT_FANOUT_CAP_START_HEIGHT, NUM_BINS, PRE_MODERN_TX_OUTPUT_FANOUT_CAP,
};

fn reference_is_common_round_value(value: u64) -> bool {
    if value == 0 {
        return false;
    }
    let value = u128::from(value);
    let magnitude = 10u128.pow(value.ilog10());
    let leading = (value + magnitude / 2) / magnitude;
    if !matches!(leading, 1 | 2 | 3 | 5 | 6 | 10) {
        return false;
    }
    let round = leading * magnitude;
    value.abs_diff(round) * 1000 <= round
}

/// The oracle's log-scale bin of a value: round(log10(sats) * 200).
fn bin_of(sats: u64) -> Option<u16> {
    if sats == 0 {
        return None;
    }
    let bin = ((sats as f64).log10() * 200.0).round() as i64;
    if bin >= 0 && (bin as usize) < NUM_BINS {
        Some(bin as u16)
    } else {
        None
    }
}

fn out(sats: u64, output_type: OutputType) -> ScaledOutput {
    ScaledOutput { sats, output_type, bin: bin_of(sats) }
}

fn payment_outputs(len: usize) -> Vec<ScaledOutput> {
    vec![out(12_345, OutputType::P2WPKH); len]
}

fn emitted_count(height: usize, len: usize) -> usize {
    PaymentFilter::for_height(height).for_each_bin(&payment_outputs(len)).len()
}

#[test]
fn early_fanout_cap_is_strict() {
    assert_eq!(
        emitted_count(
            MODERN_TX_OUTPUT_FANOUT_CAP_START_HEIGHT - 1,
            PRE_MODERN_TX_OUTPUT_FANOUT_CAP,
        ),
        PRE_MODERN_TX_OUTPUT_FANOUT_CAP
    );
    assert_eq!(
        emitted_count(
            MODERN_TX_OUTPUT_FANOUT_CAP_START_HEIGHT - 1,
            PRE_MODERN_TX_OUTPUT_FANOUT_CAP + 1,
        ),
        0
    );
}

#[test]
fn modern_fanout_cap_is_relaxed_but_not_lifted() {
    assert_eq!(
        emitted_count(MODERN_TX_OUTPUT_FANOUT_CAP_START_HEIGHT, MODERN_TX_OUTPUT_FANOUT_CAP),
        MODERN_TX_OUTPUT_FANOUT_CAP
    );
    assert_eq!(
        emitted_count(MODERN_TX_OUTPUT_FANOUT_CAP_START_HEIGHT, MODERN_TX_OUTPUT_FANOUT_CAP + 1),
        0
    );
}

fn emitted_count_modern(len: usize) -> usize {
    PaymentFilter::modern().for_each_bin(&payment_outputs(len)).len()
}

#[test]
fn modern_helper_uses_modern_fanout_cap() {
    assert_eq!(
        emitted_count_modern(MODERN_TX_OUTPUT_FANOUT_CAP),
        MODERN_TX_OUTPUT_FANOUT_CAP
    );
    assert_eq!(emitted_count_modern(MODERN_TX_OUTPUT_FANOUT_CAP + 1), 0);
}

#[test]
fn common_round_ranges_match_reference() {
    for &(start, end) in &COMMON_ROUND_RANGES {
        for value in [
            start.saturating_sub(2),
            start.saturating_sub(1),
            start,
            start.saturating_add(1),
            end.saturating_sub(1),
            end,
            end.saturating_add(1),
            end.saturating_add(2),
        ] {
            assert_eq!(
                PaymentFilter::is_common_round_value(value),
                reference_is_common_round_value(value),
                "value {value}"
            );
        }
    }

    let mut value = 0x9e37_79b9_7f4a_7c15_u64;
    for _ in 0..1_000_000 {
        value = value
            .wrapping_mul(6_364_136_223_846_793_005)
            .wrapping_add(1);
        assert_eq!(
            PaymentFilter::is_common_round_value(value),
            reference_is_common_round_value(value),
            "value {value}"
        );
    }
}

#[test]
fn payment_histogram_drops_op_return_transaction() {
    let sats = 12_345;
    let txs = vec![
        vec![out(sats, OutputType::P2WPKH), out(sats, OutputType::P2PKH)],
        vec![out(54_321, OutputType::OpReturn), out(sats, OutputType::P2WPKH)],
    ];
    let hist = PaymentFilter::modern().histogram(&txs);

    let bin = PaymentFilter::eligible_bin(sats, OutputType::P2WPKH, bin_of(sats)).unwrap() as usize;
    assert_eq!(hist.get(bin), 2);
}

#[test]
fn builds_fresh_payment_histogram() {
    let sats = 12_345;
    let txs = vec![vec![
        out(sats, OutputType::P2WPKH),
        out(100_000_000, OutputType::P2WPKH),
    ]];

    let hist = PaymentFilter::modern().histogram(&txs);

    let bin = PaymentFilter::eligible_bin(sats, OutputType::P2WPKH, bin_of(sats)).unwrap() as usize;
    assert_eq!(hist.get(bin), 1);
    assert_eq!(hist.total(), 1);
}

#[test]
fn taproot_dust_and_round_values_are_not_eligible() {
    assert_eq!(PaymentFilter::eligible_bin(12_345, OutputType::P2TR, bin_of(12_345)), None);
    assert_eq!(PaymentFilter::eligible_bin(999, OutputType::P2WPKH, bin_of(999)), None);
    assert_eq!(
        PaymentFilter::eligible_bin(100_000, OutputType::P2WPKH, bin_of(100_000)),
        None
    );
    assert_eq!(
        PaymentFilter::eligible_bin(12_345, OutputType::P2WPKH, bin_of(12_345)),
        bin_of(12_345)
    );
}

#[test]
fn common_round_ranges_table_is_generated_exactly() {
    assert_eq!(PaymentFilter::common_round_ranges(), COMMON_ROUND_RANGES);
    assert_eq!(COMMON_ROUND_RANGES[0], (1, 1));
    assert!(PaymentFilter::is_common_round_value(100_000_000));
    assert!(PaymentFilter::is_common_round_value(100_100_000));
    assert!(!PaymentFilter::is_common_round_value(100_100_001));
    assert!(!PaymentFilter::is_common_round_value(40_000));
}
