use vstd::prelude::*;

use crate::histogram::{HistogramRaw, NUM_BINS};

verus! {

/// Dust floor: outputs below this many sats are too small to be payments.
pub const MIN_SATS: u64 = 1000;

/// Script type of a transaction output.
#[derive(Debug, Clone, Copy, PartialEq, Eq, Structural)]
pub enum OutputType {
    P2PK65,
    P2PK33,
    P2PKH,
    P2MS,
    P2SH,
    OpReturn,
    P2WPKH,
    P2WSH,
    P2TR,
    P2A,
    Empty,
    Unknown,
}

/// One transaction output as the payment filter sees it: its value, its
/// script type and its log-scale bin (`None` when the value falls outside
/// the histogram).
#[derive(Debug, Clone, Copy, PartialEq, Eq, Structural)]
pub struct ScaledOutput {
    pub sats: u64,
    pub output_type: OutputType,
    pub bin: Option<u16>,
}

/// Leading digits of the round amounts: 1, 2, 3, 5 and 6 times a power of ten.
pub open spec fn leading_digit(d: int) -> int {
    if d == 0 {
        1
    } else if d == 1 {
        2
    } else if d == 2 {
        3
    } else if d == 3 {
        5
    } else {
        6
    }
}

pub open spec fn pow10(m: nat) -> nat
    decreases m,
{
    if m == 0 {
        1
    } else {
        10 * pow10((m - 1) as nat)
    }
}

/// The round value behind range `idx`: five leading digits across
/// 10^0..10^18, then 10^19 alone.
pub open spec fn round_value(idx: int) -> int {
    if idx < 95 {
        leading_digit(idx % 5) * pow10((idx / 5) as nat)
    } else {
        pow10(19) as int
    }
}

/// Range `idx` of the round-value table: the round value plus or minus
/// one thousandth of it (rounded down).
pub open spec fn round_range(idx: int) -> (int, int) {
    let r = round_value(idx);
    (r - r / 1000, r + r / 1000)
}

/// A value lies in one of the round-value ranges.
pub open spec fn is_round(value: int) -> bool {
    exists|idx: int| 0 <= idx < 96 && #[trigger] round_range(idx).0 <= value <= round_range(idx).1
}

/// The output-count cap a filter applies to a whole transaction.
pub open spec fn keeps_tx(cap: nat, outputs: Seq<ScaledOutput>) -> bool {
    &&& outputs.len() <= cap
    &&& forall|j: int| 0 <= j < outputs.len() ==> outputs[j].output_type != OutputType::OpReturn
}

/// The bin an output contributes when its transaction is kept.
pub open spec fn output_bin(o: ScaledOutput) -> Option<u16> {
    if o.output_type == OutputType::P2TR || o.sats < MIN_SATS || is_round(o.sats as int) {
        None
    } else {
        o.bin
    }
}

/// Bins emitted, in order, for the outputs of one kept transaction.
pub open spec fn emitted_bins(outputs: Seq<ScaledOutput>) -> Seq<u16>
    decreases outputs.len(),
{
    if outputs.len() == 0 {
        Seq::empty()
    } else {
        let rest = emitted_bins(outputs.drop_last());
        match output_bin(outputs.last()) {
            Some(b) => rest.push(b),
            None => rest,
        }
    }
}

/// Bins a filter with fan-out cap `cap` emits for one transaction.
pub open spec fn tx_emitted(cap: nat, outputs: Seq<ScaledOutput>) -> Seq<u16> {
    if keeps_tx(cap, outputs) {
        emitted_bins(outputs)
    } else {
        Seq::empty()
    }
}

/// Number of times `bin` occurs in `bins`.
pub open spec fn count_bin(bins: Seq<u16>, bin: int) -> nat
    decreases bins.len(),
{
    if bins.len() == 0 {
        0
    } else {
        count_bin(bins.drop_last(), bin) + if bins.last() == bin {
            1nat
        } else {
            0nat
        }
    }
}

/// Histogram count of `bin` over the first `n` transactions.
pub open spec fn hist_count(cap: nat, txs: Seq<Vec<ScaledOutput>>, n: int, bin: int) -> nat
    decreases n,
{
    if n <= 0 {
        0
    } else {
        hist_count(cap, txs, n - 1, bin) + count_bin(tx_emitted(cap, txs[n - 1]@), bin)
    }
}

/// Total number of outputs across the first `n` transactions.
pub open spec fn total_outputs(txs: Seq<Vec<ScaledOutput>>, n: int) -> nat
    decreases n,
{
    if n <= 0 {
        0
    } else {
        total_outputs(txs, n - 1) + txs[n - 1]@.len()
    }
}

/// Every output carries an in-range bin (or none).
pub open spec fn bins_in_range(txs: Seq<Vec<ScaledOutput>>) -> bool {
    forall|i: int, j: int|
        0 <= i < txs.len() && 0 <= j < txs[i]@.len() ==> match (#[trigger] txs[i]@[j]).bin {
            Some(b) => b < NUM_BINS,
            None => true,
        }
}

proof fn lemma_emitted_in(outputs: Seq<ScaledOutput>)
    ensures
        emitted_bins(outputs).len() <= outputs.len(),
        forall|k: int|
            0 <= k < emitted_bins(outputs).len() ==> exists|j: int|
                0 <= j < outputs.len() && (#[trigger] outputs[j]).bin == Some(
                    #[trigger] emitted_bins(outputs)[k],
                ),
    decreases outputs.len(),
{
    if outputs.len() > 0 {
        let rest = outputs.drop_last();
        lemma_emitted_in(rest);
        assert forall|k: int| 0 <= k < emitted_bins(outputs).len() implies exists|j: int|
            0 <= j < outputs.len() && (#[trigger] outputs[j]).bin == Some(
                #[trigger] emitted_bins(outputs)[k],
            ) by {
            if k < emitted_bins(rest).len() {
                let j = choose|j: int|
                    0 <= j < rest.len() && (#[trigger] rest[j]).bin == Some(emitted_bins(rest)[k]);
                assert(outputs[j] == rest[j]);
            } else {
                assert(outputs[outputs.len() - 1] == outputs.last());
            }
        }
    }
}

proof fn lemma_count_bin_push(s: Seq<u16>, x: u16, b: int)
    ensures
        count_bin(s.push(x), b) == count_bin(s, b) + if x == b {
            1nat
        } else {
            0nat
        },
{
    assert(s.push(x).drop_last() == s);
}

proof fn lemma_count_bin_le(s: Seq<u16>, b: int)
    ensures
        count_bin(s, b) <= s.len(),
    decreases s.len(),
{
    if s.len() > 0 {
        lemma_count_bin_le(s.drop_last(), b);
    }
}

proof fn lemma_hist_count_le(cap: nat, txs: Seq<Vec<ScaledOutput>>, n: int, b: int)
    ensures
        hist_count(cap, txs, n, b) <= total_outputs(txs, n),
    decreases n,
{
    if n > 0 {
        lemma_hist_count_le(cap, txs, n - 1, b);
        lemma_count_bin_le(tx_emitted(cap, txs[n - 1]@), b);
        lemma_emitted_in(txs[n - 1]@);
    }
}

proof fn lemma_total_outputs_mono(txs: Seq<Vec<ScaledOutput>>, m: int, n: int)
    requires
        0 <= m <= n,
    ensures
        total_outputs(txs, m) <= total_outputs(txs, n),
    decreases n - m,
{
    if m < n {
        lemma_total_outputs_mono(txs, m, n - 1);
    }
}

/// The round-value ranges, ascending and disjoint.
pub const COMMON_ROUND_RANGES: [(u64, u64); 96] = [
    (1, 1),
    (2, 2),
    (3, 3),
    (5, 5),
    (6, 6),
    (10, 10),
    (20, 20),
    (30, 30),
    (50, 50),
    (60, 60),
    (100, 100),
    (200, 200),
    (300, 300),
    (500, 500),
    (600, 600),
    (999, 1001),
    (1998, 2002),
    (2997, 3003),
    (4995, 5005),
    (5994, 6006),
    (9990, 10010),
    (19980, 20020),
    (29970, 30030),
    (49950, 50050),
    (59940, 60060),
    (99900, 100100),
    (199800, 200200),
    (299700, 300300),
    (499500, 500500),
    (599400, 600600),
    (999000, 1001000),
    (1998000, 2002000),
    (2997000, 3003000),
    (4995000, 5005000),
    (5994000, 6006000),
    (9990000, 10010000),
    (19980000, 20020000),
    (29970000, 30030000),
    (49950000, 50050000),
    (59940000, 60060000),
    (99900000, 100100000),
    (199800000, 200200000),
    (299700000, 300300000),
    (499500000, 500500000),
    (599400000, 600600000),
    (999000000, 1001000000),
    (1998000000, 2002000000),
    (2997000000, 3003000000),
    (4995000000, 5005000000),
    (5994000000, 6006000000),
    (9990000000, 10010000000),
    (19980000000, 20020000000),
    (29970000000, 30030000000),
    (49950000000, 50050000000),
    (59940000000, 60060000000),
    (99900000000, 100100000000),
    (199800000000, 200200000000),
    (299700000000, 300300000000),
    (499500000000, 500500000000),
    (599400000000, 600600000000),
    (999000000000, 1001000000000),
    (1998000000000, 2002000000000),
    (2997000000000, 3003000000000),
    (4995000000000, 5005000000000),
    (5994000000000, 6006000000000),
    (9990000000000, 10010000000000),
    (19980000000000, 20020000000000),
    (29970000000000, 30030000000000),
    (49950000000000, 50050000000000),
    (59940000000000, 60060000000000),
    (99900000000000, 100100000000000),
    (199800000000000, 200200000000000),
    (299700000000000, 300300000000000),
    (499500000000000, 500500000000000),
    (599400000000000, 600600000000000),
    (999000000000000, 1001000000000000),
    (1998000000000000, 2002000000000000),
    (2997000000000000, 3003000000000000),
    (4995000000000000, 5005000000000000),
    (5994000000000000, 6006000000000000),
    (9990000000000000, 10010000000000000),
    (19980000000000000, 20020000000000000),
    (29970000000000000, 30030000000000000),
    (49950000000000000, 50050000000000000),
    (59940000000000000, 60060000000000000),
    (99900000000000000, 100100000000000000),
    (199800000000000000, 200200000000000000),
    (299700000000000000, 300300000000000000),
    (499500000000000000, 500500000000000000),
    (599400000000000000, 600600000000000000),
    (999000000000000000, 1001000000000000000),
    (1998000000000000000, 2002000000000000000),
    (2997000000000000000, 3003000000000000000),
    (4995000000000000000, 5005000000000000000),
    (5994000000000000000, 6006000000000000000),
    (9990000000000000000, 10010000000000000000)

];

/// Round-dollar payment filter.
///
/// Input: transaction outputs. Output: eligible log-scale bins or a fresh block
/// histogram. The only state is the transaction-output fan-out cap selected by
/// block height, or the modern cap for live modern transaction streams.
#[derive(Clone, Copy, Debug, Eq, PartialEq, Structural)]
pub struct PaymentFilter {
    tx_output_fanout_cap: usize,
}

/// Pre-modern transaction-output fan-out cap. Above this, the transaction is
/// a batch payout (exchange sweep, mixer fan-out), not a round-dollar payment.
pub const PRE_MODERN_TX_OUTPUT_FANOUT_CAP: usize = 100;

/// Modern-chain transaction-output fan-out cap.
pub const MODERN_TX_OUTPUT_FANOUT_CAP: usize = 250;

/// Height where the pre-modern cap relaxes to the modern cap.
pub const MODERN_TX_OUTPUT_FANOUT_CAP_START_HEIGHT: usize = 630_000;


proof fn lemma_pow10_values()
    ensures
        pow10(0) == 1,
        pow10(5) == 100000,
        pow10(10) == 10000000000,
        pow10(15) == 1000000000000000,
        pow10(18) == 1000000000000000000,
        pow10(19) == 10000000000000000000,
        forall|m: nat| m <= 19 ==> #[trigger] pow10(m) == pow10_table(m),
{
    assert(pow10(0) == 1);
    assert(pow10(1) == 10);
    assert(pow10(2) == 100);
    assert(pow10(3) == 1000);
    assert(pow10(4) == 10000);
    assert(pow10(5) == 100000);
    assert(pow10(6) == 1000000);
    assert(pow10(7) == 10000000);
    assert(pow10(8) == 100000000);
    assert(pow10(9) == 1000000000);
    assert(pow10(10) == 10000000000);
    assert(pow10(11) == 100000000000);
    assert(pow10(12) == 1000000000000);
    assert(pow10(13) == 10000000000000);
    assert(pow10(14) == 100000000000000);
    assert(pow10(15) == 1000000000000000);
    assert(pow10(16) == 10000000000000000);
    assert(pow10(17) == 100000000000000000);
    assert(pow10(18) == 1000000000000000000);
    assert(pow10(19) == 10000000000000000000);
    assert forall|m: nat| m <= 19 implies #[trigger] pow10(m) == pow10_table(m) by {
        if m == 0 {} else if m == 1 {} else if m == 2 {} else if m == 3 {} else if m == 4 {}
        else if m == 5 {} else if m == 6 {} else if m == 7 {} else if m == 8 {} else if m == 9 {}
        else if m == 10 {} else if m == 11 {} else if m == 12 {} else if m == 13 {}
        else if m == 14 {} else if m == 15 {} else if m == 16 {} else if m == 17 {}
        else if m == 18 {} else {}
    }
}

spec fn pow10_table(m: nat) -> int {
    if m == 0 { 1 } else if m == 1 { 10 } else if m == 2 { 100 } else if m == 3 { 1000 }
    else if m == 4 { 10000 } else if m == 5 { 100000 } else if m == 6 { 1000000 }
    else if m == 7 { 10000000 } else if m == 8 { 100000000 } else if m == 9 { 1000000000 }
    else if m == 10 { 10000000000 } else if m == 11 { 100000000000 }
    else if m == 12 { 1000000000000 } else if m == 13 { 10000000000000 }
    else if m == 14 { 100000000000000 } else if m == 15 { 1000000000000000 }
    else if m == 16 { 10000000000000000 } else if m == 17 { 100000000000000000 }
    else if m == 18 { 1000000000000000000 } else { 10000000000000000000 }
}

proof fn lemma_ascending(t: Seq<(u64, u64)>, n: nat, i: int, j: int)
    requires
        forall|k: int| 0 <= k < n ==> (#[trigger] t[k]).0 <= t[k].1,
        forall|k: int| 0 <= k < n - 1 ==> (#[trigger] t[k]).1 < t[k + 1].0,
        0 <= i < j < n,
    ensures
        t[i].1 < t[j].0,
    decreases j - i,
{
    if j > i + 1 {
        lemma_ascending(t, n, i, j - 1);
        assert(t[j - 1].0 <= t[j - 1].1);
        assert(t[j - 1].1 < t[j].0);
    }
}

proof fn lemma_round_range_entry(i: int)
    requires
        0 <= i < 96,
    ensures
        COMMON_ROUND_RANGES@[i].0 == round_range(i).0,
        COMMON_ROUND_RANGES@[i].1 == round_range(i).1,
        COMMON_ROUND_RANGES@[i].0 <= COMMON_ROUND_RANGES@[i].1,
{
    lemma_common_round_ranges();
}

proof fn lemma_round_ranges_ascend(i: int, j: int)
    requires
        0 <= i < j < 96,
    ensures
        COMMON_ROUND_RANGES@[i].1 < COMMON_ROUND_RANGES@[j].0,
{
    lemma_common_round_ranges();
}

/// The literal table is the round-value table, ascending and disjoint.
#[verifier::rlimit(100)]
pub proof fn lemma_common_round_ranges()
    ensures
        COMMON_ROUND_RANGES@.len() == 96,
        forall|i: int|
            0 <= i < 96 ==> (#[trigger] COMMON_ROUND_RANGES@[i]).0 == round_range(i).0
                && COMMON_ROUND_RANGES@[i].1 == round_range(i).1,
        forall|i: int, j: int|
            0 <= i < j < 96 ==> (#[trigger] COMMON_ROUND_RANGES@[i]).1
                < (#[trigger] COMMON_ROUND_RANGES@[j]).0,
        forall|i: int|
            0 <= i < 96 ==> (#[trigger] COMMON_ROUND_RANGES@[i]).0 <= COMMON_ROUND_RANGES@[i].1,
{
    lemma_pow10_values();
    let t = COMMON_ROUND_RANGES@;
    assert forall|i: int| 0 <= i < 96 implies (#[trigger] t[i]).0 == round_range(i).0
        && t[i].1 == round_range(i).1 && t[i].0 <= t[i].1 by {
        if i == 0 {
            assert(pow10(0) == pow10_table(0));
            assert(round_range(0) == (1int, 1int));
        } else if i == 1 {
            assert(pow10(0) == pow10_table(0));
            assert(round_range(1) == (2int, 2int));
        } else if i == 2 {
            assert(pow10(0) == pow10_table(0));
            assert(round_range(2) == (3int, 3int));
        } else if i == 3 {
            assert(pow10(0) == pow10_table(0));
            assert(round_range(3) == (5int, 5int));
        } else if i == 4 {
            assert(pow10(0) == pow10_table(0));
            assert(round_range(4) == (6int, 6int));
        } else if i == 5 {
            assert(pow10(1) == pow10_table(1));
            assert(round_range(5) == (10int, 10int));
        } else if i == 6 {
            assert(pow10(1) == pow10_table(1));
            assert(round_range(6) == (20int, 20int));
        } else if i == 7 {
            assert(pow10(1) == pow10_table(1));
            assert(round_range(7) == (30int, 30int));
        } else if i == 8 {
            assert(pow10(1) == pow10_table(1));
            assert(round_range(8) == (50int, 50int));
        } else if i == 9 {
            assert(pow10(1) == pow10_table(1));
            assert(round_range(9) == (60int, 60int));
        } else if i == 10 {
            assert(pow10(2) == pow10_table(2));
            assert(round_range(10) == (100int, 100int));
        } else if i == 11 {
            assert(pow10(2) == pow10_table(2));
            assert(round_range(11) == (200int, 200int));
        } else if i == 12 {
            assert(pow10(2) == pow10_table(2));
            assert(round_range(12) == (300int, 300int));
        } else if i == 13 {
            assert(pow10(2) == pow10_table(2));
            assert(round_range(13) == (500int, 500int));
        } else if i == 14 {
            assert(pow10(2) == pow10_table(2));
            assert(round_range(14) == (600int, 600int));
        } else if i == 15 {
            assert(pow10(3) == pow10_table(3));
            assert(round_range(15) == (999int, 1001int));
        } else if i == 16 {
            assert(pow10(3) == pow10_table(3));
            assert(round_range(16) == (1998int, 2002int));
        } else if i == 17 {
            assert(pow10(3) == pow10_table(3));
            assert(round_range(17) == (2997int, 3003int));
        } else if i == 18 {
            assert(pow10(3) == pow10_table(3));
            assert(round_range(18) == (4995int, 5005int));
        } else if i == 19 {
            assert(pow10(3) == pow10_table(3));
            assert(round_range(19) == (5994int, 6006int));
        } else if i == 20 {
            assert(pow10(4) == pow10_table(4));
            assert(round_range(20) == (9990int, 10010int));
        } else if i == 21 {
            assert(pow10(4) == pow10_table(4));
            assert(round_range(21) == (19980int, 20020int));
        } else if i == 22 {
            assert(pow10(4) == pow10_table(4));
            assert(round_range(22) == (29970int, 30030int));
        } else if i == 23 {
            assert(pow10(4) == pow10_table(4));
            assert(round_range(23) == (49950int, 50050int));
        } else if i == 24 {
            assert(pow10(4) == pow10_table(4));
            assert(round_range(24) == (59940int, 60060int));
        } else if i == 25 {
            assert(pow10(5) == pow10_table(5));
            assert(round_range(25) == (99900int, 100100int));
        } else if i == 26 {
            assert(pow10(5) == pow10_table(5));
            assert(round_range(26) == (199800int, 200200int));
        } else if i == 27 {
            assert(pow10(5) == pow10_table(5));
            assert(round_range(27) == (299700int, 300300int));
        } else if i == 28 {
            assert(pow10(5) == pow10_table(5));
            assert(round_range(28) == (499500int, 500500int));
        } else if i == 29 {
            assert(pow10(5) == pow10_table(5));
            assert(round_range(29) == (599400int, 600600int));
        } else if i == 30 {
            assert(pow10(6) == pow10_table(6));
            assert(round_range(30) == (999000int, 1001000int));
        } else if i == 31 {
            assert(pow10(6) == pow10_table(6));
            assert(round_range(31) == (1998000int, 2002000int));
        } else if i == 32 {
            assert(pow10(6) == pow10_table(6));
            assert(round_range(32) == (2997000int, 3003000int));
        } else if i == 33 {
            assert(pow10(6) == pow10_table(6));
            assert(round_range(33) == (4995000int, 5005000int));
        } else if i == 34 {
            assert(pow10(6) == pow10_table(6));
            assert(round_range(34) == (5994000int, 6006000int));
        } else if i == 35 {
            assert(pow10(7) == pow10_table(7));
            assert(round_range(35) == (9990000int, 10010000int));
        } else if i == 36 {
            assert(pow10(7) == pow10_table(7));
            assert(round_range(36) == (19980000int, 20020000int));
        } else if i == 37 {
            assert(pow10(7) == pow10_table(7));
            assert(round_range(37) == (29970000int, 30030000int));
        } else if i == 38 {
            assert(pow10(7) == pow10_table(7));
            assert(round_range(38) == (49950000int, 50050000int));
        } else if i == 39 {
            assert(pow10(7) == pow10_table(7));
            assert(round_range(39) == (59940000int, 60060000int));
        } else if i == 40 {
            assert(pow10(8) == pow10_table(8));
            assert(round_range(40) == (99900000int, 100100000int));
        } else if i == 41 {
            assert(pow10(8) == pow10_table(8));
            assert(round_range(41) == (199800000int, 200200000int));
        } else if i == 42 {
            assert(pow10(8) == pow10_table(8));
            assert(round_range(42) == (299700000int, 300300000int));
        } else if i == 43 {
            assert(pow10(8) == pow10_table(8));
            assert(round_range(43) == (499500000int, 500500000int));
        } else if i == 44 {
            assert(pow10(8) == pow10_table(8));
            assert(round_range(44) == (599400000int, 600600000int));
        } else if i == 45 {
            assert(pow10(9) == pow10_table(9));
            assert(round_range(45) == (999000000int, 1001000000int));
        } else if i == 46 {
            assert(pow10(9) == pow10_table(9));
            assert(round_range(46) == (1998000000int, 2002000000int));
        } else if i == 47 {
            assert(pow10(9) == pow10_table(9));
            assert(round_range(47) == (2997000000int, 3003000000int));
        } else if i == 48 {
            assert(pow10(9) == pow10_table(9));
            assert(round_range(48) == (4995000000int, 5005000000int));
        } else if i == 49 {
            assert(pow10(9) == pow10_table(9));
            assert(round_range(49) == (5994000000int, 6006000000int));
        } else if i == 50 {
            assert(pow10(10) == pow10_table(10));
            assert(round_range(50) == (9990000000int, 10010000000int));
        } else if i == 51 {
            assert(pow10(10) == pow10_table(10));
            assert(round_range(51) == (19980000000int, 20020000000int));
        } else if i == 52 {
            assert(pow10(10) == pow10_table(10));
            assert(round_range(52) == (29970000000int, 30030000000int));
        } else if i == 53 {
            assert(pow10(10) == pow10_table(10));
            assert(round_range(53) == (49950000000int, 50050000000int));
        } else if i == 54 {
            assert(pow10(10) == pow10_table(10));
            assert(round_range(54) == (59940000000int, 60060000000int));
        } else if i == 55 {
            assert(pow10(11) == pow10_table(11));
            assert(round_range(55) == (99900000000int, 100100000000int));
        } else if i == 56 {
            assert(pow10(11) == pow10_table(11));
            assert(round_range(56) == (199800000000int, 200200000000int));
        } else if i == 57 {
            assert(pow10(11) == pow10_table(11));
            assert(round_range(57) == (299700000000int, 300300000000int));
        } else if i == 58 {
            assert(pow10(11) == pow10_table(11));
            assert(round_range(58) == (499500000000int, 500500000000int));
        } else if i == 59 {
            assert(pow10(11) == pow10_table(11));
            assert(round_range(59) == (599400000000int, 600600000000int));
        } else if i == 60 {
            assert(pow10(12) == pow10_table(12));
            assert(round_range(60) == (999000000000int, 1001000000000int));
        } else if i == 61 {
            assert(pow10(12) == pow10_table(12));
            assert(round_range(61) == (1998000000000int, 2002000000000int));
        } else if i == 62 {
            assert(pow10(12) == pow10_table(12));
            assert(round_range(62) == (2997000000000int, 3003000000000int));
        } else if i == 63 {
            assert(pow10(12) == pow10_table(12));
            assert(round_range(63) == (4995000000000int, 5005000000000int));
        } else if i == 64 {
            assert(pow10(12) == pow10_table(12));
            assert(round_range(64) == (5994000000000int, 6006000000000int));
        } else if i == 65 {
            assert(pow10(13) == pow10_table(13));
            assert(round_range(65) == (9990000000000int, 10010000000000int));
        } else if i == 66 {
            assert(pow10(13) == pow10_table(13));
            assert(round_range(66) == (19980000000000int, 20020000000000int));
        } else if i == 67 {
            assert(pow10(13) == pow10_table(13));
            assert(round_range(67) == (29970000000000int, 30030000000000int));
        } else if i == 68 {
            assert(pow10(13) == pow10_table(13));
            assert(round_range(68) == (49950000000000int, 50050000000000int));
        } else if i == 69 {
            assert(pow10(13) == pow10_table(13));
            assert(round_range(69) == (59940000000000int, 60060000000000int));
        } else if i == 70 {
            assert(pow10(14) == pow10_table(14));
            assert(round_range(70) == (99900000000000int, 100100000000000int));
        } else if i == 71 {
            assert(pow10(14) == pow10_table(14));
            assert(round_range(71) == (199800000000000int, 200200000000000int));
        } else if i == 72 {
            assert(pow10(14) == pow10_table(14));
            assert(round_range(72) == (299700000000000int, 300300000000000int));
        } else if i == 73 {
            assert(pow10(14) == pow10_table(14));
            assert(round_range(73) == (499500000000000int, 500500000000000int));
        } else if i == 74 {
            assert(pow10(14) == pow10_table(14));
            assert(round_range(74) == (599400000000000int, 600600000000000int));
        } else if i == 75 {
            assert(pow10(15) == pow10_table(15));
            assert(round_range(75) == (999000000000000int, 1001000000000000int));
        } else if i == 76 {
            assert(pow10(15) == pow10_table(15));
            assert(round_range(76) == (1998000000000000int, 2002000000000000int));
        } else if i == 77 {
            assert(pow10(15) == pow10_table(15));
            assert(round_range(77) == (2997000000000000int, 3003000000000000int));
        } else if i == 78 {
            assert(pow10(15) == pow10_table(15));
            assert(round_range(78) == (4995000000000000int, 5005000000000000int));
        } else if i == 79 {
            assert(pow10(15) == pow10_table(15));
            assert(round_range(79) == (5994000000000000int, 6006000000000000int));
        } else if i == 80 {
            assert(pow10(16) == pow10_table(16));
            assert(round_range(80) == (9990000000000000int, 10010000000000000int));
        } else if i == 81 {
            assert(pow10(16) == pow10_table(16));
            assert(round_range(81) == (19980000000000000int, 20020000000000000int));
        } else if i == 82 {
            assert(pow10(16) == pow10_table(16));
            assert(round_range(82) == (29970000000000000int, 30030000000000000int));
        } else if i == 83 {
            assert(pow10(16) == pow10_table(16));
            assert(round_range(83) == (49950000000000000int, 50050000000000000int));
        } else if i == 84 {
            assert(pow10(16) == pow10_table(16));
            assert(round_range(84) == (59940000000000000int, 60060000000000000int));
        } else if i == 85 {
            assert(pow10(17) == pow10_table(17));
            assert(round_range(85) == (99900000000000000int, 100100000000000000int));
        } else if i == 86 {
            assert(pow10(17) == pow10_table(17));
            assert(round_range(86) == (199800000000000000int, 200200000000000000int));
        } else if i == 87 {
            assert(pow10(17) == pow10_table(17));
            assert(round_range(87) == (299700000000000000int, 300300000000000000int));
        } else if i == 88 {
            assert(pow10(17) == pow10_table(17));
            assert(round_range(88) == (499500000000000000int, 500500000000000000int));
        } else if i == 89 {
            assert(pow10(17) == pow10_table(17));
            assert(round_range(89) == (599400000000000000int, 600600000000000000int));
        } else if i == 90 {
            assert(pow10(18) == pow10_table(18));
            assert(round_range(90) == (999000000000000000int, 1001000000000000000int));
        } else if i == 91 {
            assert(pow10(18) == pow10_table(18));
            assert(round_range(91) == (1998000000000000000int, 2002000000000000000int));
        } else if i == 92 {
            assert(pow10(18) == pow10_table(18));
            assert(round_range(92) == (2997000000000000000int, 3003000000000000000int));
        } else if i == 93 {
            assert(pow10(18) == pow10_table(18));
            assert(round_range(93) == (4995000000000000000int, 5005000000000000000int));
        } else if i == 94 {
            assert(pow10(18) == pow10_table(18));
            assert(round_range(94) == (5994000000000000000int, 6006000000000000000int));
        } else if i == 95 {
            assert(pow10(19) == pow10_table(19));
            assert(round_range(95) == (9990000000000000000int, 10010000000000000000int));
        }
    }
    assert forall|k: int| 0 <= k < 95 implies (#[trigger] t[k]).1 < t[k + 1].0 by {
        assert(t[k].1 == round_range(k).1);
        assert(t[k + 1].0 == round_range(k + 1).0);
    }
    assert forall|i: int, j: int| 0 <= i < j < 96 implies (#[trigger] t[i]).1 < (#[trigger] t[j]).0 by {
        lemma_ascending(t, 96, i, j);
    }
}


impl PaymentFilter {
    pub closed spec fn cap(self) -> nat {
        self.tx_output_fanout_cap as nat
    }

    /// The round-value table the filter checks values against: five
    /// leading digits across 10^0..10^18, plus the only 10^19 target that
    /// fits in u64.
    pub fn common_round_ranges() -> (r: [(u64, u64); 96])
        ensures
            forall|i: int|
                0 <= i < 96 ==> (#[trigger] r@[i]).0 == round_range(i).0 && r@[i].1
                    == round_range(i).1,
    {
        proof {
            lemma_pow10_values();
        }
        let mut ranges = [(0u64, 0u64); 96];
        let mut index: usize = 0;
        let mut m: usize = 0;
        let mut magnitude: u64 = 1;
        while m <= 18
            invariant
                m <= 19,
                index == 5 * m,
                m <= 18 ==> magnitude == pow10(m as nat),
                ranges@.len() == 96,
                forall|m: nat| m <= 19 ==> #[trigger] pow10(m) == pow10_table(m),
                forall|i: int|
                    0 <= i < index ==> (#[trigger] ranges@[i]).0 == round_range(i).0
                        && ranges@[i].1 == round_range(i).1,
            decreases 19 - m,
        {
            assert(magnitude <= 1_000_000_000_000_000_000u64) by {
                assert(pow10(m as nat) == pow10_table(m as nat));
            }
            let digits: [u64; 5] = [1, 2, 3, 5, 6];
            let mut d: usize = 0;
            while d < 5
                invariant
                    m <= 18,
                    d <= 5,
                    index == 5 * m + d,
                    magnitude == pow10(m as nat),
                    magnitude <= 1_000_000_000_000_000_000u64,
                    digits@ == seq![1u64, 2, 3, 5, 6],
                    ranges@.len() == 96,
                    forall|i: int|
                        0 <= i < index ==> (#[trigger] ranges@[i]).0 == round_range(i).0
                            && ranges@[i].1 == round_range(i).1,
                decreases 5 - d,
            {
                assert(digits[d as int] == leading_digit(d as int));
                assert(digits[d as int] <= 6);
                assert(digits[d as int] * magnitude <= 6 * 1_000_000_000_000_000_000u64) by (nonlinear_arith)
                    requires
                        digits[d as int] <= 6,
                        magnitude <= 1_000_000_000_000_000_000u64,
                ;
                let round = digits[d] * magnitude;
                let tolerance = round / 1000;
                ranges[index] = (round - tolerance, round + tolerance);
                assert((index as int) % 5 == d as int && (index as int) / 5 == m as int);
                index += 1;
                d += 1;
            }
            if m < 18 {
                assert(pow10((m + 1) as nat) == 10 * pow10(m as nat));
                magnitude = magnitude * 10;
            }
            m += 1;
        }
        let round: u64 = 10_000_000_000_000_000_000;
        let tolerance = round / 1000;
        ranges[index] = (round - tolerance, round + tolerance);
        ranges
    }

    pub fn with_fanout_cap(tx_output_fanout_cap: usize) -> (r: Self)
        ensures
            r.cap() == tx_output_fanout_cap,
    {
        PaymentFilter { tx_output_fanout_cap }
    }

    /// Filter for live or otherwise guaranteed-modern transaction streams.
    pub fn modern() -> (r: Self)
        ensures
            r.cap() == MODERN_TX_OUTPUT_FANOUT_CAP,
    {
        Self::with_fanout_cap(MODERN_TX_OUTPUT_FANOUT_CAP)
    }

    /// Filter for transactions in `height`.
    pub fn for_height(height: usize) -> (r: Self)
        ensures
            r.cap() == (if height < MODERN_TX_OUTPUT_FANOUT_CAP_START_HEIGHT {
                PRE_MODERN_TX_OUTPUT_FANOUT_CAP
            } else {
                MODERN_TX_OUTPUT_FANOUT_CAP
            }),
    {
        if height < MODERN_TX_OUTPUT_FANOUT_CAP_START_HEIGHT {
            Self::with_fanout_cap(PRE_MODERN_TX_OUTPUT_FANOUT_CAP)
        } else {
            Self::modern()
        }
    }

    /// `true` iff `sats` lies within a tenth of a percent of a round value
    /// (1, 2, 3, 5 or 6 times a power of ten, or 10^19).
    pub fn is_common_round_value(sats: u64) -> (r: bool)
        ensures
            r == is_round(sats as int),
    {
        let t = &COMMON_ROUND_RANGES;
        let mut lo: usize = 0;
        let mut hi: usize = 96;
        while lo < hi
            invariant
                0 <= lo <= hi <= 96,
                t@ == COMMON_ROUND_RANGES@,
                forall|i: int| 0 <= i < lo ==> (#[trigger] t@[i]).1 < sats,
                forall|i: int| hi <= i < 96 ==> (#[trigger] t@[i]).1 >= sats,
            decreases hi - lo,
        {
            let mid = lo + (hi - lo) / 2;
            if t[mid].1 < sats {
                proof {
                    assert forall|i: int| 0 <= i <= mid implies (#[trigger] t@[i]).1 < sats by {
                        if i < mid {
                            lemma_round_ranges_ascend(i, mid as int);
                            lemma_round_range_entry(mid as int);
                        }
                    }
                }
                lo = mid + 1;
            } else {
                proof {
                    assert forall|i: int| mid <= i < 96 implies (#[trigger] t@[i]).1 >= sats by {
                        if i > mid {
                            lemma_round_ranges_ascend(mid as int, i);
                            lemma_round_range_entry(i);
                        }
                    }
                }
                hi = mid;
            }
        }
        let r = lo < 96 && t[lo].0 <= sats;
        proof {
            if r {
                lemma_round_range_entry(lo as int);
                assert(round_range(lo as int).0 <= sats <= round_range(lo as int).1);
            } else {
                assert forall|idx: int| 0 <= idx < 96 implies !(#[trigger] round_range(idx).0 <= sats
                    <= round_range(idx).1) by {
                    lemma_round_range_entry(idx);
                    if idx > lo {
                        lemma_round_ranges_ascend(lo as int, idx);
                        lemma_round_range_entry(lo as int);
                    }
                }
            }
        }
        r
    }

    /// Bin for one output, or `None` for an excluded type (P2TR), dust, a
    /// round value, or an out-of-range bin. `bin` is the output's log-scale
    /// bin (`None` when its value falls outside the histogram). The
    /// per-output half of the round-dollar payment filter.
    pub fn eligible_bin(sats: u64, output_type: OutputType, bin: Option<u16>) -> (r: Option<u16>)
        ensures
            r == output_bin(ScaledOutput { sats, output_type, bin }),
    {
        if output_type == OutputType::P2TR {
            return None;
        }
        if sats < MIN_SATS || Self::is_common_round_value(sats) {
            return None;
        }
        bin
    }

    /// Bins of the eligible outputs of one transaction, in order. A whole
    /// transaction is dropped when it carries any OP_RETURN output (data
    /// carriers, not payments) or when it has more outputs than this
    /// filter's fan-out cap.
    /// Fresh eligible round-dollar payment histogram over one block's
    /// non-coinbase transactions.
    pub fn histogram(self, txs: &[Vec<ScaledOutput>]) -> (r: HistogramRaw)
        requires
            bins_in_range(txs@),
            total_outputs(txs@, txs@.len() as int) < u32::MAX,
        ensures
            r@.len() == NUM_BINS,
            forall|b: int| 0 <= b < NUM_BINS ==> #[trigger] r@[b] == hist_count(self.cap(), txs@, txs@.len() as int, b),
    {
        let mut hist = HistogramRaw::zeros();
        let mut i: usize = 0;
        while i < txs.len()
            invariant
                i <= txs@.len(),
                bins_in_range(txs@),
                total_outputs(txs@, txs@.len() as int) < u32::MAX,
                hist@.len() == NUM_BINS,
                forall|b: int| 0 <= b < NUM_BINS ==> #[trigger] hist@[b] == hist_count(self.cap(), txs@, i as int, b),
            decreases txs@.len() - i,
        {
            let bins = self.for_each_bin(txs[i].as_slice());
            proof {
                lemma_emitted_in(txs@[i as int]@);
                lemma_total_outputs_mono(txs@, i + 1, txs@.len() as int);
            }
            let mut k: usize = 0;
            while k < bins.len()
                invariant
                    i < txs@.len(),
                    k <= bins@.len(),
                    bins@ == tx_emitted(self.cap(), txs@[i as int]@),
                    bins@.len() <= txs@[i as int]@.len(),
                    forall|kk: int| 0 <= kk < bins@.len() ==> #[trigger] bins@[kk] < NUM_BINS,
                    total_outputs(txs@, i + 1) < u32::MAX,
                    hist@.len() == NUM_BINS,
                    forall|b: int| 0 <= b < NUM_BINS ==> #[trigger] hist@[b] == hist_count(self.cap(), txs@, i as int, b)
                        + count_bin(bins@.take(k as int), b),
                decreases bins@.len() - k,
            {
                let bin = bins[k];
                proof {
                    assert(bins@.take(k + 1) == bins@.take(k as int).push(bin));
                    assert forall|b: int| 0 <= b < NUM_BINS implies count_bin(bins@.take(k + 1), b)
                        == count_bin(bins@.take(k as int), b) + if bin == b { 1nat } else { 0nat } by {
                        lemma_count_bin_push(bins@.take(k as int), bin, b);
                    }
                    lemma_hist_count_le(self.cap(), txs@, i as int, bin as int);
                    lemma_count_bin_le(bins@.take(k as int), bin as int);
                }
                hist.increment(bin as usize);
                k += 1;
            }
            assert(bins@.take(bins@.len() as int) == bins@);
            i += 1;
        }
        hist
    }

    pub fn for_each_bin(self, outputs: &[ScaledOutput]) -> (r: Vec<u16>)
        ensures
            r@ == tx_emitted(self.cap(), outputs@),
            r@.len() <= outputs@.len(),
            forall|k: int| 0 <= k < r@.len() ==> exists|j: int|
                0 <= j < outputs@.len() && (#[trigger] outputs@[j]).bin == Some(#[trigger] r@[k]),
    {
        proof {
            lemma_emitted_in(outputs@);
        }
        let mut bins: Vec<u16> = Vec::new();
        if outputs.len() > self.tx_output_fanout_cap {
            return bins;
        }
        let mut j: usize = 0;
        while j < outputs.len()
            invariant
                j <= outputs@.len(),
                forall|k: int| 0 <= k < j ==> outputs@[k].output_type != OutputType::OpReturn,
                bins@ == Seq::<u16>::empty(),
                outputs@.len() <= self.cap(),
            decreases outputs@.len() - j,
        {
            if outputs[j].output_type == OutputType::OpReturn {
                return bins;
            }
            j += 1;
        }
        let mut i: usize = 0;
        while i < outputs.len()
            invariant
                i <= outputs@.len(),
                keeps_tx(self.cap(), outputs@),
                bins@ == emitted_bins(outputs@.take(i as int)),
                bins@.len() <= i,
            decreases outputs@.len() - i,
        {
            assert(outputs@.take(i + 1).drop_last() == outputs@.take(i as int));
            let o = outputs[i];
            if let Some(bin) = Self::eligible_bin(o.sats, o.output_type, o.bin) {
                bins.push(bin);
            }
            i += 1;
        }
        assert(outputs@.take(outputs@.len() as int) == outputs@);
        bins
    }
}

} // verus!
