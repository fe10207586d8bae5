//! Recommended fee tiers from projected-block statistics. Rates are exact ratios on
//! input and milli-sat/vB integers on output.
use vstd::prelude::*;

use crate::types::FeeRate;

verus! {

/// Output granularity: one milli-sat/vB.
pub const MIN_INCREMENT: u64 = 1;

/// Added to `fastest_fee` (and half of it to `half_hour_fee`), in milli-sat/vB.
pub const PRIORITY_FACTOR: u64 = 500;

pub const MIN_FASTEST_FEE: u64 = 1_000;

pub const MIN_HALF_HOUR_FEE: u64 = 500;

/// At or below this projected-block vsize the block carries no fee signal.
pub const EMPTY_BLOCK_VSIZE: u64 = 500_000;

/// Above this projected-block vsize no taper applies.
pub const FULL_BLOCK_VSIZE: u64 = 950_000;

/// Largest fee a rate may carry: the 21M BTC supply cap, in sats.
pub const MAX_MONEY: u64 = 2_100_000_000_000_000;

/// Aggregate statistics of one projected block. `fee_range` holds the
/// 0/10/25/50/75/90/100th percentile fee rates.
#[derive(Debug, Clone, Copy)]
pub struct BlockStats {
    pub tx_count: u64,
    pub total_size: u64,
    pub total_vsize: u64,
    pub total_fee: u64,
    pub fee_range: [FeeRate; 7],
}

/// Fee tiers in milli-sat/vB.
#[derive(Debug, Clone, Copy, PartialEq, Eq, Structural)]
pub struct RecommendedFees {
    pub fastest_fee: u64,
    pub half_hour_fee: u64,
    pub hour_fee: u64,
    pub economy_fee: u64,
    pub minimum_fee: u64,
}

pub open spec fn ceil_div(n: int, d: int) -> int {
    (n + d - 1) / d
}

/// `n / d` rounded to nearest, halves away from zero.
pub open spec fn round_div(n: int, d: int) -> int {
    (2 * n + d) / (2 * d)
}

pub open spec fn max(a: int, b: int) -> int {
    if a >= b {
        a
    } else {
        b
    }
}

pub open spec fn min(a: int, b: int) -> int {
    if a <= b {
        a
    } else {
        b
    }
}

/// A rate is usable when its vsize is positive and its numbers are
/// within the money supply and a 32-bit vsize.
pub open spec fn rate_in_range(r: FeeRate) -> bool {
    0 < r.vsize <= u32::MAX && r.fee <= MAX_MONEY
}

/// The floor every tier respects: `min_fee` rounded up to a milli-sat/vB,
/// at least one milli-sat/vB.
pub open spec fn floor_milli(min_fee: FeeRate) -> int {
    max(ceil_div(1000 * min_fee.fee, min_fee.vsize as int), MIN_INCREMENT as int)
}

/// Fee for one projected block, smoothing toward `prev` (the previous
/// tier, in milli-sat/vB) and tapering a partially-full final block.
pub open spec fn optimized_fee(block: BlockStats, has_next: bool, prev: Option<int>, minf: int) -> int {
    let median = block.fee_range[3];
    let num = match prev {
        None => 1000 * median.fee,
        Some(p) => 1000 * median.fee + p * median.vsize,
    };
    let den = match prev {
        None => median.vsize as int,
        Some(p) => 2 * median.vsize,
    };
    let vsize = block.total_vsize as int;
    if vsize <= EMPTY_BLOCK_VSIZE || 1000 * median.fee < minf * median.vsize {
        minf
    } else if vsize <= FULL_BLOCK_VSIZE && !has_next {
        max(round_div(num * (vsize - EMPTY_BLOCK_VSIZE), den * EMPTY_BLOCK_VSIZE), minf)
    } else {
        max(ceil_div(num, den), minf)
    }
}

/// Fee of the `i`-th projected block, or the floor when it does not exist.
pub open spec fn block_fee(stats: Seq<BlockStats>, i: int, prev: Option<int>, minf: int) -> int {
    if i < stats.len() {
        optimized_fee(stats[i], i + 1 < stats.len(), prev, minf)
    } else {
        minf
    }
}

/// The recommended tiers for `stats` under the floor `min_fee`.
pub open spec fn recommended(stats: Seq<BlockStats>, min_fee: FeeRate) -> RecommendedFees {
    let minimum = floor_milli(min_fee);
    let first = block_fee(stats, 0, None, minimum);
    let second = block_fee(stats, 1, Some(first), minimum);
    let third = block_fee(stats, 2, Some(second), minimum);
    let economy = min(max(third, minimum), 2 * minimum);
    let hour = max(max(minimum, third), economy);
    let half_hour = max(max(minimum, second), hour);
    let fastest = max(max(minimum, first), half_hour);
    RecommendedFees {
        fastest_fee: max(fastest + PRIORITY_FACTOR, MIN_FASTEST_FEE as int) as u64,
        half_hour_fee: max(half_hour + PRIORITY_FACTOR / 2, MIN_HALF_HOUR_FEE as int) as u64,
        hour_fee: hour as u64,
        economy_fee: economy as u64,
        minimum_fee: minimum as u64,
    }
}

proof fn lemma_optimized_fee_bounds(block: BlockStats, has_next: bool, prev: Option<int>, minf: int)
    requires
        rate_in_range(block.fee_range[3]),
        1 <= minf <= tier_bound(),
        match prev {
            Some(p) => 0 <= p <= tier_bound(),
            None => true,
        },
    ensures
        minf <= optimized_fee(block, has_next, prev, minf) <= tier_bound(),
{
    let median = block.fee_range[3];
    let f = median.fee as int;
    let v = median.vsize as int;
    let num = match prev {
        None => 1000 * f,
        Some(p) => 1000 * f + p * v,
    };
    let den = match prev {
        None => v,
        Some(p) => 2 * v,
    };
    let tb = tier_bound();
    assert(1000 * f <= tb);
    assert(num <= tb * den && num >= 0 && den >= 1) by {
        match prev {
            None => {
                assert(1000 * f <= tb * v) by (nonlinear_arith)
                    requires
                        1000 * f <= tb,
                        v >= 1,
                        tb >= 0,
                ;
            },
            Some(p) => {
                assert(p * v <= tb * v) by (nonlinear_arith)
                    requires
                        0 <= p <= tb,
                        v >= 0,
                ;
                assert(1000 * f <= tb * v) by (nonlinear_arith)
                    requires
                        1000 * f <= tb,
                        v >= 1,
                        tb >= 0,
                ;
                assert(p * v >= 0) by (nonlinear_arith)
                    requires
                        p >= 0,
                        v >= 0,
                ;
            },
        }
    }
    let vsize = block.total_vsize as int;
    if vsize <= EMPTY_BLOCK_VSIZE || 1000 * median.fee < minf * median.vsize {
    } else if vsize <= FULL_BLOCK_VSIZE && !has_next {
        let scale = vsize - EMPTY_BLOCK_VSIZE;
        let e = EMPTY_BLOCK_VSIZE as int;
        assert(num * scale <= tb * (den * e) && num * scale >= 0 && den * e >= 1) by (nonlinear_arith)
            requires
                num <= tb * den,
                0 <= scale <= 450_000,
                e == 500_000,
                num >= 0,
                den >= 1,
                tb >= 0,
        ;
        lemma_round_div_le(num * scale, den * e, tb);
    } else {
        lemma_ceil_div_le(num, den, tb);
    }
}

/// The economy tier sits between the floor and twice the floor: it is the
/// hour tier capped at twice the minimum fee. Every tier is at least the
/// one below it.
pub proof fn law_economy_tier_capped(stats: Seq<BlockStats>, min_fee: FeeRate)
    requires
        rate_in_range(min_fee),
        forall|k: int| 0 <= k < stats.len() ==> rate_in_range(#[trigger] stats[k].fee_range[3]),
    ensures
        ({
            let r = recommended(stats, min_fee);
            &&& r.minimum_fee <= r.economy_fee <= 2 * r.minimum_fee
            &&& r.economy_fee == if r.hour_fee < 2 * r.minimum_fee {
                r.hour_fee as int
            } else {
                2 * r.minimum_fee
            }
            &&& r.hour_fee >= r.economy_fee
            &&& r.half_hour_fee >= r.hour_fee
            &&& r.fastest_fee >= r.half_hour_fee
        }),
{
    let tb = tier_bound();
    let minimum = floor_milli(min_fee);
    let n = 1000 * min_fee.fee;
    let d = min_fee.vsize as int;
    assert(n <= tb * d) by (nonlinear_arith)
        requires
            n == min_fee.fee * 1000,
            min_fee.fee <= MAX_MONEY,
            d >= 1,
            tb == 1000 * MAX_MONEY,
    ;
    lemma_ceil_div_le(n, d, tb);
    assert(1 <= minimum <= tb);
    let first = block_fee(stats, 0, None, minimum);
    if 0 < stats.len() {
        lemma_optimized_fee_bounds(stats[0], 0 + 1 < stats.len(), None, minimum);
    }
    assert(minimum <= first <= tb);
    let second = block_fee(stats, 1, Some(first), minimum);
    if 1 < stats.len() {
        lemma_optimized_fee_bounds(stats[1], 1 + 1 < stats.len(), Some(first), minimum);
    }
    assert(minimum <= second <= tb);
    let third = block_fee(stats, 2, Some(second), minimum);
    if 2 < stats.len() {
        lemma_optimized_fee_bounds(stats[2], 2 + 1 < stats.len(), Some(second), minimum);
    }
    assert(minimum <= third <= tb);
}

/// The minimum tier is `min_fee` rounded up to a whole milli-sat/vB, and
/// never below one: it covers `min_fee`, and one milli-sat/vB less would
/// not (unless it is already at one).
pub proof fn law_minimum_fee_rounds_up(stats: Seq<BlockStats>, min_fee: FeeRate)
    requires
        rate_in_range(min_fee),
        forall|k: int| 0 <= k < stats.len() ==> rate_in_range(#[trigger] stats[k].fee_range[3]),
    ensures
        ({
            let m = recommended(stats, min_fee).minimum_fee as int;
            &&& m >= 1
            &&& m * min_fee.vsize >= 1000 * min_fee.fee
            &&& m == 1 || (m - 1) * min_fee.vsize < 1000 * min_fee.fee
        }),
{
    law_economy_tier_capped(stats, min_fee);
    let n = 1000 * min_fee.fee as int;
    let d = min_fee.vsize as int;
    let c = ceil_div(n, d);
    assert(c * d >= n && (c - 1) * d < n) by (nonlinear_arith)
        requires
            d >= 1,
            n >= 0,
            c == (n + d - 1) / d,
    ;
    let m = floor_milli(min_fee);
    if c < 1 {
        assert(m == 1);
        assert(m * d >= n) by (nonlinear_arith)
            requires
                c * d >= n,
                c < 1,
                m == 1,
                d >= 1,
        ;
    }
}

/// Projected blocks that carry no fee signal (none, or the first three
/// all at most half full) collapse every tier to the floor; the two top
/// tiers then only add their priority margins.
pub proof fn law_empty_projection_collapses_to_floor(stats: Seq<BlockStats>, min_fee: FeeRate)
    requires
        rate_in_range(min_fee),
        forall|k: int| 0 <= k < stats.len() ==> rate_in_range(#[trigger] stats[k].fee_range[3]),
        forall|k: int| 0 <= k < stats.len() && k < 3 ==> (#[trigger] stats[k]).total_vsize <= EMPTY_BLOCK_VSIZE,
    ensures
        ({
            let r = recommended(stats, min_fee);
            &&& r.economy_fee == r.minimum_fee
            &&& r.hour_fee == r.minimum_fee
            &&& r.half_hour_fee == max(r.minimum_fee + PRIORITY_FACTOR / 2, MIN_HALF_HOUR_FEE as int)
            &&& r.fastest_fee == max(r.minimum_fee + PRIORITY_FACTOR, MIN_FASTEST_FEE as int)
        }),
{
    law_economy_tier_capped(stats, min_fee);
    let minimum = floor_milli(min_fee);
    let first = block_fee(stats, 0, None, minimum);
    assert(first == minimum);
    let second = block_fee(stats, 1, Some(first), minimum);
    assert(second == minimum);
    let third = block_fee(stats, 2, Some(second), minimum);
    assert(third == minimum);
}

/// Each tier covers the fee its projected block asks for: the hour tier
/// is the third block's fee or the economy tier, whichever is higher; the
/// half-hour and fastest tiers are at least the second and first block's
/// fees plus their priority margins.
pub proof fn law_tiers_cover_block_fees(stats: Seq<BlockStats>, min_fee: FeeRate)
    requires
        rate_in_range(min_fee),
        forall|k: int| 0 <= k < stats.len() ==> rate_in_range(#[trigger] stats[k].fee_range[3]),
    ensures
        ({
            let r = recommended(stats, min_fee);
            let minimum = floor_milli(min_fee);
            let first = block_fee(stats, 0, None, minimum);
            let second = block_fee(stats, 1, Some(first), minimum);
            let third = block_fee(stats, 2, Some(second), minimum);
            &&& r.hour_fee == max(third, r.economy_fee as int)
            &&& r.half_hour_fee >= second + PRIORITY_FACTOR / 2
            &&& r.fastest_fee >= first + PRIORITY_FACTOR
        }),
{
    law_economy_tier_capped(stats, min_fee);
    let tb = tier_bound();
    let minimum = floor_milli(min_fee);
    let n = 1000 * min_fee.fee;
    let d = min_fee.vsize as int;
    assert(n <= tb * d) by (nonlinear_arith)
        requires
            n == min_fee.fee * 1000,
            min_fee.fee <= MAX_MONEY,
            d >= 1,
            tb == 1000 * MAX_MONEY,
    ;
    lemma_ceil_div_le(n, d, tb);
    let first = block_fee(stats, 0, None, minimum);
    if 0 < stats.len() {
        lemma_optimized_fee_bounds(stats[0], 0 + 1 < stats.len(), None, minimum);
    }
    let second = block_fee(stats, 1, Some(first), minimum);
    if 1 < stats.len() {
        lemma_optimized_fee_bounds(stats[1], 1 + 1 < stats.len(), Some(first), minimum);
    }
    let third = block_fee(stats, 2, Some(second), minimum);
    if 2 < stats.len() {
        lemma_optimized_fee_bounds(stats[2], 2 + 1 < stats.len(), Some(second), minimum);
    }
}

/// Largest milli-sat/vB value any tier can take.
pub open spec fn tier_bound() -> int {
    1000 * MAX_MONEY
}

proof fn lemma_ceil_div_le(n: int, d: int, b: int)
    requires
        d > 0,
        0 <= n <= b * d,
        b >= 0,
    ensures
        0 <= ceil_div(n, d) <= b,
{
    assert(ceil_div(n, d) <= b) by (nonlinear_arith)
        requires
            d > 0,
            0 <= n <= b * d,
            b >= 0,
    {
        assert(n + d - 1 < (b + 1) * d);
    }
    assert(0 <= ceil_div(n, d)) by (nonlinear_arith)
        requires
            d > 0,
            0 <= n,
    ;
}

proof fn lemma_round_div_le(n: int, d: int, b: int)
    requires
        d > 0,
        0 <= n <= b * d,
        b >= 0,
    ensures
        0 <= round_div(n, d) <= b,
{
    assert(round_div(n, d) <= b) by (nonlinear_arith)
        requires
            d > 0,
            0 <= n <= b * d,
            b >= 0,
    {
        assert(2 * n + d < (b + 1) * (2 * d));
    }
    assert(0 <= round_div(n, d)) by (nonlinear_arith)
        requires
            d > 0,
            0 <= n,
    ;
}

pub struct Fees;

impl Fees {
    /// The floor tier: `min_fee` rounded up to a milli-sat/vB, at least
    /// one milli-sat/vB.
    fn floor_milli(min_fee: FeeRate) -> (r: u64)
        requires
            rate_in_range(min_fee),
        ensures
            r == floor_milli(min_fee),
            1 <= r <= tier_bound(),
    {
        let n: u128 = (min_fee.fee as u128) * 1000;
        let d: u128 = min_fee.vsize as u128;
        proof {
            assert(n <= tier_bound() * d) by (nonlinear_arith)
                requires
                    n == min_fee.fee * 1000,
                    min_fee.fee <= MAX_MONEY,
                    d >= 1,
            ;
            lemma_ceil_div_le(n as int, d as int, tier_bound());
        }
        let c = ((n + d - 1) / d) as u64;
        if c < MIN_INCREMENT {
            MIN_INCREMENT
        } else {
            c
        }
    }

    /// Fee for one projected block, or `minf` when the block carries no
    /// fee signal.
    fn optimize_median_fee(block: &BlockStats, has_next: bool, prev: Option<u64>, minf: u64) -> (r: u64)
        requires
            rate_in_range(block.fee_range[3]),
            1 <= minf <= tier_bound(),
            match prev {
                Some(p) => p <= tier_bound(),
                None => true,
            },
        ensures
            r == optimized_fee(*block, has_next, match prev { Some(p) => Some(p as int), None => None }, minf as int),
            minf <= r <= tier_bound(),
    {
        let median = block.fee_range[3];
        let vsize = block.total_vsize;
        let f: u128 = median.fee as u128;
        let v: u128 = median.vsize as u128;
        proof {
            assert(f * 1000 <= tier_bound());
            assert(minf * v <= tier_bound() * 0xffff_ffff) by (nonlinear_arith)
                requires
                    minf <= tier_bound(),
                    v <= 0xffff_ffff,
                    minf >= 0,
                    v >= 0,
            ;
        }
        if vsize <= EMPTY_BLOCK_VSIZE || f * 1000 < (minf as u128) * v {
            return minf;
        }
        let (num, den): (u128, u128) = match prev {
            None => {
                proof {
                    assert(f * 1000 <= tier_bound() * v) by (nonlinear_arith)
                        requires
                            f * 1000 <= tier_bound(),
                            v >= 1,
                    ;
                }
                (f * 1000, v)
            },
            Some(p) => {
                proof {
                    assert(p * v <= tier_bound() * v) by (nonlinear_arith)
                        requires
                            p <= tier_bound(),
                            v >= 0,
                            p >= 0,
                    ;
                    assert(f * 1000 <= tier_bound() * v) by (nonlinear_arith)
                        requires
                            f * 1000 <= tier_bound(),
                            v >= 1,
                    ;
                    assert(tier_bound() * v <= tier_bound() * 0xffff_ffff) by (nonlinear_arith)
                        requires
                            v <= 0xffff_ffff,
                    ;
                }
                (f * 1000 + (p as u128) * v, 2 * v)
            },
        };
        assert(num <= tier_bound() * den);
        assert(1 <= den <= 0x2_0000_0000);
        let fee = if vsize <= FULL_BLOCK_VSIZE && !has_next {
            let scale = (vsize - EMPTY_BLOCK_VSIZE) as u128;
            let e = EMPTY_BLOCK_VSIZE as u128;
            proof {
                assert(num * scale <= tier_bound() * (den * e)) by (nonlinear_arith)
                    requires
                        num <= tier_bound() * den,
                        scale <= 450_000,
                        e == 500_000,
                        num >= 0,
                        den >= 0,
                ;
                assert(num * scale <= tier_bound() * 0x2_0000_0000 * 450_000) by (nonlinear_arith)
                    requires
                        num <= tier_bound() * den,
                        den <= 0x2_0000_0000,
                        scale <= 450_000,
                        num >= 0,
                ;
                assert(den * e <= 0x2_0000_0000 * 500_000) by (nonlinear_arith)
                    requires
                        den <= 0x2_0000_0000,
                        e == 500_000,
                ;
                assert(den * e >= 1) by (nonlinear_arith)
                    requires
                        den >= 1,
                        e == 500_000,
                ;
                lemma_round_div_le(num * scale, den * e, tier_bound());
            }
            let n = num * scale;
            let d = den * e;
            ((2 * n + d) / (2 * d)) as u64
        } else {
            proof {
                lemma_ceil_div_le(num as int, den as int, tier_bound());
            }
            ((num + den - 1) / den) as u64
        };
        if fee < minf {
            minf
        } else {
            fee
        }
    }

    fn block_fee(stats: &[BlockStats], i: usize, prev: Option<u64>, minf: u64) -> (r: u64)
        requires
            forall|k: int| 0 <= k < stats@.len() ==> rate_in_range(#[trigger] stats@[k].fee_range[3]),
            1 <= minf <= tier_bound(),
            i < 3,
            match prev {
                Some(p) => p <= tier_bound(),
                None => true,
            },
        ensures
            r == block_fee(stats@, i as int, match prev { Some(p) => Some(p as int), None => None }, minf as int),
            minf <= r <= tier_bound(),
    {
        if i < stats.len() {
            Self::optimize_median_fee(&stats[i], i + 1 < stats.len(), prev, minf)
        } else {
            minf
        }
    }

    /// Recommended fee tiers for the projected blocks `stats`. `min_fee` is
    /// bitcoind's live `mempoolminfee` and acts as a floor for every tier
    /// while the mempool is purging by fee.
    pub fn compute(stats: &[BlockStats], min_fee: FeeRate) -> (r: RecommendedFees)
        requires
            rate_in_range(min_fee),
            forall|k: int| 0 <= k < stats@.len() ==> rate_in_range(#[trigger] stats@[k].fee_range[3]),
        ensures
            r == recommended(stats@, min_fee),
            r.fastest_fee >= r.half_hour_fee,
            r.half_hour_fee >= r.hour_fee,
            r.hour_fee >= r.economy_fee,
            r.economy_fee >= r.minimum_fee,
            r.economy_fee <= 2 * r.minimum_fee,
            r.economy_fee == if r.hour_fee < 2 * r.minimum_fee {
                r.hour_fee as int
            } else {
                2 * r.minimum_fee
            },
    {
        proof {
            law_economy_tier_capped(stats@, min_fee);
        }
        let minimum = Self::floor_milli(min_fee);
        let first = Self::block_fee(stats, 0, None, minimum);
        let second = Self::block_fee(stats, 1, Some(first), minimum);
        let third = Self::block_fee(stats, 2, Some(second), minimum);
        let economy = if third > 2 * minimum {
            2 * minimum
        } else {
            third
        };
        let hour = if third > economy { third } else { economy };
        let half_hour = if second > hour { second } else { hour };
        let fastest = if first > half_hour { first } else { half_hour };
        let fastest = if fastest + PRIORITY_FACTOR > MIN_FASTEST_FEE {
            fastest + PRIORITY_FACTOR
        } else {
            MIN_FASTEST_FEE
        };
        let half_hour = if half_hour + PRIORITY_FACTOR / 2 > MIN_HALF_HOUR_FEE {
            half_hour + PRIORITY_FACTOR / 2
        } else {
            MIN_HALF_HOUR_FEE
        };
        RecommendedFees {
            fastest_fee: fastest,
            half_hour_fee: half_hour,
            hour_fee: hour,
            economy_fee: economy,
            minimum_fee: minimum,
        }
    }
}

} // verus!
