//! Verified core of the brk mempool monitor, block-file reader, query
//! helpers and price-oracle bookkeeping: the live pool and its graveyard,
//! block projection and fee tiers, replacement trees, template diffs,
//! blk-file XOR decoding and read planning, the series catalog, and the
//! payment filter.

mod addr;
mod blk_path;
mod catalog;
mod cluster;
mod cpfp;
mod fees;
mod fetcher;
mod filter;
mod fxmap;
mod graveyard;
mod histogram;
mod indexed;
mod order;
mod outspend;
mod partition;
mod preparer;
mod prevouts;
mod query;
mod rbf;
mod reads;
mod rebuild;
mod ring;
mod snapshot;
mod state;
mod tail;
mod template;
mod topo;
mod tx;
mod txstore;
mod types;
mod xor;

pub use catalog::{
    counted, has_row, in_series_order, indexes_in, lazy_count, name_bytes, names_of, rows_in, series_before, series_precedes, views_distinct,
    sort_series, CatalogBuilder, SeriesCount, SeriesRow,
};
pub use addr::{addr_balances, sums_fit, AddrBalances, AddrChainData, AddrChainStats, AddrError, AddrMempoolSums};
pub use blk_path::{classify_blk_file_name, BlkDirEntry, BlkIndexToBlkPath, BlkName, BlkScanError};
pub use cluster::{Cluster, MAX_CLUSTER};
pub use cpfp::{
    best_descendant, best_of, collect_cpfp_entries, law_best_of_last_among_ties, law_best_of_pays_most, local_index,
    pays_more, wire_cluster_members, CpfpClusterTx, CpfpEntry, LocalIndex, Walk, CPFP_CHAIN_LIMIT,
};
pub use fees::{
    law_economy_tier_capped, law_empty_projection_collapses_to_floor, law_minimum_fee_rounds_up, law_tiers_cover_block_fees, recommended,
    BlockStats, Fees, RecommendedFees, EMPTY_BLOCK_VSIZE, FULL_BLOCK_VSIZE, MAX_MONEY,
    MIN_FASTEST_FEE, MIN_HALF_HOUR_FEE, MIN_INCREMENT, PRIORITY_FACTOR,
};
pub use fetcher::{BlockTemplateTx, FetchPlan, Fetched, Fetcher, MAX_TX_FETCHES_PER_CYCLE};
pub use filter::{
    lemma_common_round_ranges, OutputType, PaymentFilter, ScaledOutput, COMMON_ROUND_RANGES,
    MIN_SATS, MODERN_TX_OUTPUT_FANOUT_CAP, MODERN_TX_OUTPUT_FANOUT_CAP_START_HEIGHT,
    PRE_MODERN_TX_OUTPUT_FANOUT_CAP,
};
pub use fxmap::{OutpointMap, TxidMap};
pub use graveyard::{
    law_bury_then_exhume, law_eviction_drops_aged, law_eviction_keeps_fresh, TxGraveyard,
    TxTombstone, RETENTION_NS,
};
pub use histogram::{HistogramRaw, BINS_PER_DECADE, NUM_BINS};
pub use indexed::{PrefixSet, RecordMap, TxRecord};
pub use outspend::{merge_outspends, mempool_outspend, outspend_of, SpendInfo, TxOutspend, TxStatus};
pub use order::{candidate_order, index_order, txid_order, Candidate};
pub use partition::{
    law_packed_blocks_fill, lemma_pack_closed_bound, lemma_pack_keeps_order, lemma_pack_shape,
    lemma_packed_blocks_flatten, packed_blocks, vsize_sum, within_block, Partitioner, MAX_BLOCK_VSIZE,
};
pub use preparer::{Preparer, TxsPulled};
pub use prevouts::{Prevouts, ResolvedOutputs};
pub use query::{
    intersect_dates, law_merkle_branch_reaches_root, merkle_fold, merkle_parent, merkle_path, merkle_root,
    period_bounds, round_half_up, BlockBucket, Date, BLOCKS_PER_EPOCH, BLOCKS_PER_HALVING,
};
pub use rbf::{
    apply_snapshot_rates, build_rbf_node, rbf_for_tx, recent_rbf_trees, RbfForTx, RbfNode,
};
pub use reads::{live_effective_fee_rate, transaction_times_hash};
pub use rebuild::{build_snapshot, NUM_BLOCKS};
pub use ring::HistogramRing;
pub use snapshot::{PrefixIndex, SnapTx, Snapshot, TxIndex};
pub use state::{fitting_additions, AddedKind, Applier, State, TxAdded, TxAddition, TxRemoved};
pub use tail::{
    clamp_parser_threads, prefers_tail, raised_fd_limit, spillover_len, tail_chunk_start,
    TailError, TailState, CHANNEL_CAPACITY, OUT_OF_ORDER_FILE_BACKOFF, TAIL_CHUNK,
};
pub use template::{
    block_template_diff_resolved, can_reuse, collect_txs, law_diff_replays_to_current, law_history_forgets_after_newer_records,
    law_record_then_lookup, lacks_hash, record_all, recorded, lookup_body, BlockHistory,
    BlockTemplateDiff, BlockTemplateDiffEntry, HISTORY,
};
pub use tx::{MempoolEntryInfo, Transaction, TxEntry, TxIn, TxOut, TxRemoval};
pub use txstore::{
    law_insert_then_remove_restores, law_refill_writes_nothing, law_swap_remove_keeps_lookups, law_txids_hash_is_contents_fold, RecentTx, TxStore, RECENT_CAP,
};
pub use types::{FeeRate, Txid, TxidPrefix};
pub use xor::{law_decode_in_two, law_decode_twice_restores, law_split_decoding, XORBytes, XORIndex, XOR_LEN};
