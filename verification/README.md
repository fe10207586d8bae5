# brk_core

Verified core of a Bitcoin block-explorer backend, written in Verus.

- `src/` is the library. Every function in it is verified against its
  `requires`/`ensures` contract; calls into outside crates (rustc-hash,
  indexmap, the standard clock, bitcoin's hashes) go through small trusted
  wrappers whose contracts are documented where they are declared.
  - Live mempool: `tx`, `types`, `txstore` (insertion-ordered pool with an
    order-sensitive fingerprint), `graveyard` (tombstones, replacement
    chains, timed eviction), `state`, `fetcher`, `preparer`, `prevouts`,
    `reads`.
  - Projection: `snapshot`, `rebuild` (block 0 from the template, packed
    blocks, block stats, fee tiers, block hash), `partition`, `order`,
    `fees`, `cluster`, `topo`, `cpfp`, `rbf`, `template` (template diffs
    and their history).
  - Block files: `xor`, `blk_path`, `tail`.
  - Price oracle inputs: `filter`, `histogram`, `ring`.
  - Query helpers: `query` (date intersection, block buckets, merkle
    paths, epoch and halving bounds), `outspend` (spend status of
    outputs), `addr` (address balances), `catalog` (series listing
    order, per-series indexes and per-database series counts).
- `tests/` exercises the library on concrete values.
- `app/` holds what is not verified: the mempool pull loop with its locks
  and node client, file-system reads, the backward walk over blk files,
  the open-files limit, and the floating-point parts of the price oracle.
