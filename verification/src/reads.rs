//! Tx-keyed reads over one consistent view of the pool: arrival times
//! (with their order-sensitive validator) and effective fee rates.
use std::hash::{Hash, Hasher};

use rustc_hash::FxHasher;
use vstd::prelude::*;

use crate::snapshot::Snapshot;
use crate::state::State;
use crate::types::{prefix_of, FeeRate, Txid};

verus! {

/// What rustc-hash's `FxHasher` gives after hashing the slice `times`
/// (its length, then each value). The hasher is unseeded, so the value is
/// the same in every process on one target (its multiplier depends on the
/// pointer width).
pub uninterp spec fn fx_times_hash(times: Seq<u64>) -> u64;

/// Hashes the slice with a fresh `FxHasher` and returns `finish()`:
/// claims the result is `fx_times_hash` of the values.
#[verifier::external_body]
fn fx_hash_times(times: &[u64]) -> (r: u64)
    ensures
        r == fx_times_hash(times@),
{
    let mut hasher = FxHasher::default();
    times.hash(&mut hasher);
    hasher.finish()
}

/// First-seen time of `txid`: from its live entry, else from a `Vanished`
/// tombstone's buried entry, else unknown.
pub open spec fn first_seen_of(state: State, txid: Txid) -> Option<u64> {
    match state.txs.record_for(txid) {
        Some(rec) => Some(rec.entry.first_seen),
        None => if state.graveyard.tombs().contains_key(txid)
            && state.graveyard.tombs()[txid].removal is Vanished {
            Some(state.graveyard.tombs()[txid].entry.first_seen)
        } else {
            None
        },
    }
}

/// The reported time of each txid: its first-seen time, 0 when unknown.
pub open spec fn times_of(state: State, txids: Seq<Txid>) -> Seq<u64> {
    txids.map_values(
        |t: Txid|
            match first_seen_of(state, t) {
                Some(s) => s,
                None => 0u64,
            },
    )
}

impl State {
    /// First-seen time of a live tx, falling back to a vanished tombstone
    /// so a just-mined tx does not flicker to unknown.
    pub fn first_seen(&self, txid: &Txid) -> (r: Option<u64>)
        requires
            self.wf(),
        ensures
            r == first_seen_of(*self, *txid),
    {
        match self.txs.entry(txid) {
            Some(entry) => Some(entry.first_seen),
            None => match self.graveyard.get_vanished(txid) {
                Some(tomb) => Some(tomb.entry.first_seen),
                None => None,
            },
        }
    }

    /// `first_seen` of each txid, in input order, 0 for unknown ones.
    pub fn transaction_times_for(&self, txids: &[Txid]) -> (r: Vec<u64>)
        requires
            self.wf(),
        ensures
            r@ == times_of(*self, txids@),
    {
        let mut out: Vec<u64> = Vec::new();
        let mut k: usize = 0;
        while k < txids.len()
            invariant
                self.wf(),
                k <= txids@.len(),
                out@ == times_of(*self, txids@.take(k as int)),
            decreases txids.len() - k,
        {
            let t = match self.first_seen(&txids[k]) {
                Some(s) => s,
                None => 0,
            };
            out.push(t);
            assert(times_of(*self, txids@.take(k + 1)) =~= times_of(*self, txids@.take(k as int)).push(t));
            k += 1;
        }
        assert(txids@.take(txids@.len() as int) =~= txids@);
        out
    }

    /// The times of `txids` and an order- and length-sensitive hash of
    /// exactly that result.
    pub fn transaction_times_with_hash(&self, txids: &[Txid]) -> (r: (Vec<u64>, u64))
        requires
            self.wf(),
        ensures
            r.0@ == times_of(*self, txids@),
            r.1 == fx_times_hash(r.0@),
    {
        let times = self.transaction_times_for(txids);
        let hash = transaction_times_hash(&times);
        (times, hash)
    }

    /// The rate a tombstone captured at burial (the package-effective rate
    /// the tx had while live).
    pub fn graveyard_fee_rate(&self, txid: &Txid) -> (r: Option<FeeRate>)
        ensures
            r == (if self.graveyard.tombs().contains_key(*txid) {
                Some(self.graveyard.tombs()[*txid].chunk_rate)
            } else {
                None
            }),
    {
        match self.graveyard.get(txid) {
            Some(tomb) => Some(tomb.chunk_rate),
            None => None,
        }
    }
}

/// Order- and length-sensitive validator of a list of times.
pub fn transaction_times_hash(times: &[u64]) -> (r: u64)
    ensures
        r == fx_times_hash(times@),
{
    fx_hash_times(times)
}

/// Effective rate of a live tx: the snapshot's linearized chunk rate for
/// its prefix, else (added since the snapshot was built) its own
/// `fee / vsize`.
pub fn live_effective_fee_rate(snapshot: &Snapshot, state: &State, txid: &Txid) -> (r: Option<FeeRate>)
    requires
        snapshot.wf(),
        state.wf(),
    ensures
        r == (if snapshot.index().contains_key(prefix_of(*txid)) {
            Some(snapshot.txs_seq()[snapshot.index()[prefix_of(*txid)] as int].chunk_rate)
        } else {
            match state.txs.record_for(*txid) {
                Some(rec) => Some(FeeRate { fee: rec.entry.fee, vsize: rec.entry.vsize }),
                None => None,
            }
        }),
{
    let prefix = txid.prefix();
    match snapshot.chunk_rate_for(&prefix) {
        Some(rate) => Some(rate),
        None => match state.txs.entry(txid) {
            Some(entry) => Some(entry.fee_rate()),
            None => None,
        },
    }
}

} // verus!
