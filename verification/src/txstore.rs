use vstd::prelude::*;

use crate::indexed::{
    has_key, keys_distinct, position_hash, fx_set_insert, fx_set_new, fx_set_remove,
    record_entries, records_at, records_index_of, records_insert, records_len, records_new,
    records_swap_remove, records_value_mut, swap_removed, txid_position_hash, PrefixSet, RecordMap,
    TxRecord,
};
use crate::tx::{has_unresolved, Transaction, TxEntry, TxIn, TxOut};
use crate::types::{prefix_of, Txid, TxidPrefix};

verus! {

/// How many recently added transactions are kept for display.
pub const RECENT_CAP: usize = 10;

/// A recently added transaction, as shown in the "latest" list.
#[derive(Debug, Clone, Copy)]
pub struct RecentTx {
    pub txid: Txid,
    pub fee: u64,
    pub vsize: u64,
    pub value: u64,
}

/// Virtual size: weight divided by four, rounded up.
pub open spec fn vsize_of(weight: u64) -> u64 {
    (weight / 4 + if weight % 4 > 0 { 1u64 } else { 0u64 }) as u64
}

/// Sum of output values, capped at `u64::MAX`.
pub open spec fn outputs_value(outs: Seq<TxOut>) -> int
    decreases outs.len(),
{
    if outs.len() == 0 {
        0
    } else {
        let rest = outputs_value(outs.drop_last());
        let total = rest + outs.last().value;
        if total > u64::MAX {
            u64::MAX as int
        } else {
            total
        }
    }
}

pub open spec fn recent_of(txid: Txid, tx: Transaction) -> RecentTx {
    RecentTx {
        txid,
        fee: tx.fee,
        vsize: vsize_of(tx.weight),
        value: outputs_value(tx.output@) as u64,
    }
}

/// XOR over all positions `i` of `position_hash(txids[i], i)`: the
/// order-sensitive fingerprint of the live set.
pub open spec fn xor_fold(txids: Seq<Txid>) -> u64
    decreases txids.len(),
{
    if txids.len() == 0 {
        0
    } else {
        xor_fold(txids.drop_last()) ^ position_hash(txids.last(), (txids.len() - 1) as u64)
    }
}

/// Live-pool index keyed by txid prefix. The full txid lives in the
/// record's entry; lookups by full txid check it. `unresolved` holds the
/// prefixes whose tx still has an input without a prevout.
pub struct TxStore {
    records: RecordMap,
    txids_hash: u64,
    content_revision: u64,
    recent: Vec<RecentTx>,
    unresolved: PrefixSet,
}

impl TxStore {
    /// Records in storage order, with their prefix keys.
    pub closed spec fn entries(&self) -> Seq<(TxidPrefix, TxRecord)> {
        record_entries(self.records)
    }

    /// Full txids in storage order.
    pub open spec fn txids_seq(&self) -> Seq<Txid> {
        self.entries().map_values(|e: (TxidPrefix, TxRecord)| e.1.entry.txid)
    }

    pub closed spec fn hash_value(&self) -> u64 {
        self.txids_hash
    }

    pub closed spec fn revision(&self) -> u64 {
        self.content_revision
    }

    pub closed spec fn recent_seq(&self) -> Seq<RecentTx> {
        self.recent@
    }

    pub closed spec fn unresolved_set(&self) -> Set<TxidPrefix> {
        self.unresolved@
    }

    /// The prefixes whose record still has an input without a prevout.
    pub open spec fn pending(&self) -> Set<TxidPrefix> {
        Set::new(
            |k: TxidPrefix|
                exists|i: int|
                    0 <= i < self.entries().len() && (#[trigger] self.entries()[i]).0 == k
                        && has_unresolved(self.entries()[i].1.tx.input@),
        )
    }

    /// The store's invariant: each record sits under its own prefix, no
    /// prefix twice, the fingerprint matches the stored order, the
    /// unresolved set is exact, and the recent list is capped.
    pub open spec fn wf(&self) -> bool {
        &&& keys_distinct(self.entries())
        &&& forall|i: int|
            0 <= i < self.entries().len() ==> (#[trigger] self.entries()[i]).0 == prefix_of(
                self.entries()[i].1.entry.txid,
            )
        &&& self.hash_value() == xor_fold(self.txids_seq())
        &&& self.unresolved_set() == self.pending()
        &&& self.recent_seq().len() <= RECENT_CAP
    }

    /// Nothing observable differs between `a` and `b`.
    pub open spec fn same_state(a: TxStore, b: TxStore) -> bool {
        &&& a.entries() == b.entries()
        &&& a.hash_value() == b.hash_value()
        &&& a.revision() == b.revision()
        &&& a.recent_seq() == b.recent_seq()
        &&& a.unresolved_set() == b.unresolved_set()
    }

    /// Index of the record stored under `prefix`.
    pub open spec fn index_of(&self, prefix: TxidPrefix) -> int {
        choose|i: int| 0 <= i < self.entries().len() && (#[trigger] self.entries()[i]).0 == prefix
    }

    /// The record stored for the full `txid`, if any.
    pub open spec fn record_for(&self, txid: Txid) -> Option<TxRecord> {
        let p = prefix_of(txid);
        if has_key(self.entries(), p) && self.entries()[self.index_of(p)].1.entry.txid == txid {
            Some(self.entries()[self.index_of(p)].1)
        } else {
            None
        }
    }

    pub fn new() -> (s: Self)
        ensures
            s.wf(),
            s.entries().len() == 0,
            s.revision() == 0,
            s.recent_seq().len() == 0,
    {
        let s = TxStore {
            records: records_new(),
            txids_hash: 0,
            content_revision: 0,
            recent: Vec::new(),
            unresolved: fx_set_new(),
        };
        assert(s.unresolved_set() =~= s.pending());
        s
    }

    pub fn len(&self) -> (r: usize)
        ensures
            r == self.entries().len(),
    {
        records_len(&self.records)
    }

    pub fn txids_hash(&self) -> (r: u64)
        ensures
            r == self.hash_value(),
    {
        self.txids_hash
    }

    /// Process-local revision, bumped by every mutation that can change a
    /// stored transaction body.
    pub fn content_revision(&self) -> (r: u64)
        ensures
            r == self.revision(),
    {
        self.content_revision
    }

    pub fn recent(&self) -> (r: &[RecentTx])
        ensures
            r@ == self.recent_seq(),
    {
        self.recent.as_slice()
    }

    pub fn unresolved(&self) -> (r: &PrefixSet)
        ensures
            r@ == self.unresolved_set(),
    {
        &self.unresolved
    }

    pub fn record_by_prefix(&self, prefix: &TxidPrefix) -> (r: Option<&TxRecord>)
        requires
            self.wf(),
        ensures
            has_key(self.entries(), *prefix) ==> r == Some(&self.entries()[self.index_of(*prefix)].1),
            !has_key(self.entries(), *prefix) ==> r is None,
    {
        match records_index_of(&self.records, prefix) {
            Some(i) => {
                proof {
                    self.lemma_index_unique(*prefix, i as int);
                }
                match records_at(&self.records, i) {
                    Some((_, record)) => Some(record),
                    None => None,
                }
            },
            None => None,
        }
    }

    pub fn entry_by_prefix(&self, prefix: &TxidPrefix) -> (r: Option<&TxEntry>)
        requires
            self.wf(),
        ensures
            has_key(self.entries(), *prefix) ==> r == Some(
                &self.entries()[self.index_of(*prefix)].1.entry,
            ),
            !has_key(self.entries(), *prefix) ==> r is None,
    {
        match self.record_by_prefix(prefix) {
            Some(record) => Some(&record.entry),
            None => None,
        }
    }

    /// The record for the full `txid`; a different txid sharing the
    /// prefix is not a match.
    pub fn record(&self, txid: &Txid) -> (r: Option<&TxRecord>)
        requires
            self.wf(),
        ensures
            r == match self.record_for(*txid) {
                Some(rec) => Some(&rec),
                None => None,
            },
    {
        let prefix = txid.prefix();
        match self.record_by_prefix(&prefix) {
            Some(record) => {
                if record.entry.txid == *txid {
                    Some(record)
                } else {
                    None
                }
            },
            None => None,
        }
    }

    pub fn get(&self, txid: &Txid) -> (r: Option<&Transaction>)
        requires
            self.wf(),
        ensures
            r == match self.record_for(*txid) {
                Some(rec) => Some(&rec.tx),
                None => None,
            },
    {
        match self.record(txid) {
            Some(record) => Some(&record.tx),
            None => None,
        }
    }

    pub fn entry(&self, txid: &Txid) -> (r: Option<&TxEntry>)
        requires
            self.wf(),
        ensures
            r == match self.record_for(*txid) {
                Some(rec) => Some(&rec.entry),
                None => None,
            },
    {
        match self.record(txid) {
            Some(record) => Some(&record.entry),
            None => None,
        }
    }

    pub fn contains(&self, txid: &Txid) -> (r: bool)
        requires
            self.wf(),
        ensures
            r == self.record_for(*txid) is Some,
    {
        self.record(txid).is_some()
    }

    /// The `(prefix, record)` pair at storage position `i`.
    pub fn record_at(&self, i: usize) -> (r: Option<(&TxidPrefix, &TxRecord)>)
        ensures
            i < self.entries().len() ==> r is Some && *r.unwrap().0 == self.entries()[i as int].0
                && *r.unwrap().1 == self.entries()[i as int].1,
            i >= self.entries().len() ==> r is None,
    {
        records_at(&self.records, i)
    }

    /// Full txids in storage order.
    pub fn txids(&self) -> (r: Vec<Txid>)
        ensures
            r@ == self.txids_seq(),
    {
        let n = records_len(&self.records);
        let mut out: Vec<Txid> = Vec::new();
        let mut i: usize = 0;
        while i < n
            invariant
                n == self.entries().len(),
                i <= n,
                out@ == self.txids_seq().take(i as int),
            decreases n - i,
        {
            match records_at(&self.records, i) {
                Some((_, record)) => {
                    out.push(record.entry.txid);
                },
                None => {},
            }
            assert(self.txids_seq().take(i + 1) =~= self.txids_seq().take(i as int).push(
                self.txids_seq()[i as int],
            ));
            i += 1;
        }
        assert(self.txids_seq().take(n as int) =~= self.txids_seq());
        out
    }

    /// The fingerprint of `txids` taken in order; what `txids_hash` is for
    /// the stored order.
    pub fn txids_hash_of(txids: &[Txid]) -> (r: u64)
        ensures
            r == xor_fold(txids@),
    {
        let mut h: u64 = 0;
        let mut i: usize = 0;
        while i < txids.len()
            invariant
                i <= txids@.len(),
                h == xor_fold(txids@.take(i as int)),
            decreases txids.len() - i,
        {
            let ph = txid_position_hash(&txids[i], i);
            assert(txids@.take(i + 1).drop_last() =~= txids@.take(i as int));
            h = h ^ ph;
            i += 1;
        }
        assert(txids@.take(txids@.len() as int) =~= txids@);
        h
    }

    fn bump_content_revision(&mut self)
        ensures
            final(self).content_revision == if old(self).content_revision == u64::MAX {
                0
            } else {
                (old(self).content_revision + 1) as u64
            },
            final(self).records == old(self).records,
            final(self).txids_hash == old(self).txids_hash,
            final(self).recent == old(self).recent,
            final(self).unresolved == old(self).unresolved,
    {
        self.content_revision = if self.content_revision == u64::MAX {
            0
        } else {
            self.content_revision + 1
        };
    }

    /// Adds a new live transaction under its entry's prefix, appending it
    /// to storage order and to the front of the recent list.
    pub fn insert(&mut self, tx: Transaction, entry: TxEntry)
        requires
            old(self).wf(),
            !has_key(old(self).entries(), prefix_of(entry.txid)),
        ensures
            final(self).wf(),
            final(self).entries() == old(self).entries().push(
                (prefix_of(entry.txid), (TxRecord { tx, entry })),
            ),
            final(self).recent_seq() == seq![recent_of(entry.txid, tx)].add(
                old(self).recent_seq(),
            ).take(
                if old(self).recent_seq().len() + 1 > RECENT_CAP {
                    RECENT_CAP as int
                } else {
                    (old(self).recent_seq().len() + 1) as int
                },
            ),
            final(self).revision() == if old(self).revision() == u64::MAX {
                0
            } else {
                (old(self).revision() + 1) as u64
            },
    {
        let prefix = entry.txid_prefix();
        let position = records_len(&self.records);
        let txid = entry.txid;
        let ghost old_entries = self.entries();
        let ghost old_recent = self.recent@;
        self.sample_recent(&txid, &tx);
        let unresolved = tx.has_unresolved_input();
        if unresolved {
            fx_set_insert(&mut self.unresolved, prefix);
        }
        let record = TxRecord { tx, entry };
        records_insert(&mut self.records, prefix, record);
        let ph = txid_position_hash(&txid, position);
        self.txids_hash = self.txids_hash ^ ph;
        proof {
            let ne = self.entries();
            assert(ne == old_entries.push((prefix, record)));
            assert(self.txids_seq().drop_last() =~= old(self).txids_seq());
            assert(keys_distinct(ne)) by {
                assert forall|i: int, j: int| 0 <= i < j < ne.len() implies ne[i].0 != ne[j].0 by {
                    if j == ne.len() - 1 {
                        if ne[i].0 == prefix {
                            assert(old_entries[i].0 == prefix);
                        }
                    }
                }
            }
            assert(self.unresolved@ =~= self.pending()) by {
                assert forall|k: TxidPrefix| #[trigger] self.pending().contains(k) <==> self.unresolved@.contains(k) by {
                    if self.pending().contains(k) {
                        let i = choose|i: int|
                            0 <= i < ne.len() && (#[trigger] ne[i]).0 == k && has_unresolved(
                                ne[i].1.tx.input@,
                            );
                        if i < old_entries.len() {
                            assert(old_entries[i] == ne[i]);
                            assert(old(self).pending().contains(k));
                        }
                    }
                    if self.unresolved@.contains(k) {
                        if k == prefix && unresolved {
                            assert(ne[old_entries.len() as int].0 == k);
                        } else {
                            assert(old(self).pending().contains(k));
                            let i = choose|i: int|
                                0 <= i < old_entries.len() && (#[trigger] old_entries[i]).0 == k
                                    && has_unresolved(old_entries[i].1.tx.input@);
                            assert(ne[i] == old_entries[i]);
                        }
                    }
                }
            }
        }
        self.bump_content_revision();
    }

    fn sample_recent(&mut self, txid: &Txid, tx: &Transaction)
        requires
            old(self).recent@.len() <= RECENT_CAP,
        ensures
            final(self).recent@ == seq![recent_of(*txid, *tx)].add(old(self).recent@).take(
                if old(self).recent@.len() + 1 > RECENT_CAP {
                    RECENT_CAP as int
                } else {
                    (old(self).recent@.len() + 1) as int
                },
            ),
            final(self).recent@.len() <= RECENT_CAP,
            final(self).records == old(self).records,
            final(self).txids_hash == old(self).txids_hash,
            final(self).content_revision == old(self).content_revision,
            final(self).unresolved == old(self).unresolved,
    {
        let item = recent_from(txid, tx);
        self.recent.insert(0, item);
        self.recent.truncate(RECENT_CAP);
        assert(self.recent@ =~= seq![recent_of(*txid, *tx)].add(old(self).recent@).take(
            if old(self).recent@.len() + 1 > RECENT_CAP {
                RECENT_CAP as int
            } else {
                (old(self).recent@.len() + 1) as int
            },
        ));
    }

    /// Removes the record stored under `prefix` and returns it. The last
    /// record takes its storage position; the fingerprint is patched for
    /// both moves. The recent list is an "added" window and is left alone.
    pub fn remove_by_prefix(&mut self, prefix: &TxidPrefix) -> (r: Option<TxRecord>)
        requires
            old(self).wf(),
        ensures
            final(self).wf(),
            has_key(old(self).entries(), *prefix) ==> {
                let i = old(self).index_of(*prefix);
                &&& r == Some(old(self).entries()[i].1)
                &&& final(self).entries() == swap_removed(old(self).entries(), i)
                &&& final(self).revision() == if old(self).revision() == u64::MAX {
                    0
                } else {
                    (old(self).revision() + 1) as u64
                }
            },
            !has_key(old(self).entries(), *prefix) ==> r is None && Self::same_state(
                *final(self),
                *old(self),
            ),
            final(self).recent_seq() == old(self).recent_seq(),
    {
        let n = records_len(&self.records);
        if n == 0 {
            return None;
        }
        let last_position = n - 1;
        let last_txid = match records_at(&self.records, last_position) {
            Some((_, record)) => record.entry.txid,
            None => {
                return None;
            },
        };
        let ghost old_entries = self.entries();
        let ghost old_txids = self.txids_seq();
        let removed = records_swap_remove(&mut self.records, prefix);
        let (position, _, record) = match removed {
            Some(x) => x,
            None => {
                return None;
            },
        };
        proof {
            old(self).lemma_index_unique(*prefix, position as int);
        }
        let h1 = txid_position_hash(&record.entry.txid, position);
        self.txids_hash = self.txids_hash ^ h1;
        if position != last_position {
            let h2 = txid_position_hash(&last_txid, last_position);
            let h3 = txid_position_hash(&last_txid, position);
            self.txids_hash = self.txids_hash ^ h2;
            self.txids_hash = self.txids_hash ^ h3;
        }
        proof {
            let ne = self.entries();
            let p = position as int;
            assert(self.txids_seq() =~= swap_removed(old_txids, p));
            lemma_xor_fold_swap_remove(old_txids, p);
            assert(keys_distinct(ne)) by {
                assert forall|i: int, j: int| 0 <= i < j < ne.len() implies ne[i].0 != ne[j].0 by {
                    let oi = if i == p { n - 1 } else { i };
                    let oj = if j == p { n - 1 } else { j };
                    assert(ne[i] == old_entries[oi]);
                    assert(ne[j] == old_entries[oj]);
                }
            }
        }
        fx_set_remove(&mut self.unresolved, prefix);
        proof {
            let ne = self.entries();
            let p = position as int;
            assert(self.unresolved@ =~= self.pending()) by {
                assert forall|k: TxidPrefix| #[trigger] self.pending().contains(k) <==> self.unresolved@.contains(k) by {
                    if self.pending().contains(k) {
                        let i = choose|i: int|
                            0 <= i < ne.len() && (#[trigger] ne[i]).0 == k && has_unresolved(
                                ne[i].1.tx.input@,
                            );
                        let oi = if i == p { n - 1 } else { i };
                        assert(ne[i] == old_entries[oi]);
                        assert(old(self).pending().contains(k));
                        assert(k != *prefix);
                    }
                    if self.unresolved@.contains(k) {
                        assert(old(self).pending().contains(k));
                        let oi = choose|i: int|
                            0 <= i < old_entries.len() && (#[trigger] old_entries[i]).0 == k
                                && has_unresolved(old_entries[i].1.tx.input@);
                        assert(oi != p);
                        let i = if oi == n - 1 { p } else { oi };
                        assert(ne[i] == old_entries[oi]);
                    }
                }
            }
        }
        self.bump_content_revision();
        Some(record)
    }

    /// `after` is `before` with `fills` written into the record under
    /// `prefix`, `wrote` being the prevouts actually written, in order: only
    /// inputs that still lack a prevout take one. An unknown prefix, or a
    /// batch that writes nothing, changes nothing; a write bumps the
    /// content revision.
    pub open spec fn fills_applied(
        before: TxStore,
        after: TxStore,
        prefix: TxidPrefix,
        fills: Seq<(usize, TxOut)>,
        wrote: Seq<TxOut>,
    ) -> bool {
        &&& !has_key(before.entries(), prefix) ==> wrote.len() == 0 && Self::same_state(after, before)
        &&& has_key(before.entries(), prefix) ==> {
            let i = before.index_of(prefix);
            let tx0 = before.entries()[i].1.tx;
            &&& wrote.len() == applied_count(tx0.input@, fills, fills.len() as int)
            &&& forall|m: int|
                0 <= m < wrote.len() ==> (#[trigger] wrote[m])@ == applied_views(
                    tx0.input@,
                    fills,
                    fills.len() as int,
                )[m]
            &&& wrote.len() == 0 ==> Self::same_state(after, before)
            &&& wrote.len() > 0 ==> {
                let rec = after.entries()[i].1;
                &&& after.entries().len() == before.entries().len()
                &&& forall|j: int|
                    0 <= j < before.entries().len() && j != i ==> #[trigger] after.entries()[j]
                        == before.entries()[j]
                &&& after.entries()[i].0 == prefix
                &&& rec.entry == before.entries()[i].1.entry
                &&& filled_into(tx0, rec.tx, fills)
                &&& after.revision() == if before.revision() == u64::MAX {
                    0
                } else {
                    (before.revision() + 1) as u64
                }
            }
        }
    }

    /// Writes resolved prevouts into the stored tx under `prefix`. `fills`
    /// are `(input index, prevout)`; only inputs that still lack a prevout
    /// are written. Returns the prevouts actually written, in order. An
    /// unknown prefix, or a call that writes nothing, changes nothing.
    pub fn apply_fills(&mut self, prefix: &TxidPrefix, fills: Vec<(usize, TxOut)>) -> (r: Vec<
        TxOut,
    >)
        requires
            old(self).wf(),
        ensures
            final(self).wf(),
            Self::fills_applied(*old(self), *final(self), *prefix, fills@, r@),
    {
        let i = match records_index_of(&self.records, prefix) {
            Some(i) => i,
            None => {
                return Vec::new();
            },
        };
        proof {
            self.lemma_index_unique(*prefix, i as int);
        }
        let ghost old_entries = self.entries();
        let record = records_value_mut(&mut self.records, i);
        let ghost before = record.tx;
        let applied = write_prevouts(&mut record.tx, &fills);
        let resolved = !record.tx.has_unresolved_input();
        if applied.len() == 0 {
            proof {
                assert(self.entries() =~= old_entries);
            }
            return applied;
        }
        if resolved {
            fx_set_remove(&mut self.unresolved, prefix);
        }
        proof {
            let ne = self.entries();
            let ii = i as int;
            assert(ne == old_entries.update(ii, (old_entries[ii].0, ne[ii].1)));
            assert(self.txids_seq() =~= old(self).txids_seq());
            assert(keys_distinct(ne));
            lemma_fill_keeps_unresolved_unless_resolved(before, ne[ii].1.tx, fills@);
            assert(self.unresolved@ =~= self.pending()) by {
                assert forall|k: TxidPrefix| #[trigger] self.pending().contains(k) <==> self.unresolved@.contains(k) by {
                    if self.pending().contains(k) {
                        let j = choose|j: int|
                            0 <= j < ne.len() && (#[trigger] ne[j]).0 == k && has_unresolved(
                                ne[j].1.tx.input@,
                            );
                        if j == ii {
                            assert(has_unresolved(before.input@));
                        } else {
                            assert(ne[j] == old_entries[j]);
                        }
                        assert(old(self).pending().contains(k));
                    }
                    if self.unresolved@.contains(k) {
                        assert(old(self).pending().contains(k));
                        let j = choose|j: int|
                            0 <= j < old_entries.len() && (#[trigger] old_entries[j]).0 == k
                                && has_unresolved(old_entries[j].1.tx.input@);
                        if j != ii {
                            assert(ne[j] == old_entries[j]);
                        } else {
                            assert(k == *prefix);
                        }
                    }
                }
            }
        }
        self.bump_content_revision();
        applied
    }

    proof fn lemma_index_unique(&self, prefix: TxidPrefix, i: int)
        requires
            keys_distinct(self.entries()),
            0 <= i < self.entries().len(),
            self.entries()[i].0 == prefix,
        ensures
            has_key(self.entries(), prefix),
            self.index_of(prefix) == i,
    {
        assert(self.entries()[i].0 == prefix);
    }
}

fn recent_from(txid: &Txid, tx: &Transaction) -> (r: RecentTx)
    ensures
        r == recent_of(*txid, *tx),
{
    let w = tx.weight;
    let vsize = w / 4 + if w % 4 > 0 { 1u64 } else { 0u64 };
    let mut value: u64 = 0;
    let mut k: usize = 0;
    while k < tx.output.len()
        invariant
            k <= tx.output@.len(),
            value == outputs_value(tx.output@.take(k as int)),
        decreases tx.output.len() - k,
    {
        assert(tx.output@.take(k + 1).drop_last() =~= tx.output@.take(k as int));
        let v = tx.output[k].value;
        value = if value > u64::MAX - v { u64::MAX } else { value + v };
        k += 1;
    }
    assert(tx.output@.take(tx.output@.len() as int) =~= tx.output@);
    RecentTx { txid: *txid, fee: tx.fee, vsize, value }
}

/// Fill `j` writes: its input exists, has no prevout yet, and no earlier
/// fill targets the same input.
pub open spec fn applies(inputs: Seq<TxIn>, fills: Seq<(usize, TxOut)>, j: int) -> bool {
    &&& fills[j].0 < inputs.len()
    &&& inputs[fills[j].0 as int].prevout is None
    &&& forall|j2: int| 0 <= j2 < j ==> #[trigger] fills[j2].0 != fills[j].0
}

/// How many of the first `n` fills write.
pub open spec fn applied_count(inputs: Seq<TxIn>, fills: Seq<(usize, TxOut)>, n: int) -> nat
    decreases n,
{
    if n <= 0 {
        0
    } else {
        applied_count(inputs, fills, n - 1) + if applies(inputs, fills, n - 1) {
            1nat
        } else {
            0nat
        }
    }
}

/// The prevouts written by the first `n` fills, in order.
pub open spec fn applied_views(inputs: Seq<TxIn>, fills: Seq<(usize, TxOut)>, n: int) -> Seq<
    (Seq<u8>, u64),
>
    decreases n,
{
    if n <= 0 {
        Seq::empty()
    } else {
        let rest = applied_views(inputs, fills, n - 1);
        if applies(inputs, fills, n - 1) {
            rest.push(fills[n - 1].1@)
        } else {
            rest
        }
    }
}

/// The input at `i` after the first `n` fills: an existing prevout stays;
/// a missing one takes the first of those fills aimed at it, if any.
pub open spec fn input_filled(
    before: TxIn,
    after: TxIn,
    i: int,
    fills: Seq<(usize, TxOut)>,
    n: int,
) -> bool {
    &&& after.txid == before.txid
    &&& after.vout == before.vout
    &&& after.is_coinbase == before.is_coinbase
    &&& after.sequence == before.sequence
    &&& before.prevout is Some ==> after.prevout == before.prevout
    &&& before.prevout is None ==> {
        ||| (exists|j: int|
            0 <= j < n && #[trigger] fills[j].0 == i && (forall|j2: int|
                0 <= j2 < j ==> #[trigger] fills[j2].0 != i) && after.prevout is Some
                && after.prevout.unwrap()@ == fills[j].1@)
        ||| (forall|j: int| 0 <= j < n ==> #[trigger] fills[j].0 != i) && after.prevout is None
    }
}

/// `after` is `before` with `fills` written into its missing prevouts.
pub open spec fn filled_into(before: Transaction, after: Transaction, fills: Seq<(usize, TxOut)>) -> bool {
    &&& after.txid == before.txid
    &&& after.version == before.version
    &&& after.lock_time == before.lock_time
    &&& after.output == before.output
    &&& after.total_size == before.total_size
    &&& after.weight == before.weight
    &&& after.total_sigop_cost == before.total_sigop_cost
    &&& after.fee == before.fee
    &&& after.input@.len() == before.input@.len()
    &&& forall|i: int|
        0 <= i < before.input@.len() ==> input_filled(
            before.input@[i],
            #[trigger] after.input@[i],
            i,
            fills,
            fills.len() as int,
        )
}

/// Writes `fills` into the inputs of `tx` that still lack a prevout.
fn write_prevouts(tx: &mut Transaction, fills: &Vec<(usize, TxOut)>) -> (r: Vec<TxOut>)
    ensures
        r@.len() == applied_count(old(tx).input@, fills@, fills@.len() as int),
        forall|m: int|
            0 <= m < r@.len() ==> (#[trigger] r@[m])@ == applied_views(
                old(tx).input@,
                fills@,
                fills@.len() as int,
            )[m],
        filled_into(*old(tx), *final(tx), fills@),
        r@.len() == 0 ==> *final(tx) == *old(tx),
{
    let ghost before = *tx;
    let mut applied: Vec<TxOut> = Vec::new();
    let mut j: usize = 0;
    while j < fills.len()
        invariant
            j <= fills@.len(),
            tx.txid == before.txid,
            tx.version == before.version,
            tx.lock_time == before.lock_time,
            tx.output == before.output,
            tx.total_size == before.total_size,
            tx.weight == before.weight,
            tx.total_sigop_cost == before.total_sigop_cost,
            tx.fee == before.fee,
            tx.input@.len() == before.input@.len(),
            applied@.len() == applied_count(before.input@, fills@, j as int),
            forall|m: int|
                0 <= m < applied@.len() ==> (#[trigger] applied@[m])@ == applied_views(
                    before.input@,
                    fills@,
                    j as int,
                )[m],
            applied@.len() == 0 ==> *tx == before,
            forall|i: int|
                0 <= i < before.input@.len() ==> input_filled(
                    before.input@[i],
                    #[trigger] tx.input@[i],
                    i,
                    fills@,
                    j as int,
                ),
        decreases fills.len() - j,
    {
        let vin = fills[j].0;
        let ghost mid = tx.input@;
        let ghost mut is_applied = false;
        proof {
            lemma_applied_views_len(before.input@, fills@, j as int);
        }
        if vin < tx.input.len() && tx.input[vin].prevout.is_none() {
            let cur = &tx.input[vin];
            let out = fills[j].1.clone();
            let out2 = fills[j].1.clone();
            let replaced = TxIn {
                txid: cur.txid,
                vout: cur.vout,
                prevout: Some(out),
                is_coinbase: cur.is_coinbase,
                sequence: cur.sequence,
            };
            tx.input.set(vin, replaced);
            applied.push(out2);
            proof {
                is_applied = true;
            }
        }
        proof {
            let jj = j as int;
            if vin < before.input@.len() {
                let v = vin as int;
                assert(input_filled(before.input@[v], mid[v], v, fills@, jj));
            }
            if is_applied {
                let v = vin as int;
                assert forall|j2: int| 0 <= j2 < jj implies #[trigger] fills@[j2].0 != vin by {
                    if fills@[j2].0 == vin && before.input@[v].prevout is None {
                        assert(fills@[j2].0 == v);
                    }
                }
                assert(applies(before.input@, fills@, jj));
                assert(applied_views(before.input@, fills@, jj + 1) == applied_views(
                    before.input@,
                    fills@,
                    jj,
                ).push(fills@[jj].1@));
            } else {
                if vin < before.input@.len() && before.input@[vin as int].prevout is None {
                    let v = vin as int;
                    assert(mid[v].prevout is Some);
                    let j0 = choose|j0: int|
                        0 <= j0 < jj && #[trigger] fills@[j0].0 == v && (forall|j2: int|
                            0 <= j2 < j0 ==> #[trigger] fills@[j2].0 != v) && mid[v].prevout is Some
                            && mid[v].prevout.unwrap()@ == fills@[j0].1@;
                    assert(fills@[j0].0 == vin);
                }
                assert(!applies(before.input@, fills@, jj));
                assert(tx.input@ == mid);
            }
            assert forall|i: int| 0 <= i < before.input@.len() implies input_filled(
                before.input@[i],
                #[trigger] tx.input@[i],
                i,
                fills@,
                jj + 1,
            ) by {
                assert(input_filled(before.input@[i], mid[i], i, fills@, jj));
                if is_applied && i == vin {
                    assert(fills@[jj].0 == i);
                } else {
                    assert(tx.input@[i] == mid[i]);
                    if before.input@[i].prevout is None {
                        if exists|j0: int|
                            0 <= j0 < jj && #[trigger] fills@[j0].0 == i && (forall|j2: int|
                                0 <= j2 < j0 ==> #[trigger] fills@[j2].0 != i) && mid[i].prevout is Some
                                && mid[i].prevout.unwrap()@ == fills@[j0].1@ {
                            let j0 = choose|j0: int|
                                0 <= j0 < jj && #[trigger] fills@[j0].0 == i && (forall|j2: int|
                                    0 <= j2 < j0 ==> #[trigger] fills@[j2].0 != i) && mid[i].prevout is Some
                                    && mid[i].prevout.unwrap()@ == fills@[j0].1@;
                            assert(0 <= j0 < jj + 1);
                        } else {
                            assert(mid[i].prevout is None);
                            if fills@[jj].0 == i {
                                assert(vin == i);
                            }
                        }
                    }
                }
            }
        }
        j += 1;
    }
    applied
}

proof fn lemma_applied_views_len(inputs: Seq<TxIn>, fills: Seq<(usize, TxOut)>, n: int)
    requires
        n >= 0,
    ensures
        applied_views(inputs, fills, n).len() == applied_count(inputs, fills, n),
    decreases n,
{
    if n > 0 {
        lemma_applied_views_len(inputs, fills, n - 1);
    }
}

/// Writing prevouts only ever fills inputs: a tx with no missing prevout
/// afterwards, or one that still misses one, relates to its state before.
proof fn lemma_fill_keeps_unresolved_unless_resolved(
    before: Transaction,
    after: Transaction,
    fills: Seq<(usize, TxOut)>,
)
    requires
        filled_into(before, after, fills),
    ensures
        has_unresolved(after.input@) ==> has_unresolved(before.input@),
{
    if has_unresolved(after.input@) {
        let i = choose|i: int|
            0 <= i < after.input@.len() && (#[trigger] after.input@[i]).prevout is None;
        assert(input_filled(before.input@[i], after.input@[i], i, fills, fills.len() as int));
    }
}

/// XOR-ing a value in and out again cancels.
proof fn lemma_xor_swap(a: u64, b: u64, c: u64, d: u64)
    ensures
        ((a ^ b) ^ c) ^ d == ((a ^ d) ^ c) ^ b,
        ((a ^ b) ^ c) ^ d == ((a ^ c) ^ b) ^ d,
        (a ^ b) ^ b == a,
{
    assert(((a ^ b) ^ c) ^ d == ((a ^ d) ^ c) ^ b) by (bit_vector);
    assert(((a ^ b) ^ c) ^ d == ((a ^ c) ^ b) ^ d) by (bit_vector);
    assert((a ^ b) ^ b == a) by (bit_vector);
}

/// Replacing the txid at position `p` swaps its term in the fingerprint.
proof fn lemma_xor_fold_update(s: Seq<Txid>, p: int, x: Txid)
    requires
        0 <= p < s.len(),
    ensures
        xor_fold(s.update(p, x)) == (xor_fold(s) ^ position_hash(s[p], p as u64)) ^ position_hash(
            x,
            p as u64,
        ),
    decreases s.len(),
{
    let t = s.update(p, x);
    let n = s.len();
    let dl = s.drop_last();
    if p == n - 1 {
        assert(t.drop_last() =~= dl);
        lemma_xor_swap(xor_fold(dl), position_hash(s[p], p as u64), position_hash(s[p], p as u64), 0);
        let a = xor_fold(dl);
        let b = position_hash(s[p], p as u64);
        let c = position_hash(x, p as u64);
        assert(((a ^ b) ^ b) ^ c == a ^ c) by (bit_vector);
    } else {
        assert(t.drop_last() =~= dl.update(p, x));
        lemma_xor_fold_update(dl, p, x);
        let a = xor_fold(dl);
        let l = position_hash(s[n - 1], (n - 1) as u64);
        let b = position_hash(s[p], p as u64);
        let c = position_hash(x, p as u64);
        assert(((a ^ b) ^ c) ^ l == ((a ^ l) ^ b) ^ c) by (bit_vector);
    }
}

/// Swap-removing position `p` changes the fingerprint by exactly the
/// terms the store patches.
proof fn lemma_xor_fold_swap_remove(s: Seq<Txid>, p: int)
    requires
        0 <= p < s.len(),
    ensures
        p == s.len() - 1 ==> xor_fold(swap_removed(s, p)) == xor_fold(s) ^ position_hash(
            s[p],
            p as u64,
        ),
        p != s.len() - 1 ==> xor_fold(swap_removed(s, p)) == ((xor_fold(s) ^ position_hash(
            s[p],
            p as u64,
        )) ^ position_hash(s.last(), (s.len() - 1) as u64)) ^ position_hash(s.last(), p as u64),
{
    let n = s.len();
    let t = s.update(p, s.last());
    if p == n - 1 {
        assert(t =~= s);
        let a = xor_fold(s.drop_last());
        let b = position_hash(s[p], p as u64);
        assert((a ^ b) ^ b == a) by (bit_vector);
    } else {
        lemma_xor_fold_update(s, p, s.last());
        assert(t.last() == s.last());
        let a = xor_fold(s);
        let b = position_hash(s[p], p as u64);
        let c = position_hash(s.last(), p as u64);
        let l = position_hash(s.last(), (n - 1) as u64);
        let x = xor_fold(t.drop_last());
        assert(xor_fold(t) == x ^ l);
        assert((x ^ l) ^ l == x) by (bit_vector);
        assert(((a ^ b) ^ c) ^ l == ((a ^ b) ^ l) ^ c) by (bit_vector);
    }
}

/// The pool's validator is always the order-sensitive fold of the txids it
/// holds, in storage order: two pools holding the same txids in the same
/// order have the same validator.
pub proof fn law_txids_hash_is_contents_fold(store: TxStore)
    requires
        store.wf(),
    ensures
        store.hash_value() == xor_fold(store.txids_seq()),
{
}

/// Swap-removing the record under `p` (what `remove_by_prefix` does) keeps
/// every other lookup: a txid under another prefix finds what it found
/// before.
pub proof fn law_swap_remove_keeps_lookups(before: TxStore, after: TxStore, p: TxidPrefix, t: Txid)
    requires
        before.wf(),
        after.wf(),
        has_key(before.entries(), p),
        after.entries() == swap_removed(before.entries(), before.index_of(p)),
        prefix_of(t) != p,
    ensures
        after.record_for(t) == before.record_for(t),
{
    let b = before.entries();
    let a = after.entries();
    let i = before.index_of(p);
    let q = prefix_of(t);
    assert(b[i].0 == p);
    if has_key(b, q) {
        let jb = before.index_of(q);
        assert(b[jb].0 == q);
        assert(jb != i);
        let ja = if jb == b.len() - 1 { i } else { jb };
        assert(a[ja] == b[jb]);
        assert(has_key(a, q));
        let ka = after.index_of(q);
        assert(a[ka].0 == q);
        assert(ka == ja);
    } else {
        if has_key(a, q) {
            let k = choose|k: int| 0 <= k < a.len() && (#[trigger] a[k]).0 == q;
            if k == i {
                assert(b[b.len() - 1].0 == q);
            } else {
                assert(b[k].0 == q);
            }
        }
    }
}

/// Removing right after inserting undoes the insertion: the record that
/// was inserted comes back out, and the pool holds the same records in
/// the same order, with the same validator, as before.
pub proof fn law_insert_then_remove_restores(
    before: TxStore,
    mid: TxStore,
    after: TxStore,
    tx: Transaction,
    entry: TxEntry,
)
    requires
        before.wf(),
        mid.wf(),
        after.wf(),
        !has_key(before.entries(), prefix_of(entry.txid)),
        mid.entries() == before.entries().push((prefix_of(entry.txid), TxRecord { tx, entry })),
        after.entries() == swap_removed(mid.entries(), mid.index_of(prefix_of(entry.txid))),
    ensures
        has_key(mid.entries(), prefix_of(entry.txid)),
        mid.entries()[mid.index_of(prefix_of(entry.txid))].1 == (TxRecord { tx, entry }),
        after.entries() == before.entries(),
        after.hash_value() == before.hash_value(),
{
    let p = prefix_of(entry.txid);
    let m = mid.entries();
    let last = m.len() - 1;
    assert(m[last].0 == p);
    assert(has_key(m, p));
    let i = mid.index_of(p);
    assert(m[i].0 == p);
    if i != last {
        assert(m[i] == before.entries()[i]);
        assert(has_key(before.entries(), p));
    }
    assert(after.entries() =~= before.entries());
    assert(after.txids_seq() =~= before.txids_seq());
}

/// Fills are idempotent: once `fills` have been written into a
/// transaction, writing the same fills again writes nothing, since a
/// filled input is never overwritten.
pub proof fn law_refill_writes_nothing(before: Transaction, after: Transaction, fills: Seq<(usize, TxOut)>)
    requires
        filled_into(before, after, fills),
    ensures
        applied_count(after.input@, fills, fills.len() as int) == 0,
{
    assert forall|j: int| 0 <= j < fills.len() implies !applies(after.input@, fills, j) by {
        let i = fills[j].0 as int;
        if i < after.input@.len() {
            assert(input_filled(before.input@[i], after.input@[i], i, fills, fills.len() as int));
            if before.input@[i].prevout is None {
                if forall|j2: int| 0 <= j2 < fills.len() ==> #[trigger] fills[j2].0 != i {
                    assert(fills[j].0 == i);
                }
            }
        }
    }
    lemma_no_applies_count(after.input@, fills, fills.len() as int);
}

/// With no fill that writes among the first `n`, none is counted.
proof fn lemma_no_applies_count(inputs: Seq<TxIn>, fills: Seq<(usize, TxOut)>, n: int)
    requires
        n <= fills.len(),
        forall|j: int| 0 <= j < n ==> !applies(inputs, fills, j),
    ensures
        applied_count(inputs, fills, n) == 0,
    decreases n,
{
    if n > 0 {
        lemma_no_applies_count(inputs, fills, n - 1);
    }
}

} // verus!
