use vstd::prelude::*;

use crate::graveyard::{TxGraveyard, TxTombstone};
use crate::indexed::{fx_set_insert, fx_set_new, has_key, PrefixSet, TxRecord};
use crate::snapshot::Snapshot;
use crate::tx::{same_tx, Transaction, TxEntry, TxRemoval};
use crate::txstore::TxStore;
use crate::types::{prefix_of, FeeRate, Txid, TxidPrefix};

verus! {

/// The live mempool: the pool itself and the recently dropped.
pub struct State {
    pub txs: TxStore,
    pub graveyard: TxGraveyard,
}

impl State {
    pub open spec fn wf(&self) -> bool {
        self.txs.wf() && self.graveyard.wf()
    }

    pub fn new() -> (s: Self)
        ensures
            s.wf(),
            s.txs.entries().len() == 0,
            s.txs.revision() == 0,
            s.txs.recent_seq().len() == 0,
            s.graveyard.tombs().dom() == Set::<Txid>::empty(),
            s.graveyard.tombs() == Map::<Txid, TxTombstone>::empty(),
            s.graveyard.order_seq() == Seq::<(u64, Txid)>::empty(),
    {
        let s = State { txs: TxStore::new(), graveyard: TxGraveyard::new() };
        assert(s.graveyard.tombs().dom() =~= Set::<Txid>::empty());
        s
    }
}

/// How a new live transaction was obtained.
#[derive(Debug, Clone, Copy, PartialEq, Eq, Structural)]
pub enum AddedKind {
    /// Decoded from a freshly fetched raw transaction.
    Fresh,
    /// Brought back from the graveyard without a fetch.
    Revived,
}

/// A transaction entering the live pool this cycle.
pub enum TxAddition {
    Fresh { tx: Transaction, entry: TxEntry },
    Revived { entry: TxEntry },
}

impl TxAddition {
    pub open spec fn spec_entry(self) -> TxEntry {
        match self {
            TxAddition::Fresh { entry, .. } => entry,
            TxAddition::Revived { entry } => entry,
        }
    }

    pub open spec fn spec_kind(self) -> AddedKind {
        match self {
            TxAddition::Fresh { .. } => AddedKind::Fresh,
            TxAddition::Revived { .. } => AddedKind::Revived,
        }
    }

    pub fn kind(&self) -> (r: AddedKind)
        ensures
            r == self.spec_kind(),
    {
        match self {
            TxAddition::Fresh { .. } => AddedKind::Fresh,
            TxAddition::Revived { .. } => AddedKind::Revived,
        }
    }

    pub fn txid(&self) -> (r: Txid)
        ensures
            r == self.spec_entry().txid,
    {
        match self {
            TxAddition::Fresh { entry, .. } => entry.txid,
            TxAddition::Revived { entry } => entry.txid,
        }
    }
}

/// Event: a transaction entered the live pool.
#[derive(Debug, Clone, Copy)]
pub struct TxAdded {
    pub txid: Txid,
    pub fee: u64,
    pub vsize: u64,
    pub fee_rate: FeeRate,
    pub first_seen: u64,
    pub kind: AddedKind,
}

/// Event: a transaction left the live pool.
#[derive(Debug, Clone, Copy)]
pub struct TxRemoved {
    pub txid: Txid,
    pub reason: TxRemoval,
    pub chunk_rate: FeeRate,
}

/// The body and entry an addition publishes, if it can be had: a fresh
/// addition carries its body, a revived one takes it from its tombstone.
pub open spec fn resolved(a: TxAddition, tombs: Map<Txid, TxTombstone>) -> Option<(Transaction, TxEntry)> {
    match a {
        TxAddition::Fresh { tx, entry } => Some((tx, entry)),
        TxAddition::Revived { entry } => if tombs.contains_key(entry.txid) {
            Some((tombs[entry.txid].tx, entry))
        } else {
            None
        },
    }
}

/// The records a batch of additions publishes, in order.
pub open spec fn published(adds: Seq<TxAddition>, tombs: Map<Txid, TxTombstone>) -> Seq<(TxidPrefix, TxRecord)>
    decreases adds.len(),
{
    if adds.len() == 0 {
        Seq::empty()
    } else {
        let rest = published(adds.drop_last(), tombs);
        match resolved(adds.last(), tombs) {
            Some(p) => rest.push((prefix_of(p.1.txid), TxRecord { tx: p.0, entry: p.1 })),
            None => rest,
        }
    }
}

/// The event for a published entry.
pub open spec fn added_event(entry: TxEntry, kind: AddedKind) -> TxAdded {
    TxAdded {
        txid: entry.txid,
        fee: entry.fee,
        vsize: entry.vsize,
        fee_rate: FeeRate { fee: entry.fee, vsize: entry.vsize },
        first_seen: entry.first_seen,
        kind,
    }
}

/// The events a batch of additions emits, in order.
pub open spec fn added_events(adds: Seq<TxAddition>, tombs: Map<Txid, TxTombstone>) -> Seq<TxAdded>
    decreases adds.len(),
{
    if adds.len() == 0 {
        Seq::empty()
    } else {
        let rest = added_events(adds.drop_last(), tombs);
        match resolved(adds.last(), tombs) {
            Some(p) => rest.push(added_event(p.1, adds.last().spec_kind())),
            None => rest,
        }
    }
}

/// `k` is the txid of a revived addition among `adds`.
pub open spec fn revives(adds: Seq<TxAddition>, k: Txid) -> bool {
    exists|i: int|
        0 <= i < adds.len() && (#[trigger] adds[i]) is Revived && adds[i].spec_entry().txid == k
}

/// Position of the entry keyed `p` in `s`.
pub open spec fn key_index(s: Seq<(TxidPrefix, TxRecord)>, p: TxidPrefix) -> int {
    choose|i: int| 0 <= i < s.len() && (#[trigger] s[i]).0 == p
}

/// The rate a burial records: the snapshot's chunk rate for the prefix,
/// else the record's own fee rate.
pub open spec fn burial_rate(snapshot: Snapshot, p: TxidPrefix, rec: TxRecord) -> FeeRate {
    match snapshot.chunk_rate_for_spec(p) {
        Some(c) => c,
        None => FeeRate { fee: rec.entry.fee, vsize: rec.entry.vsize },
    }
}

/// Burying `removed` in order from `entries`: the records left (each
/// burial swap-removes), the events, and the tombstones written (their
/// burial time left at 0). Prefixes not live at their turn are skipped.
pub open spec fn burials(
    entries: Seq<(TxidPrefix, TxRecord)>,
    removed: Seq<(TxidPrefix, TxRemoval)>,
    snapshot: Snapshot,
) -> (Seq<(TxidPrefix, TxRecord)>, Seq<TxRemoved>, Map<Txid, TxTombstone>)
    decreases removed.len(),
{
    if removed.len() == 0 {
        (entries, Seq::empty(), Map::empty())
    } else {
        let (es, evs, buried) = burials(entries, removed.drop_last(), snapshot);
        let (p, reason) = removed.last();
        if has_key(es, p) {
            let i = key_index(es, p);
            let rec = es[i].1;
            let rate = burial_rate(snapshot, p, rec);
            (
                crate::indexed::swap_removed(es, i),
                evs.push(TxRemoved { txid: rec.entry.txid, reason, chunk_rate: rate }),
                buried.insert(
                    rec.entry.txid,
                    TxTombstone { tx: rec.tx, entry: rec.entry, chunk_rate: rate, removal: reason, removed_at: 0 },
                ),
            )
        } else {
            (es, evs, buried)
        }
    }
}

/// Burial-log rows for the tombstones buried, in order, at `times`.
pub open spec fn burial_rows(events: Seq<TxRemoved>, times: Seq<u64>) -> Seq<(u64, Txid)> {
    Seq::new(events.len(), |k: int| (times[k], events[k].txid))
}

/// Two tombstone maps agree on everything but burial times.
pub open spec fn same_tombs(a: Map<Txid, TxTombstone>, b: Map<Txid, TxTombstone>) -> bool {
    &&& a.dom() == b.dom()
    &&& forall|k: Txid|
        #[trigger] a.contains_key(k) ==> a[k].tx == b[k].tx && a[k].entry == b[k].entry
            && a[k].chunk_rate == b[k].chunk_rate && a[k].removal == b[k].removal
}

/// What a batch publishes and announces does not depend on burial times.
proof fn lemma_same_tombs_publish(adds: Seq<TxAddition>, a: Map<Txid, TxTombstone>, b: Map<Txid, TxTombstone>)
    requires
        same_tombs(a, b),
    ensures
        published(adds, a) == published(adds, b),
        added_events(adds, a) == added_events(adds, b),
    decreases adds.len(),
{
    if adds.len() > 0 {
        lemma_same_tombs_publish(adds.drop_last(), a, b);
        assert(resolved(adds.last(), a) == resolved(adds.last(), b));
    }
}

/// The tombstones left once the revived additions are taken back out.
pub open spec fn kept_tombs(tombs: Map<Txid, TxTombstone>, adds: Seq<TxAddition>) -> Map<Txid, TxTombstone> {
    Map::new(|k: Txid| tombs.contains_key(k) && !revives(adds, k), |k: Txid| tombs[k])
}

/// Txid prefixes of a batch of additions.
pub open spec fn addition_prefixes(adds: Seq<TxAddition>) -> Seq<TxidPrefix> {
    adds.map_values(|a: TxAddition| prefix_of(a.spec_entry().txid))
}

/// The additions of `adds` that the live pool `entries` can take, in
/// order: one whose txid prefix is live, or already taken by an earlier
/// kept addition, is dropped.
pub open spec fn fitting(adds: Seq<TxAddition>, entries: Seq<(TxidPrefix, TxRecord)>) -> Seq<TxAddition>
    decreases adds.len(),
{
    if adds.len() == 0 {
        Seq::empty()
    } else {
        let rest = fitting(adds.drop_last(), entries);
        let p = prefix_of(adds.last().spec_entry().txid);
        if !has_key(entries, p) && !addition_prefixes(rest).contains(p) {
            rest.push(adds.last())
        } else {
            rest
        }
    }
}

/// No two additions share a txid prefix, and none is already live.
pub open spec fn additions_fit(adds: Seq<TxAddition>, store: Seq<(TxidPrefix, TxRecord)>) -> bool {
    &&& forall|i: int, j: int|
        0 <= i < j < adds.len() ==> prefix_of((#[trigger] adds[i]).spec_entry().txid) != prefix_of(
            (#[trigger] adds[j]).spec_entry().txid,
        )
    &&& forall|i: int|
        0 <= i < adds.len() ==> !has_key(store, prefix_of((#[trigger] adds[i]).spec_entry().txid))
}

/// The additions of `added` the live pool can take: those whose txid
/// prefix is neither live nor taken by an earlier kept addition.
pub fn fitting_additions(state: &State, added: Vec<TxAddition>) -> (r: Vec<TxAddition>)
    requires
        state.wf(),
    ensures
        r@ == fitting(added@, state.txs.entries()),
        additions_fit(r@, state.txs.entries()),
{
    let ghost adds = added@;
    let ghost entries = state.txs.entries();
    let mut seen: PrefixSet = fx_set_new();
    let mut out: Vec<TxAddition> = Vec::new();
    proof {
        assert(seen@ =~= addition_prefixes(out@).to_set());
    }
    for a in it: added.into_iter()
        invariant
            adds == it.seq(),
            it.index() <= adds.len(),
            state.wf(),
            entries == state.txs.entries(),
            out@ == fitting(adds.take(it.index() as int), entries),
            additions_fit(out@, entries),
            seen@ == addition_prefixes(out@).to_set(),
    {
        let ghost i = it.index() as int;
        let ghost out0 = out@;
        proof {
            assert(adds.take(i + 1).drop_last() =~= adds.take(i));
            assert(adds[i] == a);
        }
        let prefix = a.txid().prefix();
        if state.txs.record_by_prefix(&prefix).is_none() && fx_set_insert(&mut seen, prefix) {
            out.push(a);
            proof {
                assert(!addition_prefixes(out0).contains(prefix));
                assert(addition_prefixes(out@) =~= addition_prefixes(out0).push(prefix));
                addition_prefixes(out0).lemma_push_to_set_commute(prefix);
                assert(seen@ =~= addition_prefixes(out@).to_set());
                assert forall|x: int, y: int| 0 <= x < y < out@.len() implies prefix_of(
                    (#[trigger] out@[x]).spec_entry().txid,
                ) != prefix_of((#[trigger] out@[y]).spec_entry().txid) by {
                    if y == out0.len() {
                        assert(addition_prefixes(out0)[x] == prefix_of(out0[x].spec_entry().txid));
                    } else {
                        assert(out0[x] == out@[x] && out0[y] == out@[y]);
                    }
                }
                assert forall|x: int| 0 <= x < out@.len() implies !has_key(
                    entries,
                    prefix_of((#[trigger] out@[x]).spec_entry().txid),
                ) by {
                    if x < out0.len() {
                        assert(out0[x] == out@[x]);
                    }
                }
            }
        } else {
            proof {
                if !has_key(entries, prefix) {
                    assert(addition_prefixes(out0).to_set().contains(prefix));
                }
            }
        }
    }
    proof {
        assert(adds.take(adds.len() as int) =~= adds);
    }
    out
}

/// Applies a prepared diff to the live state: bury what left, publish
/// what arrived, then evict aged tombstones. Events go to the caller's
/// accumulators.
pub struct Applier;

impl Applier {
    /// Applies one cycle's removals and additions. `prev_snapshot`
    /// supplies each burial's chunk rate; a tx missing from it is buried
    /// at its own fee rate. The graveyard ends as the old tombstones plus
    /// the burials, less the revived, with those aged out at the time of
    /// the eviction removed; tombstones that were not buried again keep
    /// their burial time, and the burial log is the old log plus one row
    /// per burial, cut where the eviction stopped.
    pub fn apply(
        state: &mut State,
        prev_snapshot: &Snapshot,
        removed: Vec<(TxidPrefix, TxRemoval)>,
        added: Vec<TxAddition>,
        removed_events: &mut Vec<TxRemoved>,
        added_events_out: &mut Vec<TxAdded>,
    )
        requires
            old(state).wf(),
            prev_snapshot.wf(),
            additions_fit(added@, old(state).txs.entries()),
        ensures
            final(state).wf(),
            ({
                let (left, events, buried) = burials(old(state).txs.entries(), removed@, *prev_snapshot);
                let tombs = old(state).graveyard.tombs().union_prefer_right(buried);
                &&& final(removed_events)@ == old(removed_events)@ + events
                &&& final(state).txs.entries() == left + published(added@, tombs)
                &&& final(added_events_out)@ == old(added_events_out)@ + added_events(added@, tombs)
                &&& exists|g: TxGraveyard, now: u64, times: Seq<u64>|
                    #![trigger TxGraveyard::evict_effect(g, final(state).graveyard, now), burial_rows(events, times)]
                    {
                        &&& same_tombs(g.tombs(), kept_tombs(tombs, added@))
                        &&& forall|key: Txid|
                            #[trigger] g.tombs().contains_key(key) && !buried.contains_key(key) ==> g.tombs()[key]
                                == old(state).graveyard.tombs()[key]
                        &&& times.len() == events.len()
                        &&& g.order_seq() == old(state).graveyard.order_seq() + burial_rows(events, times)
                        &&& TxGraveyard::evict_effect(g, final(state).graveyard, now)
                    }
            }),
    {
        let ghost entries0 = state.txs.entries();
        let ghost added_view = added@;
        let ghost b = burials(entries0, removed@, *prev_snapshot);
        let ghost spec_tombs = old(state).graveyard.tombs().union_prefer_right(b.2);
        Self::bury_removals(state, prev_snapshot, removed_events, removed);
        proof {
            lemma_same_tombs_publish(added_view, state.graveyard.tombs(), spec_tombs);
        }
        proof {
            assert forall|i: int| 0 <= i < added@.len() implies !has_key(
                state.txs.entries(),
                prefix_of((#[trigger] added@[i]).spec_entry().txid),
            ) by {
                let p = prefix_of(added@[i].spec_entry().txid);
                if has_key(state.txs.entries(), p) {
                    let k = choose|k: int|
                        0 <= k < state.txs.entries().len() && (#[trigger] state.txs.entries()[k]).0
                            == p;
                    assert(has_key(entries0, state.txs.entries()[k].0));
                }
            }
        }
        let ghost tombs_buried = state.graveyard.tombs();
        let ghost g_buried = state.graveyard;
        proof {
            let times = choose|times: Seq<u64>|
                times.len() == b.1.len() && g_buried.order_seq() == old(state).graveyard.order_seq()
                    + #[trigger] burial_rows(b.1, times);
        }
        Self::publish_additions(state, added_events_out, added);
        let ghost g1 = state.graveyard;
        proof {
            let want = kept_tombs(spec_tombs, added_view);
            assert(g1.tombs().dom() =~= want.dom());
            assert forall|k: Txid| #[trigger] g1.tombs().contains_key(k) implies g1.tombs()[k].tx == want[k].tx
                && g1.tombs()[k].entry == want[k].entry && g1.tombs()[k].chunk_rate == want[k].chunk_rate
                && g1.tombs()[k].removal == want[k].removal by {
                assert(tombs_buried.contains_key(k));
            }
            assert(same_tombs(g1.tombs(), want));
        }
        state.graveyard.evict_old();
        proof {
            let now = choose|now: u64| #[trigger] TxGraveyard::evict_effect(g1, state.graveyard, now);
            assert(TxGraveyard::evict_effect(g1, state.graveyard, now));
            let times = choose|times: Seq<u64>|
                times.len() == b.1.len() && g_buried.order_seq() == old(state).graveyard.order_seq()
                    + #[trigger] burial_rows(b.1, times);
            assert forall|key: Txid| #[trigger] g1.tombs().contains_key(key) && !b.2.contains_key(key) implies g1.tombs()[key]
                == old(state).graveyard.tombs()[key] by {
                assert(tombs_buried.contains_key(key));
            }
            assert(g1.order_seq() == old(state).graveyard.order_seq() + burial_rows(b.1, times));
        }
    }

    /// Buries each removal in order; prefixes no longer live are skipped.
    /// Every live record left afterwards was live before.
    pub fn bury_removals(
        state: &mut State,
        snapshot: &Snapshot,
        events: &mut Vec<TxRemoved>,
        removed: Vec<(TxidPrefix, TxRemoval)>,
    )
        requires
            old(state).wf(),
            snapshot.wf(),
        ensures
            final(state).wf(),
            forall|p: TxidPrefix|
                #[trigger] has_key(final(state).txs.entries(), p) ==> has_key(
                    old(state).txs.entries(),
                    p,
                ),
            final(state).txs.entries() == burials(old(state).txs.entries(), removed@, *snapshot).0,
            final(events)@ == old(events)@ + burials(old(state).txs.entries(), removed@, *snapshot).1,
            same_tombs(
                final(state).graveyard.tombs(),
                old(state).graveyard.tombs().union_prefer_right(
                    burials(old(state).txs.entries(), removed@, *snapshot).2,
                ),
            ),
            forall|key: Txid|
                #[trigger] old(state).graveyard.tombs().contains_key(key) && !burials(
                    old(state).txs.entries(),
                    removed@,
                    *snapshot,
                ).2.contains_key(key) ==> final(state).graveyard.tombs()[key] == old(state).graveyard.tombs()[key],
            exists|times: Seq<u64>|
                times.len() == burials(old(state).txs.entries(), removed@, *snapshot).1.len()
                    && final(state).graveyard.order_seq() == old(state).graveyard.order_seq() + #[trigger] burial_rows(
                    burials(old(state).txs.entries(), removed@, *snapshot).1,
                    times,
                ),
    {
        let ghost entries0 = state.txs.entries();
        let ghost tombs0 = state.graveyard.tombs();
        let ghost events0 = events@;
        let ghost order0 = state.graveyard.order_seq();
        let ghost mut times: Seq<u64> = Seq::empty();
        let mut k: usize = 0;
        proof {
            assert(tombs0.union_prefer_right(Map::empty()) =~= tombs0);
            assert(events0 + Seq::<TxRemoved>::empty() =~= events0);
            assert(order0 + burial_rows(Seq::<TxRemoved>::empty(), times) =~= order0);
        }
        while k < removed.len()
            invariant
                state.wf(),
                snapshot.wf(),
                k <= removed@.len(),
                forall|p: TxidPrefix|
                    #[trigger] has_key(state.txs.entries(), p) ==> has_key(entries0, p),
                state.txs.entries() == burials(entries0, removed@.take(k as int), *snapshot).0,
                events@ == events0 + burials(entries0, removed@.take(k as int), *snapshot).1,
                same_tombs(
                    state.graveyard.tombs(),
                    tombs0.union_prefer_right(burials(entries0, removed@.take(k as int), *snapshot).2),
                ),
                order0 == old(state).graveyard.order_seq(),
                times.len() == burials(entries0, removed@.take(k as int), *snapshot).1.len(),
                state.graveyard.order_seq() == order0 + burial_rows(
                    burials(entries0, removed@.take(k as int), *snapshot).1,
                    times,
                ),
                forall|key: Txid|
                    #[trigger] tombs0.contains_key(key) && !burials(entries0, removed@.take(k as int), *snapshot).2.contains_key(
                        key,
                    ) ==> state.graveyard.tombs()[key] == tombs0[key],
            decreases removed.len() - k,
        {
            let (prefix, reason) = removed[k];
            let ghost before = state.txs.entries();
            let ghost tombs_before = state.graveyard.tombs();
            let ghost events_before = events@;
            let ghost g_before = state.graveyard;
            proof {
                assert(removed@.take(k + 1).drop_last() =~= removed@.take(k as int));
                assert(removed@.take(k + 1).last() == (prefix, reason));
            }
            match Self::bury_one(state, snapshot, &prefix, reason) {
                Some(ev) => events.push(ev),
                None => {},
            }
            proof {
                let prev = burials(entries0, removed@.take(k as int), *snapshot);
                let next = burials(entries0, removed@.take(k + 1), *snapshot);
                if has_key(before, prefix) {
                    assert(events@ =~= events0 + next.1);
                    let rec0 = before[key_index(before, prefix)].1;
                    let rate0 = burial_rate(*snapshot, prefix, rec0);
                    let now = choose|now: u64|
                        #[trigger] TxGraveyard::bury_effect(
                            g_before,
                            state.graveyard,
                            (TxTombstone { tx: rec0.tx, entry: rec0.entry, chunk_rate: rate0, removal: reason, removed_at: now }),
                        );
                    assert(burial_rows(next.1, times.push(now)) =~= burial_rows(prev.1, times).push(
                        (now, rec0.entry.txid),
                    ));
                    times = times.push(now);
                    assert(state.graveyard.order_seq() =~= order0 + burial_rows(next.1, times));
                    assert forall|key: Txid|
                        #[trigger] tombs0.contains_key(key) && !next.2.contains_key(key) implies state.graveyard.tombs()[key]
                            == tombs0[key] by {
                        assert(key != rec0.entry.txid);
                    }
                    let rec = before[key_index(before, prefix)].1;
                    let t = TxTombstone {
                        tx: rec.tx,
                        entry: rec.entry,
                        chunk_rate: burial_rate(*snapshot, prefix, rec),
                        removal: reason,
                        removed_at: 0,
                    };
                    assert(tombs0.union_prefer_right(next.2) =~= tombs0.union_prefer_right(prev.2).insert(rec.entry.txid, t));
                    let want = tombs0.union_prefer_right(next.2);
                    assert(state.graveyard.tombs().dom() =~= want.dom());
                    assert forall|key: Txid| #[trigger] state.graveyard.tombs().contains_key(key) implies
                        state.graveyard.tombs()[key].tx == want[key].tx
                        && state.graveyard.tombs()[key].entry == want[key].entry
                        && state.graveyard.tombs()[key].chunk_rate == want[key].chunk_rate
                        && state.graveyard.tombs()[key].removal == want[key].removal by {
                        if key != rec.entry.txid {
                            assert(tombs_before.contains_key(key));
                        }
                    }
                } else {
                    assert(events@ =~= events0 + next.1);
                }
                assert(times.len() == next.1.len());
            }
            proof {
                assert forall|p: TxidPrefix| #[trigger] has_key(state.txs.entries(), p) implies has_key(
                    entries0,
                    p,
                ) by {
                    lemma_swap_removed_keys(before, state.txs.entries(), prefix, p);
                }
            }
            k += 1;
        }
        assert(removed@.take(removed@.len() as int) =~= removed@);
        assert(times.len() == burials(entries0, removed@, *snapshot).1.len());
        assert(state.graveyard.order_seq() == order0 + burial_rows(burials(entries0, removed@, *snapshot).1, times));
    }

    /// Moves the live record under `prefix` into the graveyard, at the
    /// snapshot's chunk rate when the snapshot has it and at its own fee
    /// rate otherwise. `None` when nothing is live under `prefix`.
    pub fn bury_one(
        state: &mut State,
        prev_snapshot: &Snapshot,
        prefix: &TxidPrefix,
        reason: TxRemoval,
    ) -> (r: Option<TxRemoved>)
        requires
            old(state).wf(),
            prev_snapshot.wf(),
        ensures
            final(state).wf(),
            !has_key(old(state).txs.entries(), *prefix) ==> r is None && TxStore::same_state(
                final(state).txs,
                old(state).txs,
            ) && final(state).graveyard == old(state).graveyard,
            has_key(old(state).txs.entries(), *prefix) ==> {
                let i = old(state).txs.index_of(*prefix);
                let rec = old(state).txs.entries()[i].1;
                let rate = match prev_snapshot.chunk_rate_for_spec(*prefix) {
                    Some(c) => c,
                    None => FeeRate { fee: rec.entry.fee, vsize: rec.entry.vsize },
                };
                &&& r == Some(TxRemoved { txid: rec.entry.txid, reason, chunk_rate: rate })
                &&& final(state).txs.entries() == crate::indexed::swap_removed(
                    old(state).txs.entries(),
                    i,
                )
                &&& final(state).graveyard.tombs().contains_key(rec.entry.txid)
                &&& final(state).graveyard.tombs()[rec.entry.txid].removal == reason
                &&& final(state).graveyard.tombs()[rec.entry.txid].chunk_rate == rate
                &&& final(state).graveyard.tombs()[rec.entry.txid].entry == rec.entry
                &&& final(state).graveyard.tombs()[rec.entry.txid].tx == rec.tx
                &&& i == key_index(old(state).txs.entries(), *prefix)
                &&& exists|now: u64|
                    #[trigger] TxGraveyard::bury_effect(
                        old(state).graveyard,
                        final(state).graveyard,
                        (TxTombstone {
                            tx: rec.tx,
                            entry: rec.entry,
                            chunk_rate: burial_rate(*prev_snapshot, *prefix, rec),
                            removal: reason,
                            removed_at: now,
                        }),
                    )
                &&& same_tombs(
                    final(state).graveyard.tombs(),
                    old(state).graveyard.tombs().insert(
                        rec.entry.txid,
                        TxTombstone { tx: rec.tx, entry: rec.entry, chunk_rate: rate, removal: reason, removed_at: 0 },
                    ),
                )
            },
            forall|p: TxidPrefix| #[trigger]
                has_key(final(state).txs.entries(), p) ==> has_key(old(state).txs.entries(), p),
    {
        let record = match state.txs.remove_by_prefix(prefix) {
            Some(record) => record,
            None => {
                return None;
            },
        };
        let chunk_rate = match prev_snapshot.chunk_rate_for(prefix) {
            Some(rate) => rate,
            None => record.entry.fee_rate(),
        };
        let txid = record.entry.txid;
        let ghost rec = record;
        state.graveyard.bury(record.tx, record.entry, chunk_rate, reason);
        proof {
            let now = choose|now: u64|
                #[trigger] TxGraveyard::bury_effect(
                    old(state).graveyard,
                    state.graveyard,
                    (TxTombstone {
                        tx: rec.tx,
                        entry: rec.entry,
                        chunk_rate,
                        removal: reason,
                        removed_at: now,
                    }),
                );
            assert(state.graveyard.tombs().contains_key(txid));
            let es = old(state).txs.entries();
            let i = old(state).txs.index_of(*prefix);
            let j = key_index(es, *prefix);
            assert(es[j].0 == *prefix);
            assert(es[i].0 == *prefix);
            assert(i == j);
            assert(rec == es[i].1);
            let rate = burial_rate(*prev_snapshot, *prefix, es[i].1);
            assert(rate == chunk_rate);
            assert(TxGraveyard::bury_effect(
                old(state).graveyard,
                state.graveyard,
                (TxTombstone { tx: es[i].1.tx, entry: es[i].1.entry, chunk_rate: rate, removal: reason, removed_at: now }),
            ));
        }
        Some(TxRemoved { txid, reason, chunk_rate })
    }

    /// Publishes each addition in order: a fresh one with its body, a
    /// revived one with the body exhumed from the graveyard (dropped when
    /// the tombstone is gone). One event per published transaction.
    pub fn publish_additions(
        state: &mut State,
        events: &mut Vec<TxAdded>,
        added: Vec<TxAddition>,
    )
        requires
            old(state).wf(),
            additions_fit(added@, old(state).txs.entries()),
        ensures
            final(state).wf(),
            final(state).txs.entries() == old(state).txs.entries() + published(
                added@,
                old(state).graveyard.tombs(),
            ),
            final(events)@ == old(events)@ + added_events(added@, old(state).graveyard.tombs()),
            forall|k: Txid|
                #[trigger] final(state).graveyard.tombs().contains_key(k) <==> old(
                    state,
                ).graveyard.tombs().contains_key(k) && !revives(added@, k),
            forall|k: Txid|
                #[trigger] final(state).graveyard.tombs().contains_key(k) ==> final(state).graveyard.tombs()[k]
                    == old(state).graveyard.tombs()[k],
            final(state).graveyard.order_seq() == old(state).graveyard.order_seq(),
    {
        let ghost adds = added@;
        let ghost tombs0 = state.graveyard.tombs();
        let ghost entries0 = state.txs.entries();
        let ghost events0 = events@;
        for addition in it: added.into_iter()
            invariant
                adds == it.seq(),
                it.index() <= adds.len(),
                state.wf(),
                additions_fit(adds, entries0),
                state.txs.entries() == entries0 + published(adds.take(it.index() as int), tombs0),
                events@ == events0 + added_events(adds.take(it.index() as int), tombs0),
                forall|k: Txid|
                    #[trigger] state.graveyard.tombs().contains_key(k) <==> tombs0.contains_key(k)
                        && !revives(adds.take(it.index() as int), k),
                forall|k: Txid|
                    #[trigger] state.graveyard.tombs().contains_key(k) ==> state.graveyard.tombs()[k]
                        == tombs0[k],
                state.graveyard.order_seq() == old(state).graveyard.order_seq(),
        {
            let ghost i = it.index() as int;
            assert(adds[i] == addition);
            assert(adds.take(i + 1).drop_last() =~= adds.take(i));
            assert(adds.take(i + 1).last() == addition);
            let kind = addition.kind();
            proof {
                lemma_published_keys(adds, tombs0, i, entries0);
                assert(forall|k: Txid| #[trigger] revives(adds.take(i + 1), k) <==> revives(adds.take(i), k)
                    || (addition is Revived && addition.spec_entry().txid == k)) by {
                    assert forall|k: Txid| #[trigger] revives(adds.take(i + 1), k) <==> revives(adds.take(i), k)
                        || (addition is Revived && addition.spec_entry().txid == k) by {
                        if revives(adds.take(i + 1), k) {
                            let j = choose|j: int|
                                0 <= j < i + 1 && (#[trigger] adds.take(i + 1)[j]) is Revived
                                    && adds.take(i + 1)[j].spec_entry().txid == k;
                            if j < i {
                                assert(adds.take(i)[j] == adds.take(i + 1)[j]);
                            }
                        }
                        if revives(adds.take(i), k) {
                            let j = choose|j: int|
                                0 <= j < i && (#[trigger] adds.take(i)[j]) is Revived
                                    && adds.take(i)[j].spec_entry().txid == k;
                            assert(adds.take(i + 1)[j] == adds.take(i)[j]);
                        }
                        if addition is Revived && addition.spec_entry().txid == k {
                            assert(adds.take(i + 1)[i] == addition);
                        }
                    }
                }
            }
            let ghost tombs_now = state.graveyard.tombs();
            let ghost a = addition;
            let ghost entries_now = state.txs.entries();
            let ghost events_now = events@;
            proof {
                let t = a.spec_entry().txid;
                if revives(adds.take(i), t) {
                    let j = choose|j: int|
                        0 <= j < i && (#[trigger] adds.take(i)[j]) is Revived
                            && adds.take(i)[j].spec_entry().txid == t;
                    assert(adds.take(i)[j] == adds[j]);
                    assert(prefix_of(adds[j].spec_entry().txid) != prefix_of(adds[i].spec_entry().txid));
                }
                assert(resolved(a, tombs_now) == resolved(a, tombs0));
            }
            let resolved_pair = Self::resolve_addition(state, addition);
            match resolved_pair {
                Some((tx, entry)) => {
                    events.push(
                        TxAdded {
                            txid: entry.txid,
                            fee: entry.fee,
                            vsize: entry.vsize,
                            fee_rate: entry.fee_rate(),
                            first_seen: entry.first_seen,
                            kind,
                        },
                    );
                    Self::publish_one(state, tx, entry);
                },
                None => {},
            }
            proof {
                let pubs = published(adds.take(i + 1), tombs0);
                let evs = added_events(adds.take(i + 1), tombs0);
                match resolved(a, tombs0) {
                    Some(pair) => {
                        assert(pubs == published(adds.take(i), tombs0).push(
                            (prefix_of(pair.1.txid), TxRecord { tx: pair.0, entry: pair.1 }),
                        ));
                        assert(state.txs.entries() =~= entries0 + pubs);
                        assert(evs == added_events(adds.take(i), tombs0).push(
                            added_event(pair.1, a.spec_kind()),
                        ));
                        assert(events@ =~= events0 + evs);
                    },
                    None => {
                        assert(pubs == published(adds.take(i), tombs0));
                        assert(evs == added_events(adds.take(i), tombs0));
                    },
                }
            }
        }
        assert(adds.take(adds.len() as int) =~= adds);
    }

    /// The body and entry to publish for `addition`; a revived one
    /// exhumes its tombstone.
    fn resolve_addition(state: &mut State, addition: TxAddition) -> (r: Option<(Transaction, TxEntry)>)
        requires
            old(state).wf(),
        ensures
            final(state).wf(),
            final(state).txs == old(state).txs,
            r == resolved(addition, old(state).graveyard.tombs()),
            addition is Fresh ==> final(state).graveyard.tombs() == old(state).graveyard.tombs(),
            addition is Revived ==> final(state).graveyard.tombs() == old(
                state,
            ).graveyard.tombs().remove(addition.spec_entry().txid),
            final(state).graveyard.order_seq() == old(state).graveyard.order_seq(),
    {
        match addition {
            TxAddition::Fresh { tx, entry } => Some((tx, entry)),
            TxAddition::Revived { entry } => {
                let tomb = state.graveyard.exhume(&entry.txid);
                match tomb {
                    Some(t) => Some((t.tx, entry)),
                    None => None,
                }
            },
        }
    }

    /// Makes one transaction live.
    fn publish_one(state: &mut State, tx: Transaction, entry: TxEntry)
        requires
            old(state).wf(),
            !has_key(old(state).txs.entries(), prefix_of(entry.txid)),
        ensures
            final(state).wf(),
            final(state).graveyard == old(state).graveyard,
            final(state).txs.entries() == old(state).txs.entries().push(
                (prefix_of(entry.txid), (TxRecord { tx, entry })),
            ),
    {
        state.txs.insert(tx, entry);
    }
}

impl Snapshot {
    /// What `chunk_rate_for` gives.
    pub open spec fn chunk_rate_for_spec(&self, prefix: TxidPrefix) -> Option<FeeRate> {
        if self.index().contains_key(prefix) {
            Some(self.txs_seq()[self.index()[prefix] as int].chunk_rate)
        } else {
            None
        }
    }
}

/// Keys after a swap-removal were keys before.
proof fn lemma_swap_removed_keys(
    before: Seq<(TxidPrefix, TxRecord)>,
    after: Seq<(TxidPrefix, TxRecord)>,
    removed: TxidPrefix,
    p: TxidPrefix,
)
    requires
        after == before || (exists|i: int|
            0 <= i < before.len() && after == #[trigger] crate::indexed::swap_removed(before, i)),
        has_key(after, p),
    ensures
        has_key(before, p),
{
    let k = choose|k: int| 0 <= k < after.len() && (#[trigger] after[k]).0 == p;
    if after != before {
        let i = choose|i: int|
            0 <= i < before.len() && after == #[trigger] crate::indexed::swap_removed(before, i);
        if k == i {
            assert(before[before.len() - 1].0 == p);
        } else {
            assert(before[k].0 == p);
        }
    }
}

/// The next addition's prefix is not yet live after the earlier ones.
proof fn lemma_published_keys(
    adds: Seq<TxAddition>,
    tombs: Map<Txid, TxTombstone>,
    i: int,
    entries0: Seq<(TxidPrefix, TxRecord)>,
)
    requires
        0 <= i < adds.len(),
        additions_fit(adds, entries0),
    ensures
        !has_key(entries0 + published(adds.take(i), tombs), prefix_of(adds[i].spec_entry().txid)),
{
    lemma_published_from(adds, tombs, i);
    let p = prefix_of(adds[i].spec_entry().txid);
    let all = entries0 + published(adds.take(i), tombs);
    if has_key(all, p) {
        let k = choose|k: int| 0 <= k < all.len() && (#[trigger] all[k]).0 == p;
        if k < entries0.len() {
            assert(has_key(entries0, p));
        } else {
            let j = choose|j: int|
                0 <= j < i && published(adds.take(i), tombs)[k - entries0.len()].0 == prefix_of(
                    (#[trigger] adds[j]).spec_entry().txid,
                );
        }
    }
}

/// Every published record comes from one of the additions.
proof fn lemma_published_from(adds: Seq<TxAddition>, tombs: Map<Txid, TxTombstone>, n: int)
    requires
        0 <= n <= adds.len(),
    ensures
        forall|k: int|
            0 <= k < published(adds.take(n), tombs).len() ==> exists|j: int|
                0 <= j < n && (#[trigger] published(adds.take(n), tombs)[k]).0 == prefix_of(
                    (#[trigger] adds[j]).spec_entry().txid,
                ),
    decreases n,
{
    if n > 0 {
        lemma_published_from(adds, tombs, n - 1);
        assert(adds.take(n).drop_last() =~= adds.take(n - 1));
        let pub_prev = published(adds.take(n - 1), tombs);
        let pub_n = published(adds.take(n), tombs);
        assert forall|k: int| 0 <= k < pub_n.len() implies exists|j: int|
            0 <= j < n && (#[trigger] pub_n[k]).0 == prefix_of((#[trigger] adds[j]).spec_entry().txid) by {
            if k < pub_prev.len() {
                assert(pub_n[k] == pub_prev[k]);
                let j = choose|j: int|
                    0 <= j < n - 1 && (#[trigger] pub_prev[k]).0 == prefix_of(
                        (#[trigger] adds[j]).spec_entry().txid,
                    );
                assert(0 <= j < n);
            } else {
                assert(adds.take(n).last() == adds[n - 1]);
                assert(pub_n[k].0 == prefix_of(adds[n - 1].spec_entry().txid));
            }
        }
    } else {
        assert(adds.take(0) =~= Seq::<TxAddition>::empty());
    }
}

} // verus!
