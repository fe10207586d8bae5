use vstd::prelude::*;

use crate::fxmap::{
    outpoint_map_get, outpoint_map_insert, outpoint_map_new, txid_map_remove, OutpointMap, TxidMap,
};
use crate::graveyard::{TxGraveyard, TxTombstone};
use crate::indexed::{fx_set_contains, fx_set_insert, fx_set_len, fx_set_new, PrefixSet, TxRecord};
use crate::state::{State, TxAddition};
use crate::tx::{MempoolEntryInfo, Transaction, TxEntry, TxIn, TxRemoval};
use crate::txstore::TxStore;
use crate::types::{prefix_of, Txid, TxidPrefix};

verus! {

/// The classified diff of one pull.
pub struct TxsPulled {
    pub live_len: usize,
    pub added: Vec<TxAddition>,
    pub removed: Vec<(TxidPrefix, TxRemoval)>,
}

/// Outpoints spent by the inputs `inputs[..n]`, mapped to `spender`, on
/// top of `m`.
pub open spec fn insert_spends(
    m: Map<(Txid, u32), Txid>,
    inputs: Seq<TxIn>,
    spender: Txid,
    n: int,
) -> Map<(Txid, u32), Txid>
    decreases n,
{
    if n <= 0 {
        m
    } else {
        insert_spends(m, inputs, spender, n - 1).insert((inputs[n - 1].txid, inputs[n - 1].vout), spender)
    }
}

/// Spent outpoint to spender, over the fresh additions in order (a later
/// spender of the same outpoint wins).
pub open spec fn spent_by_map(adds: Seq<TxAddition>) -> Map<(Txid, u32), Txid>
    decreases adds.len(),
{
    if adds.len() == 0 {
        Map::empty()
    } else {
        let m = spent_by_map(adds.drop_last());
        match adds.last() {
            TxAddition::Fresh { tx, .. } => insert_spends(m, tx.input@, tx.txid, tx.input@.len() as int),
            TxAddition::Revived { .. } => m,
        }
    }
}

/// The spender of the first input of `inputs` whose outpoint is in `m`.
pub open spec fn first_spender(inputs: Seq<TxIn>, m: Map<(Txid, u32), Txid>) -> Option<Txid>
    decreases inputs.len(),
{
    if inputs.len() == 0 {
        None
    } else if m.contains_key((inputs[0].txid, inputs[0].vout)) {
        Some(m[(inputs[0].txid, inputs[0].vout)])
    } else {
        first_spender(inputs.drop_first(), m)
    }
}

/// `Replaced` by the first new spender of one of `tx`'s outpoints, else
/// `Vanished`.
pub open spec fn removal_of(tx: Transaction, m: Map<(Txid, u32), Txid>) -> TxRemoval {
    match first_spender(tx.input@, m) {
        Some(by) => TxRemoval::Replaced { by },
        None => TxRemoval::Vanished,
    }
}

/// One `(prefix, reason)` per stored record whose prefix is not live, in
/// storage order.
pub open spec fn removals(
    entries: Seq<(TxidPrefix, TxRecord)>,
    live: Set<TxidPrefix>,
    m: Map<(Txid, u32), Txid>,
) -> Seq<(TxidPrefix, TxRemoval)>
    decreases entries.len(),
{
    if entries.len() == 0 {
        Seq::empty()
    } else {
        let rest = removals(entries.drop_last(), live, m);
        let e = entries.last();
        if live.contains(e.0) {
            rest
        } else {
            rest.push((e.0, removal_of(e.1.tx, m)))
        }
    }
}

/// BIP125 replaceability: some input's sequence is below `0xffff_fffe`.
pub open spec fn signals_rbf(inputs: Seq<TxIn>) -> bool {
    exists|i: int| 0 <= i < inputs.len() && (#[trigger] inputs[i]).sequence < 0xffff_fffe
}

/// `after` is `before` with each missing prevout taken from a live parent
/// in `known` when that parent has the spent output.
pub open spec fn resolved_from(before: Transaction, after: Transaction, known: TxStore) -> bool {
    &&& after.txid == before.txid
    &&& after.version == before.version
    &&& after.lock_time == before.lock_time
    &&& after.output == before.output
    &&& after.total_size == before.total_size
    &&& after.weight == before.weight
    &&& after.total_sigop_cost == before.total_sigop_cost
    &&& after.fee == before.fee
    &&& after.input@.len() == before.input@.len()
    &&& forall|i: int|
        0 <= i < before.input@.len() ==> input_resolved(before.input@[i], #[trigger] after.input@[i], known)
}

pub open spec fn input_resolved(before: TxIn, after: TxIn, known: TxStore) -> bool {
    &&& after.txid == before.txid
    &&& after.vout == before.vout
    &&& after.is_coinbase == before.is_coinbase
    &&& after.sequence == before.sequence
    &&& before.prevout is Some ==> after.prevout == before.prevout
    &&& before.prevout is None ==> match known.record_for(before.txid) {
        Some(rec) => if (before.vout as int) < rec.tx.output@.len() {
            after.prevout is Some && after.prevout.unwrap()@ == rec.tx.output@[before.vout as int]@
        } else {
            after.prevout is None
        },
        None => after.prevout is None,
    }
}

/// `t` is the txid of one of `entries`.
pub open spec fn lists_txid(entries: Seq<MempoolEntryInfo>, t: Txid) -> bool {
    exists|j: int| 0 <= j < entries.len() && (#[trigger] entries[j]).txid == t
}

/// Whether `info`, coming after `prev`, yields an addition: it is not
/// live, and it is either buried (a revival) or its body was fetched and
/// not already taken by an earlier entry with the same txid.
pub open spec fn yields_addition(
    prev: Seq<MempoolEntryInfo>,
    info: MempoolEntryInfo,
    raw: Map<Txid, Transaction>,
    known: TxStore,
    tombs: Map<Txid, TxTombstone>,
) -> bool {
    known.record_for(info.txid) is None && (tombs.contains_key(info.txid) || (raw.contains_key(
        info.txid,
    ) && !lists_txid(prev, info.txid)))
}

/// The addition `a` is the one `info` yields: a revival carrying the
/// tombstone's vsize and replaceability, or a fresh addition whose body
/// is the fetched one with prevouts resolved against the live pool.
pub open spec fn addition_for(
    a: TxAddition,
    info: MempoolEntryInfo,
    raw: Map<Txid, Transaction>,
    known: TxStore,
    tombs: Map<Txid, TxTombstone>,
) -> bool {
    if tombs.contains_key(info.txid) {
        let tomb = tombs[info.txid];
        a matches TxAddition::Revived { entry } && entry.txid == info.txid && entry.fee == info.fee
            && entry.first_seen == info.first_seen && entry.vsize == tomb.entry.vsize && entry.rbf
            == tomb.entry.rbf && entry.weight == info.weight && entry.depends@ == info.depends@
    } else {
        a matches TxAddition::Fresh { tx, entry } && resolved_from(raw[info.txid], tx, known)
            && entry.txid == info.txid && entry.fee == info.fee && entry.vsize == info.vsize
            && entry.first_seen == info.first_seen && entry.weight == info.weight && entry.depends@
            == info.depends@ && entry.rbf == signals_rbf(raw[info.txid].input@)
    }
}

/// `out` is what the entries yield, in entry order.
pub open spec fn additions_of(
    entries: Seq<MempoolEntryInfo>,
    raw: Map<Txid, Transaction>,
    known: TxStore,
    tombs: Map<Txid, TxTombstone>,
    out: Seq<TxAddition>,
) -> bool
    decreases entries.len(),
{
    if entries.len() == 0 {
        out.len() == 0
    } else {
        let prev = entries.drop_last();
        let info = entries.last();
        if yields_addition(prev, info, raw, known, tombs) {
            &&& out.len() > 0
            &&& additions_of(prev, raw, known, tombs, out.drop_last())
            &&& addition_for(out.last(), info, raw, known, tombs)
        } else {
            additions_of(prev, raw, known, tombs, out)
        }
    }
}

/// Decodes and classifies one pull against the live state.
pub struct Preparer;

impl Preparer {
    /// Classifies a pull: which new entries become live (fresh or
    /// revived) and which stored transactions left, and why.
    pub fn prepare(
        live_txids: &[Txid],
        new_entries: Vec<MempoolEntryInfo>,
        new_txs: TxidMap<Transaction>,
        state: &State,
    ) -> (r: TxsPulled)
        requires
            state.wf(),
        ensures
            r.removed@ == removals(
                state.txs.entries(),
                Set::new(|p: TxidPrefix| exists|i: int| 0 <= i < live_txids@.len() && prefix_of(live_txids@[i]) == p),
                spent_by_map(r.added@),
            ),
            r.added@.len() <= new_entries@.len(),
            r.live_len == Set::new(
                |p: TxidPrefix| exists|i: int| 0 <= i < live_txids@.len() && prefix_of(live_txids@[i]) == p,
            ).len(),
            additions_of(new_entries@, new_txs@, state.txs, state.graveyard.tombs(), r.added@),
    {
        let mut live: PrefixSet = fx_set_new();
        let mut i: usize = 0;
        while i < live_txids.len()
            invariant
                i <= live_txids@.len(),
                forall|p: TxidPrefix| #[trigger] live@.contains(p) <==> exists|j: int|
                    0 <= j < i && prefix_of(live_txids@[j]) == p,
            decreases live_txids.len() - i,
        {
            let p = live_txids[i].prefix();
            fx_set_insert(&mut live, p);
            proof {
                assert forall|q: TxidPrefix| #[trigger] live@.contains(q) <==> exists|j: int|
                    0 <= j < i + 1 && prefix_of(live_txids@[j]) == q by {
                    if q == p {
                        assert(prefix_of(live_txids@[i as int]) == q);
                    }
                    if exists|j: int| 0 <= j < i + 1 && prefix_of(live_txids@[j]) == q {
                        let j = choose|j: int| 0 <= j < i + 1 && prefix_of(live_txids@[j]) == q;
                        if j < i {
                            assert(exists|j2: int| 0 <= j2 < i && prefix_of(live_txids@[j2]) == q);
                        }
                    }
                }
            }
            i += 1;
        }
        let added = Self::classify_additions(new_entries, new_txs, &state.txs, &state.graveyard);
        let removed = Self::classify_removals(&live, &added, &state.txs);
        assert(live@ =~= Set::new(
            |p: TxidPrefix| exists|i: int| 0 <= i < live_txids@.len() && prefix_of(live_txids@[i]) == p,
        ));
        TxsPulled { live_len: fx_set_len(&live), added, removed }
    }

    fn classify_additions(
        new_entries: Vec<MempoolEntryInfo>,
        new_txs: TxidMap<Transaction>,
        known: &TxStore,
        graveyard: &TxGraveyard,
    ) -> (r: Vec<TxAddition>)
        requires
            known.wf(),
        ensures
            r@.len() <= new_entries@.len(),
            additions_of(new_entries@, new_txs@, *known, graveyard.tombs(), r@),
    {
        let ghost raw = new_txs@;
        let ghost tombs = graveyard.tombs();
        let mut new_txs = new_txs;
        let mut out: Vec<TxAddition> = Vec::new();
        let mut k: usize = 0;
        while k < new_entries.len()
            invariant
                known.wf(),
                tombs == graveyard.tombs(),
                k <= new_entries@.len(),
                out@.len() <= k,
                additions_of(new_entries@.take(k as int), raw, *known, tombs, out@),
                forall|t: Txid| #[trigger] new_txs@.contains_key(t) <==> (raw.contains_key(t) && !(lists_txid(
                    new_entries@.take(k as int),
                    t,
                ) && known.record_for(t) is None && !tombs.contains_key(t))),
                forall|t: Txid| #[trigger] new_txs@.contains_key(t) ==> new_txs@[t] == raw[t],
            decreases new_entries.len() - k,
        {
            let ghost prev = new_entries@.take(k as int);
            let ghost info = new_entries@[k as int];
            let ghost before = new_txs@;
            let ghost out0 = out@;
            proof {
                assert(new_entries@.take(k + 1).drop_last() =~= prev);
                assert(new_entries@.take(k + 1).last() == info);
            }
            match Self::classify_addition(&new_entries[k], known, graveyard, &mut new_txs) {
                Some(a) => {
                    out.push(a);
                    proof {
                        assert(out@.drop_last() =~= out0);
                    }
                },
                None => {},
            }
            proof {
                let cur = new_entries@.take(k + 1);
                assert forall|t: Txid| #[trigger] lists_txid(cur, t) <==> (lists_txid(prev, t) || info.txid == t) by {
                    if lists_txid(cur, t) {
                        let j = choose|j: int| 0 <= j < cur.len() && (#[trigger] cur[j]).txid == t;
                        if j < k {
                            assert(prev[j] == cur[j]);
                        }
                    }
                    if lists_txid(prev, t) {
                        let j = choose|j: int| 0 <= j < prev.len() && (#[trigger] prev[j]).txid == t;
                        assert(cur[j] == prev[j]);
                    }
                    if info.txid == t {
                        assert(cur[k as int].txid == t);
                    }
                }
                if known.record_for(info.txid) is None && !tombs.contains_key(info.txid) {
                    assert(before.contains_key(info.txid) <==> (raw.contains_key(info.txid) && !lists_txid(prev, info.txid)));
                }
            }
            k += 1;
        }
        assert(new_entries@.take(new_entries@.len() as int) =~= new_entries@);
        out
    }

    /// One new entry: already live gives nothing; buried gives a revival;
    /// otherwise its fetched body (taken out of `new_txs`) gives a fresh
    /// addition with prevouts resolved against the live pool; no body
    /// gives nothing.
    pub fn classify_addition(
        info: &MempoolEntryInfo,
        known: &TxStore,
        graveyard: &TxGraveyard,
        new_txs: &mut TxidMap<Transaction>,
    ) -> (r: Option<TxAddition>)
        requires
            known.wf(),
        ensures
            known.record_for(info.txid) is Some ==> r is None && final(new_txs)@ == old(new_txs)@,
            known.record_for(info.txid) is None && graveyard.tombs().contains_key(info.txid) ==> {
                let tomb = graveyard.tombs()[info.txid];
                &&& r matches Some(TxAddition::Revived { entry }) && entry.txid == info.txid
                    && entry.fee == info.fee && entry.first_seen == info.first_seen
                    && entry.vsize == tomb.entry.vsize && entry.rbf == tomb.entry.rbf
                    && entry.weight == info.weight && entry.depends@ == info.depends@
                &&& final(new_txs)@ == old(new_txs)@
            },
            known.record_for(info.txid) is None && !graveyard.tombs().contains_key(info.txid) ==> {
                &&& final(new_txs)@ == old(new_txs)@.remove(info.txid)
                &&& old(new_txs)@.contains_key(info.txid) ==> (r matches Some(
                    TxAddition::Fresh { tx, entry },
                ) && resolved_from(old(new_txs)@[info.txid], tx, *known) && entry.txid == info.txid
                    && entry.fee == info.fee && entry.vsize == info.vsize && entry.first_seen
                    == info.first_seen && entry.weight == info.weight && entry.depends@
                    == info.depends@ && entry.rbf == signals_rbf(old(new_txs)@[info.txid].input@))
                &&& !old(new_txs)@.contains_key(info.txid) ==> r is None
            },
    {
        if known.contains(&info.txid) {
            return None;
        }
        match graveyard.get(&info.txid) {
            Some(tomb) => {
                let entry = TxEntry::new(info, tomb.entry.vsize, tomb.entry.rbf);
                return Some(TxAddition::Revived { entry });
            },
            None => {},
        }
        let tx = match txid_map_remove(new_txs, &info.txid) {
            Some(tx) => tx,
            None => {
                return None;
            },
        };
        let rbf = signals_rbf_exec(&tx);
        let tx = resolve_prevouts(tx, known);
        let entry = TxEntry::new(info, info.vsize, rbf);
        Some(TxAddition::Fresh { tx, entry })
    }

    /// One `(prefix, reason)` per stored tx whose prefix is not in `live`,
    /// in storage order.
    pub fn classify_removals(live: &PrefixSet, added: &Vec<TxAddition>, known: &TxStore) -> (r: Vec<
        (TxidPrefix, TxRemoval),
    >)
        ensures
            r@ == removals(known.entries(), live@, spent_by_map(added@)),
    {
        let spent_by = Self::build_spent_by(added);
        let n = known.len();
        let mut out: Vec<(TxidPrefix, TxRemoval)> = Vec::new();
        let mut i: usize = 0;
        while i < n
            invariant
                n == known.entries().len(),
                i <= n,
                spent_by@ == spent_by_map(added@),
                out@ == removals(known.entries().take(i as int), live@, spent_by@),
            decreases n - i,
        {
            assert(known.entries().take(i + 1).drop_last() =~= known.entries().take(i as int));
            match known.record_at(i) {
                Some((prefix, record)) => {
                    if !fx_set_contains(live, prefix) {
                        let reason = Self::removal_reason(&record.tx, &spent_by);
                        out.push((*prefix, reason));
                    }
                },
                None => {},
            }
            i += 1;
        }
        assert(known.entries().take(n as int) =~= known.entries());
        out
    }

    /// `Replaced` by the new spender of the first of `tx`'s outpoints that
    /// a new transaction spends, else `Vanished`.
    pub fn removal_reason(tx: &Transaction, spent_by: &OutpointMap<Txid>) -> (r: TxRemoval)
        ensures
            r == removal_of(*tx, spent_by@),
    {
        let mut k: usize = 0;
        assert(tx.input@.skip(0) =~= tx.input@);
        while k < tx.input.len()
            invariant
                k <= tx.input@.len(),
                first_spender(tx.input@, spent_by@) == first_spender(tx.input@.skip(k as int), spent_by@),
            decreases tx.input.len() - k,
        {
            let input = &tx.input[k];
            let ghost rest = tx.input@.skip(k as int);
            assert(rest[0] == tx.input@[k as int]);
            assert(rest.drop_first() =~= tx.input@.skip(k + 1));
            match outpoint_map_get(spent_by, &(input.txid, input.vout)) {
                Some(by) => {
                    return TxRemoval::Replaced { by: *by };
                },
                None => {},
            }
            k += 1;
        }
        TxRemoval::Vanished
    }

    /// Outpoint to spender over the fresh additions; revived ones were
    /// already in the pool and spend nothing new.
    pub fn build_spent_by(added: &Vec<TxAddition>) -> (r: OutpointMap<Txid>)
        ensures
            r@ == spent_by_map(added@),
    {
        let mut spent_by = outpoint_map_new();
        assert(spent_by@ =~= Map::<(Txid, u32), Txid>::empty());
        let mut k: usize = 0;
        while k < added.len()
            invariant
                k <= added@.len(),
                spent_by@ == spent_by_map(added@.take(k as int)),
            decreases added.len() - k,
        {
            assert(added@.take(k + 1).drop_last() =~= added@.take(k as int));
            match &added[k] {
                TxAddition::Fresh { tx, .. } => {
                    let ghost base = spent_by@;
                    let mut j: usize = 0;
                    while j < tx.input.len()
                        invariant
                            j <= tx.input@.len(),
                            spent_by@ == insert_spends(base, tx.input@, tx.txid, j as int),
                        decreases tx.input.len() - j,
                    {
                        outpoint_map_insert(&mut spent_by, (tx.input[j].txid, tx.input[j].vout), tx.txid);
                        j += 1;
                    }
                },
                TxAddition::Revived { .. } => {},
            }
            k += 1;
        }
        assert(added@.take(added@.len() as int) =~= added@);
        spent_by
    }
}

fn signals_rbf_exec(tx: &Transaction) -> (r: bool)
    ensures
        r == signals_rbf(tx.input@),
{
    let mut k: usize = 0;
    while k < tx.input.len()
        invariant
            k <= tx.input@.len(),
            forall|j: int| 0 <= j < k ==> (#[trigger] tx.input@[j]).sequence >= 0xffff_fffe,
        decreases tx.input.len() - k,
    {
        if tx.input[k].sequence < 0xffff_fffe {
            return true;
        }
        k += 1;
    }
    false
}

/// Fills missing prevouts of `tx` from live parents in `known`.
fn resolve_prevouts(tx: Transaction, known: &TxStore) -> (r: Transaction)
    requires
        known.wf(),
    ensures
        resolved_from(tx, r, *known),
{
    let ghost before = tx;
    let mut tx = tx;
    let mut k: usize = 0;
    while k < tx.input.len()
        invariant
            known.wf(),
            k <= tx.input@.len(),
            tx.txid == before.txid,
            tx.version == before.version,
            tx.lock_time == before.lock_time,
            tx.output == before.output,
            tx.total_size == before.total_size,
            tx.weight == before.weight,
            tx.total_sigop_cost == before.total_sigop_cost,
            tx.fee == before.fee,
            tx.input@.len() == before.input@.len(),
            forall|i: int| 0 <= i < k ==> input_resolved(before.input@[i], #[trigger] tx.input@[i], *known),
            forall|i: int| k <= i < tx.input@.len() ==> #[trigger] tx.input@[i] == before.input@[i],
        decreases tx.input.len() - k,
    {
        if tx.input[k].prevout.is_none() {
            let parent_txid = tx.input[k].txid;
            let vout = tx.input[k].vout;
            let found = match known.get(&parent_txid) {
                Some(parent) => {
                    if (vout as usize) < parent.output.len() {
                        Some(parent.output[vout as usize].clone())
                    } else {
                        None
                    }
                },
                None => None,
            };
            match found {
                Some(out) => {
                    let cur = &tx.input[k];
                    let replaced = TxIn {
                        txid: cur.txid,
                        vout: cur.vout,
                        prevout: Some(out),
                        is_coinbase: cur.is_coinbase,
                        sequence: cur.sequence,
                    };
                    tx.input.set(k, replaced);
                },
                None => {},
            }
        }
        k += 1;
    }
    tx
}

} // verus!
