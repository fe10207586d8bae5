use vstd::prelude::*;

use crate::fxmap::{
    outpoint_map_insert, outpoint_map_is_empty, outpoint_map_new, outpoint_map_remove, txid_map_get,
    txid_map_insert, txid_map_new, OutpointMap, TxidMap,
};
use crate::indexed::{has_key, PrefixSet, TxRecord};
use crate::state::State;
use crate::tx::{has_unresolved, Transaction, TxIn, TxOut};
use crate::txstore::TxStore;
use crate::types::{prefix_of, Txid, TxidPrefix};

verus! {

/// Outputs fetched for spent outpoints `(txid, vout)`.
pub type ResolvedOutputs = OutpointMap<TxOut>;

/// `HashSet::iter` collected: the members in the set's own walking order,
/// which depends on the hasher; each member once.
#[verifier::external_body]
fn prefix_set_members(s: &PrefixSet) -> (r: Vec<TxidPrefix>)
    ensures
        r@.no_duplicates(),
        forall|p: TxidPrefix| #[trigger] r@.contains(p) <==> s@.contains(p),
{
    s.iter().copied().collect()
}

/// The live output `(txid, vout)` points at, if the parent is live.
pub open spec fn live_output(txs: TxStore, txid: Txid, vout: u32) -> Option<TxOut> {
    match txs.record_for(txid) {
        Some(rec) => if (vout as int) < rec.tx.output@.len() {
            Some(rec.tx.output@[vout as int])
        } else {
            None
        },
        None => None,
    }
}

/// `fills` and `holes` split the missing prevouts of `tx`, in input
/// order: a fill where the parent is live, a hole otherwise.
pub open spec fn split_matches(
    tx: Transaction,
    txs: TxStore,
    fills: Seq<(usize, TxOut)>,
    holes: Seq<(usize, Txid, u32)>,
) -> bool {
    &&& split_sound(tx, txs, fills, holes)
    &&& forall|i: int|
        0 <= i < tx.input@.len() && (#[trigger] tx.input@[i]).prevout is None ==> (exists|k: int|
            0 <= k < fills.len() && fills[k].0 == i) || (exists|k: int|
            0 <= k < holes.len() && holes[k].0 == i)
}

/// Every fill and hole is a missing prevout of `tx`, classified right.
pub open spec fn split_sound(
    tx: Transaction,
    txs: TxStore,
    fills: Seq<(usize, TxOut)>,
    holes: Seq<(usize, Txid, u32)>,
) -> bool {
    &&& forall|k: int|
        0 <= k < fills.len() ==> {
            let vin = (#[trigger] fills[k]).0;
            &&& vin < tx.input@.len()
            &&& tx.input@[vin as int].prevout is None
            &&& live_output(txs, tx.input@[vin as int].txid, tx.input@[vin as int].vout) is Some
            &&& fills[k].1@ == live_output(
                txs,
                tx.input@[vin as int].txid,
                tx.input@[vin as int].vout,
            ).unwrap()@
        }
    &&& forall|k: int|
        0 <= k < holes.len() ==> {
            let vin = (#[trigger] holes[k]).0;
            &&& vin < tx.input@.len()
            &&& tx.input@[vin as int].prevout is None
            &&& live_output(txs, tx.input@[vin as int].txid, tx.input@[vin as int].vout) is None
            &&& holes[k].1 == tx.input@[vin as int].txid
            &&& holes[k].2 == tx.input@[vin as int].vout
        }
}

/// `tx` has a missing prevout that a live parent can fill.
pub open spec fn has_live_fill(tx: Transaction, txs: TxStore) -> bool {
    exists|i: int|
        0 <= i < tx.input@.len() && (#[trigger] tx.input@[i]).prevout is None && live_output(
            txs,
            tx.input@[i].txid,
            tx.input@[i].vout,
        ) is Some
}

/// `tx` has a missing prevout that no live parent can fill.
pub open spec fn has_hole(tx: Transaction, txs: TxStore) -> bool {
    exists|i: int|
        0 <= i < tx.input@.len() && (#[trigger] tx.input@[i]).prevout is None && live_output(
            txs,
            tx.input@[i].txid,
            tx.input@[i].vout,
        ) is None
}

/// The record stored under `p`.
pub open spec fn record_under(txs: TxStore, p: TxidPrefix) -> TxRecord {
    txs.entries()[txs.index_of(p)].1
}

/// A split has fills exactly when a live parent can fill a missing
/// prevout, and holes exactly when one cannot.
pub proof fn lemma_split_nonempty(
    tx: Transaction,
    txs: TxStore,
    fills: Seq<(usize, TxOut)>,
    holes: Seq<(usize, Txid, u32)>,
)
    requires
        split_matches(tx, txs, fills, holes),
    ensures
        fills.len() > 0 <==> has_live_fill(tx, txs),
        holes.len() > 0 <==> has_hole(tx, txs),
{
    if fills.len() > 0 {
        let vin = fills[0].0 as int;
        assert(tx.input@[vin].prevout is None);
    }
    if holes.len() > 0 {
        let vin = holes[0].0 as int;
        assert(tx.input@[vin].prevout is None);
    }
    if has_live_fill(tx, txs) {
        let i = choose|i: int|
            0 <= i < tx.input@.len() && (#[trigger] tx.input@[i]).prevout is None && live_output(
                txs,
                tx.input@[i].txid,
                tx.input@[i].vout,
            ) is Some;
        if !(exists|k: int| 0 <= k < fills.len() && fills[k].0 == i) {
            let k = choose|k: int| 0 <= k < holes.len() && holes[k].0 == i;
            assert(holes[k].0 == i);
        }
    }
    if has_hole(tx, txs) {
        let i = choose|i: int|
            0 <= i < tx.input@.len() && (#[trigger] tx.input@[i]).prevout is None && live_output(
                txs,
                tx.input@[i].txid,
                tx.input@[i].vout,
            ) is None;
        if !(exists|k: int| 0 <= k < holes.len() && holes[k].0 == i) {
            let k = choose|k: int| 0 <= k < fills.len() && fills[k].0 == i;
            assert(fills[k].0 == i);
        }
    }
}

/// Outpoints of `holes`, flattened in order.
pub open spec fn flat_holes(holes: Seq<(Txid, Vec<(usize, Txid, u32)>)>) -> Seq<(Txid, u32)>
    decreases holes.len(),
{
    if holes.len() == 0 {
        Seq::empty()
    } else {
        flat_holes(holes.drop_last()) + holes.last().1@.map_values(|h: (usize, Txid, u32)| (h.1, h.2))
    }
}

/// Fills missing prevouts: from live parents directly, from outside
/// (a node or indexer) for the rest.
pub struct Prevouts;

/// The distinct txids of `s`, in order of first occurrence.
pub open spec fn first_occurrences(s: Seq<Txid>) -> Seq<Txid>
    decreases s.len(),
{
    if s.len() == 0 {
        Seq::empty()
    } else {
        let r = first_occurrences(s.drop_last());
        if s.drop_last().contains(s.last()) {
            r
        } else {
            r.push(s.last())
        }
    }
}

/// The outputs found for the looked-up outpoints: each `(txid, vout)`
/// whose parent came back with an output at `vout`.
pub open spec fn found_outputs(
    holes: Seq<(Txid, u32)>,
    parents: Map<Txid, Transaction>,
) -> Map<(Txid, u32), (Seq<u8>, u64)>
    decreases holes.len(),
{
    if holes.len() == 0 {
        Map::empty()
    } else {
        let m = found_outputs(holes.drop_last(), parents);
        let (t, v) = holes.last();
        if parents.contains_key(t) && (v as int) < parents[t].output@.len() {
            m.insert((t, v), parents[t].output@[v as int]@)
        } else {
            m
        }
    }
}

/// `m` holds, by view, exactly the outputs of `found`.
pub open spec fn outputs_match(m: Map<(Txid, u32), TxOut>, found: Map<(Txid, u32), (Seq<u8>, u64)>) -> bool {
    &&& m.dom() == found.dom()
    &&& forall|k: (Txid, u32)| #[trigger] m.contains_key(k) ==> m[k]@ == found[k]
}

/// Some entry of `list` is for a tx with prefix `p`.
pub open spec fn lists_prefix<T>(list: Seq<(Txid, T)>, p: TxidPrefix) -> bool {
    exists|k: int| 0 <= k < list.len() && prefix_of((#[trigger] list[k]).0) == p
}

/// Handing out fetched outputs to one tx's holes, in order: a hole whose
/// outpoint is still in `m` gets that output, which then leaves `m`.
pub open spec fn take_fills(hs: Seq<(usize, Txid, u32)>, m: Map<(Txid, u32), TxOut>) -> (
    Seq<(usize, TxOut)>,
    Map<(Txid, u32), TxOut>,
)
    decreases hs.len(),
{
    if hs.len() == 0 {
        (Seq::empty(), m)
    } else {
        let (f, m1) = take_fills(hs.drop_last(), m);
        let h = hs.last();
        if m1.contains_key((h.1, h.2)) {
            (f.push((h.0, m1[(h.1, h.2)])), m1.remove((h.1, h.2)))
        } else {
            (f, m1)
        }
    }
}

/// Handing out fetched outputs to every tx's holes, in order; txs that
/// get nothing are left out.
pub open spec fn take_all(holes: Seq<(Txid, Vec<(usize, Txid, u32)>)>, m: Map<(Txid, u32), TxOut>) -> (
    Seq<(Txid, Seq<(usize, TxOut)>)>,
    Map<(Txid, u32), TxOut>,
)
    decreases holes.len(),
{
    if holes.len() == 0 {
        (Seq::empty(), m)
    } else {
        let (out, m1) = take_all(holes.drop_last(), m);
        let (f, m2) = take_fills(holes.last().1@, m1);
        (if f.len() > 0 {
            out.push((holes.last().0, f))
        } else {
            out
        }, m2)
    }
}

proof fn lemma_take_fills_empty(hs: Seq<(usize, Txid, u32)>, m: Map<(Txid, u32), TxOut>)
    requires
        m.dom() == Set::<(Txid, u32)>::empty(),
    ensures
        take_fills(hs, m).0.len() == 0,
        take_fills(hs, m).1 == m,
    decreases hs.len(),
{
    if hs.len() > 0 {
        lemma_take_fills_empty(hs.drop_last(), m);
        let h = hs.last();
        assert(!m.dom().contains((h.1, h.2)));
    }
}

proof fn lemma_take_all_empty(holes: Seq<(Txid, Vec<(usize, Txid, u32)>)>, m: Map<(Txid, u32), TxOut>)
    requires
        m.dom() == Set::<(Txid, u32)>::empty(),
    ensures
        take_all(holes, m).0.len() == 0,
        take_all(holes, m).1 == m,
    decreases holes.len(),
{
    if holes.len() > 0 {
        lemma_take_all_empty(holes.drop_last(), m);
        lemma_take_fills_empty(holes.last().1@, m);
    }
}

impl Prevouts {
    /// The parent txids to fetch for `holes`, each once, in order of
    /// first occurrence.
    pub fn unique_parents(holes: &[(Txid, u32)]) -> (r: Vec<Txid>)
        ensures
            r@ == first_occurrences(holes@.map_values(|h: (Txid, u32)| h.0)),
    {
        let ghost all = holes@.map_values(|h: (Txid, u32)| h.0);
        let mut seen: TxidMap<()> = txid_map_new();
        let mut out: Vec<Txid> = Vec::new();
        let mut i: usize = 0;
        while i < holes.len()
            invariant
                i <= holes@.len(),
                all == holes@.map_values(|h: (Txid, u32)| h.0),
                out@ == first_occurrences(all.take(i as int)),
                forall|t: Txid| #[trigger] seen@.contains_key(t) <==> all.take(i as int).contains(t),
            decreases holes.len() - i,
        {
            let t = holes[i].0;
            let ghost pre = all.take(i as int);
            proof {
                assert(all.take(i + 1).drop_last() =~= pre);
                assert(all.take(i + 1).last() == t);
            }
            if txid_map_get(&seen, &t).is_none() {
                txid_map_insert(&mut seen, t, ());
                out.push(t);
            }
            proof {
                assert forall|u: Txid| #[trigger] seen@.contains_key(u) <==> all.take(i + 1).contains(u) by {
                    if u == t {
                        assert(all.take(i + 1)[i as int] == u);
                    } else {
                        if pre.contains(u) {
                            let k = choose|k: int| 0 <= k < pre.len() && pre[k] == u;
                            assert(all.take(i + 1)[k] == u);
                        }
                        if all.take(i + 1).contains(u) {
                            let cur = all.take(i + 1);
                            let k = choose|k: int| 0 <= k < cur.len() && #[trigger] cur[k] == u;
                            assert(pre[k] == u);
                        }
                    }
                }
            }
            i += 1;
        }
        assert(all.take(holes@.len() as int) =~= all);
        out
    }

    /// The fetched outputs for `holes`, keyed by outpoint: a hole whose
    /// parent was not returned, or has no such output, is left out.
    pub fn outputs_for_holes(holes: &[(Txid, u32)], parents: &TxidMap<Transaction>) -> (r: ResolvedOutputs)
        ensures
            outputs_match(r@, found_outputs(holes@, parents@)),
    {
        let mut out = outpoint_map_new();
        let mut i: usize = 0;
        proof {
            assert(out@.dom() =~= found_outputs(holes@.take(0), parents@).dom());
        }
        while i < holes.len()
            invariant
                i <= holes@.len(),
                outputs_match(out@, found_outputs(holes@.take(i as int), parents@)),
            decreases holes.len() - i,
        {
            let (t, v) = holes[i];
            proof {
                assert(holes@.take(i + 1).drop_last() =~= holes@.take(i as int));
                assert(holes@.take(i + 1).last() == (t, v));
            }
            match txid_map_get(parents, &t) {
                Some(parent) => {
                    if (v as usize) < parent.output.len() {
                        let o = parent.output[v as usize].clone();
                        outpoint_map_insert(&mut out, (t, v), o);
                    }
                },
                None => {},
            }
            proof {
                assert(out@.dom() =~= found_outputs(holes@.take(i + 1), parents@).dom());
            }
            i += 1;
        }
        assert(holes@.take(holes@.len() as int) =~= holes@);
        out
    }

    /// Missing prevouts of one live tx, split into those a live parent
    /// can fill and those that need an outside lookup.
    pub fn split_inputs(tx: &Transaction, txs: &TxStore) -> (r: (Vec<(usize, TxOut)>, Vec<(usize, Txid, u32)>))
        requires
            txs.wf(),
        ensures
            split_matches(*tx, *txs, r.0@, r.1@),
    {
        let mut fills: Vec<(usize, TxOut)> = Vec::new();
        let mut holes: Vec<(usize, Txid, u32)> = Vec::new();
        let mut i: usize = 0;
        while i < tx.input.len()
            invariant
                txs.wf(),
                i <= tx.input@.len(),
                split_sound(*tx, *txs, fills@, holes@),
                forall|k: int| 0 <= k < fills@.len() ==> (#[trigger] fills@[k]).0 < i,
                forall|k: int| 0 <= k < holes@.len() ==> (#[trigger] holes@[k]).0 < i,
                forall|j: int|
                    0 <= j < i && (#[trigger] tx.input@[j]).prevout is None ==> (exists|k: int|
                        0 <= k < fills@.len() && fills@[k].0 == j) || (exists|k: int|
                        0 <= k < holes@.len() && holes@[k].0 == j),
            decreases tx.input.len() - i,
        {
            let txin = &tx.input[i];
            let ghost fills0 = fills@;
            let ghost holes0 = holes@;
            if txin.prevout.is_none() {
                let found = match txs.get(&txin.txid) {
                    Some(parent) => {
                        if (txin.vout as usize) < parent.output.len() {
                            Some(parent.output[txin.vout as usize].clone())
                        } else {
                            None
                        }
                    },
                    None => None,
                };
                match found {
                    Some(out) => {
                        fills.push((i, out));
                        assert(fills@[fills@.len() - 1].0 == i);
                    },
                    None => {
                        holes.push((i, txin.txid, txin.vout));
                        assert(holes@[holes@.len() - 1].0 == i);
                    },
                }
            }
            proof {
                assert forall|j: int|
                    0 <= j < i + 1 && (#[trigger] tx.input@[j]).prevout is None implies (exists|k: int|
                        0 <= k < fills@.len() && fills@[k].0 == j) || (exists|k: int|
                        0 <= k < holes@.len() && holes@[k].0 == j) by {
                    if j < i {
                        if exists|k: int| 0 <= k < fills0.len() && fills0[k].0 == j {
                            let k = choose|k: int| 0 <= k < fills0.len() && fills0[k].0 == j;
                            assert(fills@[k] == fills0[k]);
                        } else {
                            let k = choose|k: int| 0 <= k < holes0.len() && holes0[k].0 == j;
                            assert(holes@[k] == holes0[k]);
                        }
                    }
                }
            }
            i += 1;
        }
        (fills, holes)
    }

    /// One pass over the unresolved live txs (in the set's walking
    /// order): per tx, the prevouts a live parent fills and the holes
    /// left for an outside lookup. Txs with nothing in a list are left
    /// out of that list.
    pub fn gather(txs: &TxStore) -> (r: (
        Vec<(Txid, Vec<(usize, TxOut)>)>,
        Vec<(Txid, Vec<(usize, Txid, u32)>)>,
    ))
        requires
            txs.wf(),
        ensures
            forall|k: int|
                0 <= k < r.0@.len() ==> {
                    &&& (#[trigger] r.0@[k]).1@.len() > 0
                    &&& txs.record_for(r.0@[k].0) is Some
                    &&& exists|h: Seq<(usize, Txid, u32)>|
                        split_matches(txs.record_for(r.0@[k].0).unwrap().tx, *txs, r.0@[k].1@, h)
                },
            forall|k: int|
                0 <= k < r.1@.len() ==> {
                    &&& (#[trigger] r.1@[k]).1@.len() > 0
                    &&& txs.record_for(r.1@[k].0) is Some
                    &&& exists|f: Seq<(usize, TxOut)>|
                        split_matches(txs.record_for(r.1@[k].0).unwrap().tx, *txs, f, r.1@[k].1@)
                },
            forall|p: TxidPrefix|
                #[trigger] txs.unresolved_set().contains(p) ==> lists_prefix(r.0@, p) || lists_prefix(r.1@, p),
            forall|a: int, b: int|
                0 <= a < b < r.0@.len() ==> prefix_of((#[trigger] r.0@[a]).0) != prefix_of((#[trigger] r.0@[b]).0),
            forall|a: int, b: int|
                0 <= a < b < r.1@.len() ==> prefix_of((#[trigger] r.1@[a]).0) != prefix_of((#[trigger] r.1@[b]).0),
            forall|p: TxidPrefix|
                #[trigger] txs.unresolved_set().contains(p) ==> (lists_prefix(r.0@, p) <==> has_live_fill(
                    record_under(*txs, p).tx,
                    *txs,
                )) && (lists_prefix(r.1@, p) <==> has_hole(record_under(*txs, p).tx, *txs)),
            forall|k: int| 0 <= k < r.0@.len() ==> txs.unresolved_set().contains(prefix_of((#[trigger] r.0@[k]).0)),
            forall|k: int| 0 <= k < r.1@.len() ==> txs.unresolved_set().contains(prefix_of((#[trigger] r.1@[k]).0)),
    {
        let mut filled: Vec<(Txid, Vec<(usize, TxOut)>)> = Vec::new();
        let mut holes: Vec<(Txid, Vec<(usize, Txid, u32)>)> = Vec::new();
        let members = prefix_set_members(txs.unresolved());
        let mut i: usize = 0;
        while i < members.len()
            invariant
                txs.wf(),
                i <= members@.len(),
                forall|k: int|
                    0 <= k < filled@.len() ==> {
                        &&& (#[trigger] filled@[k]).1@.len() > 0
                        &&& txs.record_for(filled@[k].0) is Some
                        &&& exists|h: Seq<(usize, Txid, u32)>|
                            split_matches(txs.record_for(filled@[k].0).unwrap().tx, *txs, filled@[k].1@, h)
                    },
                forall|k: int|
                    0 <= k < holes@.len() ==> {
                        &&& (#[trigger] holes@[k]).1@.len() > 0
                        &&& txs.record_for(holes@[k].0) is Some
                        &&& exists|f: Seq<(usize, TxOut)>|
                            split_matches(txs.record_for(holes@[k].0).unwrap().tx, *txs, f, holes@[k].1@)
                    },
                forall|p: TxidPrefix| #[trigger] txs.unresolved_set().contains(p) <==> members@.contains(p),
                forall|m: int|
                    0 <= m < i ==> lists_prefix(filled@, #[trigger] members@[m]) || lists_prefix(holes@, members@[m]),
                forall|m: int|
                    0 <= m < i && has_live_fill(record_under(*txs, #[trigger] members@[m]).tx, *txs)
                        ==> lists_prefix(filled@, members@[m]),
                forall|m: int|
                    0 <= m < i && has_hole(record_under(*txs, #[trigger] members@[m]).tx, *txs) ==> lists_prefix(
                        holes@,
                        members@[m],
                    ),
                members@.no_duplicates(),
                forall|k: int|
                    0 <= k < filled@.len() ==> exists|m: int|
                        0 <= m < i && prefix_of((#[trigger] filled@[k]).0) == members@[m],
                forall|k: int|
                    0 <= k < holes@.len() ==> exists|m: int|
                        0 <= m < i && prefix_of((#[trigger] holes@[k]).0) == members@[m],
                forall|a: int, b: int|
                    0 <= a < b < filled@.len() ==> prefix_of((#[trigger] filled@[a]).0) != prefix_of(
                        (#[trigger] filled@[b]).0,
                    ),
                forall|a: int, b: int|
                    0 <= a < b < holes@.len() ==> prefix_of((#[trigger] holes@[a]).0) != prefix_of(
                        (#[trigger] holes@[b]).0,
                    ),
            decreases members.len() - i,
        {
            let prefix = members[i];
            proof {
                assert(members@.contains(prefix));
                assert(txs.pending().contains(prefix));
            }
            match txs.record_by_prefix(&prefix) {
                Some(record) => {
                    let (tx_fills, tx_holes) = Self::split_inputs(&record.tx, txs);
                    let txid = record.entry.txid;
                    proof {
                        let idx = txs.index_of(prefix);
                        assert(txs.entries()[idx].0 == prefix_of(txs.entries()[idx].1.entry.txid));
                        assert(has_key(txs.entries(), prefix_of(txid)));
                        txs.lemma_record_for_index(idx);
                    }
                    let ghost f = tx_fills@;
                    let ghost h = tx_holes@;
                    let ghost filled0 = filled@;
                    let ghost holes0 = holes@;
                    proof {
                        assert(txs.record_for(txid) == Some(*record));
                        assert(split_matches(txs.record_for(txid).unwrap().tx, *txs, f, h));
                    }
                    proof {
                        let idx = txs.index_of(prefix);
                        let w = choose|w: int|
                            0 <= w < txs.entries().len() && (#[trigger] txs.entries()[w]).0 == prefix
                                && has_unresolved(txs.entries()[w].1.tx.input@);
                        assert(w == idx);
                        let vi = choose|vi: int| 0 <= vi < record.tx.input@.len() && (#[trigger] record.tx.input@[vi]).prevout is None;
                        assert(record.tx.input@[vi].prevout is None);
                        assert(f.len() > 0 || h.len() > 0);
                        assert(prefix_of(txid) == prefix);
                    }
                    if tx_fills.len() > 0 {
                        filled.push((txid, tx_fills));
                        proof {
                            assert(filled@[filled@.len() - 1].0 == txid);
                        }
                    }
                    if tx_holes.len() > 0 {
                        holes.push((txid, tx_holes));
                        proof {
                            assert(holes@[holes@.len() - 1].0 == txid);
                        }
                    }
                    proof {
                        assert forall|k: int| 0 <= k < filled@.len() implies exists|m: int|
                            0 <= m < i + 1 && prefix_of((#[trigger] filled@[k]).0) == members@[m] by {
                            if k < filled0.len() {
                                assert(filled@[k] == filled0[k]);
                            } else {
                                assert(prefix_of(filled@[k].0) == members@[i as int]);
                            }
                        }
                        assert forall|k: int| 0 <= k < holes@.len() implies exists|m: int|
                            0 <= m < i + 1 && prefix_of((#[trigger] holes@[k]).0) == members@[m] by {
                            if k < holes0.len() {
                                assert(holes@[k] == holes0[k]);
                            } else {
                                assert(prefix_of(holes@[k].0) == members@[i as int]);
                            }
                        }
                        assert forall|a: int, b: int| 0 <= a < b < filled@.len() implies prefix_of(
                            (#[trigger] filled@[a]).0,
                        ) != prefix_of((#[trigger] filled@[b]).0) by {
                            assert(filled@[a] == filled0[a]);
                            if b < filled0.len() {
                                assert(filled@[b] == filled0[b]);
                            } else {
                                let m = choose|m: int| 0 <= m < i && prefix_of((#[trigger] filled0[a]).0) == members@[m];
                                assert(members@[m] != members@[i as int]);
                            }
                        }
                        assert forall|a: int, b: int| 0 <= a < b < holes@.len() implies prefix_of(
                            (#[trigger] holes@[a]).0,
                        ) != prefix_of((#[trigger] holes@[b]).0) by {
                            assert(holes@[a] == holes0[a]);
                            if b < holes0.len() {
                                assert(holes@[b] == holes0[b]);
                            } else {
                                let m = choose|m: int| 0 <= m < i && prefix_of((#[trigger] holes0[a]).0) == members@[m];
                                assert(members@[m] != members@[i as int]);
                            }
                        }
                        assert(lists_prefix(filled@, prefix) || lists_prefix(holes@, prefix));
                        assert(record_under(*txs, prefix) == *record);
                        lemma_split_nonempty(record.tx, *txs, f, h);
                        assert forall|m: int|
                            0 <= m < i + 1 && has_live_fill(record_under(*txs, #[trigger] members@[m]).tx, *txs)
                                implies lists_prefix(filled@, members@[m]) by {
                            if m < i {
                                let k = choose|k: int| 0 <= k < filled0.len() && prefix_of((#[trigger] filled0[k]).0) == members@[m];
                                assert(filled@[k] == filled0[k]);
                            } else {
                                assert(filled@[filled@.len() - 1].0 == txid);
                            }
                        }
                        assert forall|m: int|
                            0 <= m < i + 1 && has_hole(record_under(*txs, #[trigger] members@[m]).tx, *txs)
                                implies lists_prefix(holes@, members@[m]) by {
                            if m < i {
                                let k = choose|k: int| 0 <= k < holes0.len() && prefix_of((#[trigger] holes0[k]).0) == members@[m];
                                assert(holes@[k] == holes0[k]);
                            } else {
                                assert(holes@[holes@.len() - 1].0 == txid);
                            }
                        }
                        assert forall|m: int|
                            0 <= m < i + 1 implies lists_prefix(filled@, #[trigger] members@[m]) || lists_prefix(holes@, members@[m]) by {
                            if m < i {
                                if lists_prefix(filled0, members@[m]) {
                                    let k = choose|k: int| 0 <= k < filled0.len() && prefix_of((#[trigger] filled0[k]).0) == members@[m];
                                    assert(filled@[k] == filled0[k]);
                                } else {
                                    let k = choose|k: int| 0 <= k < holes0.len() && prefix_of((#[trigger] holes0[k]).0) == members@[m];
                                    assert(holes@[k] == holes0[k]);
                                }
                            }
                        }
                        assert forall|k: int| 0 <= k < filled@.len() implies {
                            &&& (#[trigger] filled@[k]).1@.len() > 0
                            &&& txs.record_for(filled@[k].0) is Some
                            &&& exists|hh: Seq<(usize, Txid, u32)>|
                                split_matches(txs.record_for(filled@[k].0).unwrap().tx, *txs, filled@[k].1@, hh)
                        } by {
                            if k < filled0.len() {
                                assert(filled@[k] == filled0[k]);
                            } else {
                                assert(filled@[k].1@ == f);
                                assert(split_matches(txs.record_for(filled@[k].0).unwrap().tx, *txs, filled@[k].1@, h));
                            }
                        }
                        assert forall|k: int| 0 <= k < holes@.len() implies {
                            &&& (#[trigger] holes@[k]).1@.len() > 0
                            &&& txs.record_for(holes@[k].0) is Some
                            &&& exists|ff: Seq<(usize, TxOut)>|
                                split_matches(txs.record_for(holes@[k].0).unwrap().tx, *txs, ff, holes@[k].1@)
                        } by {
                            if k < holes0.len() {
                                assert(holes@[k] == holes0[k]);
                            } else {
                                assert(holes@[k].1@ == h);
                                assert(split_matches(txs.record_for(holes@[k].0).unwrap().tx, *txs, f, holes@[k].1@));
                            }
                        }
                    }
                },
                None => {
                    proof {
                        let w = choose|w: int|
                            0 <= w < txs.entries().len() && (#[trigger] txs.entries()[w]).0 == prefix
                                && has_unresolved(txs.entries()[w].1.tx.input@);
                        assert(has_key(txs.entries(), prefix));
                    }
                },
            }
            i += 1;
        }
        proof {
            assert forall|p: TxidPrefix| #[trigger] txs.unresolved_set().contains(p) implies lists_prefix(filled@, p)
                || lists_prefix(holes@, p) by {
                let m = choose|m: int| 0 <= m < members@.len() && members@[m] == p;
                assert(lists_prefix(filled@, members@[m]) || lists_prefix(holes@, members@[m]));
            }
            assert forall|k: int| 0 <= k < filled@.len() implies txs.unresolved_set().contains(
                prefix_of((#[trigger] filled@[k]).0),
            ) by {
                let m = choose|m: int| 0 <= m < members@.len() && prefix_of(filled@[k].0) == members@[m];
                assert(members@.contains(members@[m]));
            }
            assert forall|k: int| 0 <= k < holes@.len() implies txs.unresolved_set().contains(
                prefix_of((#[trigger] holes@[k]).0),
            ) by {
                let m = choose|m: int| 0 <= m < members@.len() && prefix_of(holes@[k].0) == members@[m];
                assert(members@.contains(members@[m]));
            }
            assert forall|p: TxidPrefix| #[trigger] txs.unresolved_set().contains(p) implies (lists_prefix(
                filled@,
                p,
            ) <==> has_live_fill(record_under(*txs, p).tx, *txs)) && (lists_prefix(holes@, p) <==> has_hole(
                record_under(*txs, p).tx,
                *txs,
            )) by {
                let m = choose|m: int| 0 <= m < members@.len() && members@[m] == p;
                assert(members@[m] == p);
                if lists_prefix(filled@, p) {
                    let k = choose|k: int| 0 <= k < filled@.len() && prefix_of((#[trigger] filled@[k]).0) == p;
                    let t = filled@[k].0;
                    let h = choose|h: Seq<(usize, Txid, u32)>|
                        split_matches(txs.record_for(t).unwrap().tx, *txs, filled@[k].1@, h);
                    assert(txs.record_for(t).unwrap() == record_under(*txs, p));
                    lemma_split_nonempty(record_under(*txs, p).tx, *txs, filled@[k].1@, h);
                }
                if lists_prefix(holes@, p) {
                    let k = choose|k: int| 0 <= k < holes@.len() && prefix_of((#[trigger] holes@[k]).0) == p;
                    let t = holes@[k].0;
                    let f = choose|f: Seq<(usize, TxOut)>|
                        split_matches(txs.record_for(t).unwrap().tx, *txs, f, holes@[k].1@);
                    assert(txs.record_for(t).unwrap() == record_under(*txs, p));
                    lemma_split_nonempty(record_under(*txs, p).tx, *txs, f, holes@[k].1@);
                }
            }
        }
        (filled, holes)
    }

    /// The outpoints to look up outside, in order.
    pub fn flatten_holes(holes: &Vec<(Txid, Vec<(usize, Txid, u32)>)>) -> (r: Vec<(Txid, u32)>)
        ensures
            r@ == flat_holes(holes@),
    {
        let mut flat: Vec<(Txid, u32)> = Vec::new();
        let mut i: usize = 0;
        while i < holes.len()
            invariant
                i <= holes@.len(),
                flat@ == flat_holes(holes@.take(i as int)),
            decreases holes.len() - i,
        {
            assert(holes@.take(i + 1).drop_last() =~= holes@.take(i as int));
            let tx_holes = &holes[i].1;
            let ghost base = flat@;
            let mut j: usize = 0;
            while j < tx_holes.len()
                invariant
                    j <= tx_holes@.len(),
                    flat@ == base + tx_holes@.take(j as int).map_values(|h: (usize, Txid, u32)| (h.1, h.2)),
                decreases tx_holes.len() - j,
            {
                flat.push((tx_holes[j].1, tx_holes[j].2));
                assert(tx_holes@.take(j + 1).map_values(|h: (usize, Txid, u32)| (h.1, h.2))
                    =~= tx_holes@.take(j as int).map_values(|h: (usize, Txid, u32)| (h.1, h.2)).push(
                    (tx_holes@[j as int].1, tx_holes@[j as int].2),
                ));
                j += 1;
            }
            assert(tx_holes@.take(tx_holes@.len() as int) =~= tx_holes@);
            i += 1;
        }
        assert(holes@.take(holes@.len() as int) =~= holes@);
        flat
    }

    /// Attributes outputs fetched for the flattened holes back to the txs
    /// that spend them, in hole order. Each fetched output is handed out
    /// once (to the first hole asking for it); txs that got nothing are
    /// left out, so nothing fetched gives nothing.
    pub fn resolve_external(
        holes: Vec<(Txid, Vec<(usize, Txid, u32)>)>,
        resolved: ResolvedOutputs,
    ) -> (r: Vec<(Txid, Vec<(usize, TxOut)>)>)
        ensures
            r@.map_values(|e: (Txid, Vec<(usize, TxOut)>)| (e.0, e.1@)) == take_all(holes@, resolved@).0,
    {
        let mut out: Vec<(Txid, Vec<(usize, TxOut)>)> = Vec::new();
        if outpoint_map_is_empty(&resolved) {
            proof {
                lemma_take_all_empty(holes@, resolved@);
                assert(out@.map_values(|e: (Txid, Vec<(usize, TxOut)>)| (e.0, e.1@)) =~= Seq::<
                    (Txid, Seq<(usize, TxOut)>),
                >::empty());
            }
            return out;
        }
        let ghost all = resolved@;
        let mut resolved = resolved;
        let mut i: usize = 0;
        proof {
            assert(out@.map_values(|e: (Txid, Vec<(usize, TxOut)>)| (e.0, e.1@)) =~= take_all(holes@.take(0), all).0);
        }
        while i < holes.len()
            invariant
                i <= holes@.len(),
                out@.map_values(|e: (Txid, Vec<(usize, TxOut)>)| (e.0, e.1@)) == take_all(holes@.take(i as int), all).0,
                resolved@ == take_all(holes@.take(i as int), all).1,
            decreases holes.len() - i,
        {
            let txid = holes[i].0;
            let tx_holes = &holes[i].1;
            let ghost m_i = resolved@;
            let mut fills: Vec<(usize, TxOut)> = Vec::new();
            let mut j: usize = 0;
            proof {
                assert(fills@ =~= take_fills(tx_holes@.take(0), m_i).0);
            }
            while j < tx_holes.len()
                invariant
                    j <= tx_holes@.len(),
                    fills@ == take_fills(tx_holes@.take(j as int), m_i).0,
                    resolved@ == take_fills(tx_holes@.take(j as int), m_i).1,
                decreases tx_holes.len() - j,
            {
                let (vin, prev_txid, vout) = tx_holes[j];
                proof {
                    assert(tx_holes@.take(j + 1).drop_last() =~= tx_holes@.take(j as int));
                    assert(tx_holes@.take(j + 1).last() == (vin, prev_txid, vout));
                }
                match outpoint_map_remove(&mut resolved, &(prev_txid, vout)) {
                    Some(output) => {
                        fills.push((vin, output));
                    },
                    None => {},
                }
                j += 1;
            }
            proof {
                assert(tx_holes@.take(tx_holes@.len() as int) =~= tx_holes@);
                assert(holes@.take(i + 1).drop_last() =~= holes@.take(i as int));
                assert(holes@.take(i + 1).last() == holes@[i as int]);
            }
            let ghost out0 = out@;
            if fills.len() > 0 {
                out.push((txid, fills));
                proof {
                    assert(out@.map_values(|e: (Txid, Vec<(usize, TxOut)>)| (e.0, e.1@)) =~= out0.map_values(
                        |e: (Txid, Vec<(usize, TxOut)>)| (e.0, e.1@),
                    ).push((txid, take_fills(tx_holes@, m_i).0)));
                }
            }
            i += 1;
        }
        proof {
            assert(holes@.take(holes@.len() as int) =~= holes@);
        }
        out
    }

    /// Writes every batch of fills into the live store, in order; batches
    /// for txs no longer live are ignored. Returns the prevouts written per
    /// batch.
    pub fn apply_batches(state: &mut State, batches: Vec<(Txid, Vec<(usize, TxOut)>)>) -> (r: Vec<
        (Txid, Vec<TxOut>),
    >)
        requires
            old(state).wf(),
        ensures
            final(state).wf(),
            final(state).graveyard == old(state).graveyard,
            exists|stores: Seq<TxStore>|
                #[trigger] batch_chain(stores, batches@, r@) && stores[0] == old(state).txs && stores.last()
                    == final(state).txs,
            r@.len() == batches@.len(),
            forall|k: int| 0 <= k < r@.len() ==> (#[trigger] r@[k]).0 == batches@[k].0,
            final(state).txs.entries().len() == old(state).txs.entries().len(),
            forall|j: int|
                0 <= j < old(state).txs.entries().len() ==> (#[trigger] final(state).txs.entries()[j]).0
                    == old(state).txs.entries()[j].0 && final(state).txs.entries()[j].1.entry == old(
                    state,
                ).txs.entries()[j].1.entry,
    {
        let ghost entries0 = state.txs.entries();
        let ghost all = batches@;
        let ghost mut stores: Seq<TxStore> = seq![state.txs];
        let mut written: Vec<(Txid, Vec<TxOut>)> = Vec::new();
        for batch in it: batches.into_iter()
            invariant
                state.wf(),
                state.graveyard == old(state).graveyard,
                all == it.seq(),
                it.index() <= all.len(),
                written@.len() == it.index(),
                forall|k: int| 0 <= k < written@.len() ==> (#[trigger] written@[k]).0 == all[k].0,
                stores.len() == it.index() + 1,
                stores[0] == old(state).txs,
                stores.last() == state.txs,
                forall|k: int|
                    0 <= k < written@.len() ==> #[trigger] TxStore::fills_applied(
                        stores[k],
                        stores[k + 1],
                        prefix_of(all[k].0),
                        all[k].1@,
                        written@[k].1@,
                    ),
                state.txs.entries().len() == entries0.len(),
                forall|j: int|
                    0 <= j < entries0.len() ==> (#[trigger] state.txs.entries()[j]).0 == entries0[j].0
                        && state.txs.entries()[j].1.entry == entries0[j].1.entry,
        {
            let ghost i = it.index() as int;
            proof {
                assert(all[i] == batch);
            }
            let (txid, fills) = batch;
            let prefix = txid.prefix();
            let ghost before = state.txs.entries();
            let ghost store_before = state.txs;
            let applied = state.txs.apply_fills(&prefix, fills);
            proof {
                assert forall|j: int|
                    0 <= j < entries0.len() implies (#[trigger] state.txs.entries()[j]).0 == entries0[j].0
                        && state.txs.entries()[j].1.entry == entries0[j].1.entry by {
                    assert(before[j].0 == entries0[j].0);
                }
                let ghost stores0 = stores;
                stores = stores.push(state.txs);
                assert(stores[i] == store_before);
                assert(stores[i + 1] == state.txs);
                assert forall|k: int| 0 <= k < i implies #[trigger] stores[k] == stores0[k] && stores[k + 1]
                    == stores0[k + 1] by {}
            }
            let ghost written0 = written@;
            written.push((txid, applied));
            proof {
                assert forall|k: int|
                    0 <= k < written@.len() implies #[trigger] TxStore::fills_applied(
                        stores[k],
                        stores[k + 1],
                        prefix_of(all[k].0),
                        all[k].1@,
                        written@[k].1@,
                    ) by {
                    if k < i {
                        assert(written@[k] == written0[k]);
                    }
                }
            }
        }
        proof {
            assert(batch_chain(stores, batches@, written@));
        }
        written
    }
}

/// `stores` runs through the batches one at a time: store `k + 1` is store
/// `k` with batch `k` applied to the record of its txid's prefix, and
/// `written[k]` names that txid with the prevouts the batch wrote.
pub open spec fn batch_chain(
    stores: Seq<TxStore>,
    batches: Seq<(Txid, Vec<(usize, TxOut)>)>,
    written: Seq<(Txid, Vec<TxOut>)>,
) -> bool {
    &&& stores.len() == batches.len() + 1
    &&& written.len() == batches.len()
    &&& forall|k: int|
        0 <= k < batches.len() ==> (#[trigger] written[k]).0 == batches[k].0 && TxStore::fills_applied(
            stores[k],
            stores[k + 1],
            prefix_of(batches[k].0),
            batches[k].1@,
            written[k].1@,
        )
}

impl TxStore {
    /// The record at `i` is the one found for its own txid.
    pub proof fn lemma_record_for_index(&self, i: int)
        requires
            self.wf(),
            0 <= i < self.entries().len(),
        ensures
            self.record_for(self.entries()[i].1.entry.txid) == Some(self.entries()[i].1),
    {
        let t = self.entries()[i].1.entry.txid;
        let p = prefix_of(t);
        assert(self.entries()[i].0 == p);
        assert(has_key(self.entries(), p));
        let j = self.index_of(p);
        assert(self.entries()[j].0 == p);
        if j != i {
            if i < j {
                assert(self.entries()[i].0 != self.entries()[j].0);
            } else {
                assert(self.entries()[j].0 != self.entries()[i].0);
            }
        }
    }
}

} // verus!
