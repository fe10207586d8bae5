use vstd::prelude::*;

use crate::fxmap::{txid_map_insert, txid_map_new, TxidMap};
use crate::graveyard::{
    chain_end, chain_walk, next_in_chain, replaced_in, replaced_recent_first, TxGraveyard, TxTombstone,
};
use crate::snapshot::Snapshot;
use crate::state::State;
use crate::tx::{Transaction, TxEntry, TxOut};
use crate::txstore::{outputs_value, TxStore};
use crate::types::{prefix_of, FeeRate, Txid};

verus! {

/// One transaction of a replacement tree and the transactions it
/// replaced.
#[derive(Debug)]
pub struct RbfNode {
    pub txid: Txid,
    pub fee: u64,
    pub vsize: u64,
    pub value: u64,
    pub first_seen: u64,
    pub rate: FeeRate,
    pub in_mempool: bool,
    /// BIP125 signalling.
    pub rbf: bool,
    /// Some replaced transaction below this node did not signal.
    pub full_rbf: bool,
    pub replaces: Vec<RbfNode>,
}

/// The replacement tree of a transaction plus its direct predecessors.
pub struct RbfForTx {
    /// Tree rooted at the terminal replacer; `None` if unknown.
    pub root: Option<RbfNode>,
    /// Direct predecessors of the requested tx.
    pub replaces: Vec<Txid>,
}

impl RbfForTx {
    pub fn is_empty(&self) -> (r: bool)
        ensures
            r == (self.root is None && self.replaces@.len() == 0),
    {
        self.root.is_none() && self.replaces.len() == 0
    }
}

/// Where a node's data comes from: the live record (at its own fee rate)
/// or the tombstone (at its burial chunk rate).
pub open spec fn node_source(txs: TxStore, tombs: Map<Txid, TxTombstone>, t: Txid) -> Option<
    (Transaction, TxEntry, FeeRate, bool),
> {
    match txs.record_for(t) {
        Some(rec) => Some((rec.tx, rec.entry, FeeRate { fee: rec.entry.fee, vsize: rec.entry.vsize }, true)),
        None => if tombs.contains_key(t) {
            Some((tombs[t].tx, tombs[t].entry, tombs[t].chunk_rate, false))
        } else {
            None
        },
    }
}

/// `n` carries the data of `n.txid` from its source.
pub open spec fn node_fields(n: RbfNode, txs: TxStore, tombs: Map<Txid, TxTombstone>) -> bool {
    match node_source(txs, tombs, n.txid) {
        Some(src) => {
            &&& n.fee == src.1.fee
            &&& n.vsize == src.1.vsize
            &&& n.value == outputs_value(src.0.output@)
            &&& n.first_seen == src.1.first_seen
            &&& n.rate == src.2
            &&& n.in_mempool == src.3
            &&& n.rbf == src.1.rbf
        },
        None => false,
    }
}

/// `n` is the replacement tree of `n.txid`, built `depth` levels deep:
/// its children are exactly the transactions buried as replaced by it
/// (while depth remains), each the tree of its own predecessors.
pub open spec fn tree_ok(n: RbfNode, txs: TxStore, tombs: Map<Txid, TxTombstone>, depth: nat) -> bool
    decreases depth,
{
    &&& depth > 0
    &&& node_fields(n, txs, tombs)
    &&& n.full_rbf == exists|i: int|
        0 <= i < n.replaces@.len() && (!(#[trigger] n.replaces@[i]).rbf || n.replaces@[i].full_rbf)
    &&& forall|i: int|
        0 <= i < n.replaces@.len() ==> replaced_in(tombs, (#[trigger] n.replaces@[i]).txid, n.txid)
            && tree_ok(n.replaces@[i], txs, tombs, (depth - 1) as nat)
    &&& forall|i: int, j: int|
        0 <= i < j < n.replaces@.len() ==> (#[trigger] n.replaces@[i]).txid != (
        #[trigger] n.replaces@[j]).txid
    &&& depth > 1 ==> forall|p: Txid|
        #[trigger] replaced_in(tombs, p, n.txid) ==> exists|i: int|
            0 <= i < n.replaces@.len() && (#[trigger] n.replaces@[i]).txid == p
    &&& depth == 1 ==> n.replaces@.len() == 0
}

/// Below `n` (while depth remains), each node's children come in the
/// order the graveyard lists the predecessors of that node.
pub open spec fn tree_ordered(n: RbfNode, g: TxGraveyard, depth: nat) -> bool
    decreases depth,
{
    depth > 1 ==> {
        &&& n.replaces@.map_values(|c: RbfNode| c.txid) == g.preds_of(n.txid)
        &&& forall|i: int|
            0 <= i < n.replaces@.len() ==> tree_ordered(#[trigger] n.replaces@[i], g, (depth - 1) as nat)
    }
}

/// Sum of output values, capped at `u64::MAX`.
fn outputs_value_exec(outs: &Vec<TxOut>) -> (r: u64)
    ensures
        r == outputs_value(outs@),
{
    let mut value: u64 = 0;
    let mut k: usize = 0;
    while k < outs.len()
        invariant
            k <= outs@.len(),
            value == outputs_value(outs@.take(k as int)),
        decreases outs.len() - k,
    {
        assert(outs@.take(k + 1).drop_last() =~= outs@.take(k as int));
        let v = outs[k].value;
        value = if value > u64::MAX - v { u64::MAX } else { value + v };
        k += 1;
    }
    assert(outs@.take(outs@.len() as int) =~= outs@);
    value
}

/// The data a tree node shows for `txid`: the live record at its own fee
/// rate, else the tombstone at its burial chunk rate.
fn resolve_rbf_node<'a>(txid: &Txid, txs: &'a TxStore, graveyard: &'a TxGraveyard) -> (r: Option<
    (&'a Transaction, &'a TxEntry, FeeRate, bool),
>)
    requires
        txs.wf(),
        graveyard.wf(),
    ensures
        match node_source(*txs, graveyard.tombs(), *txid) {
            Some(src) => r matches Some(found) && *found.0 == src.0 && *found.1 == src.1 && found.2 == src.2
                && found.3 == src.3,
            None => r is None,
        },
{
    match txs.record(txid) {
        Some(record) => Some((&record.tx, &record.entry, record.entry.fee_rate(), true)),
        None => match graveyard.get(txid) {
            Some(tomb) => Some((&tomb.tx, &tomb.entry, tomb.chunk_rate, false)),
            None => None,
        },
    }
}

/// The replacement tree of `txid`, `depth` levels deep at most; `None`
/// when `txid` is neither live nor buried (or no depth is left). A
/// depth above the number of tombstones reaches every predecessor of an
/// acyclic history.
pub fn build_rbf_node(txid: &Txid, txs: &TxStore, graveyard: &TxGraveyard, depth: usize) -> (r: Option<RbfNode>)
    requires
        txs.wf(),
        graveyard.wf(),
    ensures
        (depth == 0 || node_source(*txs, graveyard.tombs(), *txid) is None) ==> r is None,
        depth > 0 && node_source(*txs, graveyard.tombs(), *txid) is Some ==> (r matches Some(n) && n.txid
            == *txid && tree_ok(n, *txs, graveyard.tombs(), depth as nat) && tree_ordered(
            n,
            *graveyard,
            depth as nat,
        )),
    decreases depth,
{
    if depth == 0 {
        return None;
    }
    let (tx, entry, rate, in_mempool) = match resolve_rbf_node(txid, txs, graveyard) {
        Some(found) => found,
        None => {
            return None;
        },
    };
    let preds = graveyard.predecessors_of(txid);
    let mut replaces: Vec<RbfNode> = Vec::new();
    let mut k: usize = 0;
    while k < preds.len()
        invariant
            txs.wf(),
            graveyard.wf(),
            depth > 0,
            k <= preds@.len(),
            forall|i: int|
                0 <= i < preds@.len() ==> replaced_in(graveyard.tombs(), (#[trigger] preds@[i]).0, *txid),
            forall|i: int, j: int| 0 <= i < j < preds@.len() ==> preds@[i].0 != preds@[j].0,
            depth == 1 ==> replaces@.len() == 0,
            depth > 1 ==> replaces@.len() == k,
            depth > 1 ==> forall|i: int| 0 <= i < k ==> (#[trigger] replaces@[i]).txid == preds@[i].0,
            forall|i: int|
                0 <= i < replaces@.len() ==> replaced_in(graveyard.tombs(), (#[trigger] replaces@[i]).txid, *txid)
                    && tree_ok(replaces@[i], *txs, graveyard.tombs(), (depth - 1) as nat),
            forall|i: int|
                0 <= i < replaces@.len() ==> tree_ordered(#[trigger] replaces@[i], *graveyard, (depth - 1) as nat),
            preds@.len() == graveyard.preds_of(*txid).len(),
            forall|i: int| 0 <= i < preds@.len() ==> (#[trigger] preds@[i]).0 == graveyard.preds_of(*txid)[i],
        decreases preds.len() - k,
    {
        let p = preds[k].0;
        proof {
            assert(replaced_in(graveyard.tombs(), preds@[k as int].0, *txid));
        }
        match build_rbf_node(&p, txs, graveyard, depth - 1) {
            Some(node) => replaces.push(node),
            None => {},
        }
        k += 1;
    }
    let mut full_rbf = false;
    let mut j: usize = 0;
    while j < replaces.len()
        invariant
            j <= replaces@.len(),
            full_rbf == exists|i: int|
                0 <= i < j && (!(#[trigger] replaces@[i]).rbf || replaces@[i].full_rbf),
        decreases replaces.len() - j,
    {
        if !replaces[j].rbf || replaces[j].full_rbf {
            full_rbf = true;
        }
        j += 1;
    }
    let value = outputs_value_exec(&tx.output);
    let node = RbfNode {
        txid: *txid,
        fee: entry.fee,
        vsize: entry.vsize,
        value,
        first_seen: entry.first_seen,
        rate,
        in_mempool,
        rbf: entry.rbf,
        full_rbf,
        replaces,
    };
    proof {
        let tombs = graveyard.tombs();
        if depth > 1 {
            assert forall|pp: Txid| #[trigger] replaced_in(tombs, pp, *txid) implies exists|i: int|
                0 <= i < node.replaces@.len() && (#[trigger] node.replaces@[i]).txid == pp by {
                let i = choose|i: int| 0 <= i < preds@.len() && (#[trigger] preds@[i]).0 == pp;
                assert(node.replaces@[i].txid == pp);
            }
            assert forall|a: int, b: int| 0 <= a < b < node.replaces@.len() implies (
            #[trigger] node.replaces@[a]).txid != (#[trigger] node.replaces@[b]).txid by {
                assert(preds@[a].0 != preds@[b].0);
            }
            assert(node.replaces@.map_values(|c: RbfNode| c.txid) =~= graveyard.preds_of(*txid));
        }
        assert(tree_ordered(node, *graveyard, depth as nat));
    }
    Some(node)
}

/// `after` is `before` with every live node's rate set to its chunk rate
/// in `snapshot`, where the snapshot has one.
pub open spec fn rates_refreshed(before: RbfNode, after: RbfNode, snapshot: Snapshot) -> bool
    decreases before,
{
    &&& after.txid == before.txid
    &&& after.fee == before.fee
    &&& after.vsize == before.vsize
    &&& after.value == before.value
    &&& after.first_seen == before.first_seen
    &&& after.in_mempool == before.in_mempool
    &&& after.rbf == before.rbf
    &&& after.full_rbf == before.full_rbf
    &&& after.rate == (if before.in_mempool && snapshot.chunk_rate_for_spec(prefix_of(before.txid)) is Some {
        snapshot.chunk_rate_for_spec(prefix_of(before.txid)).unwrap()
    } else {
        before.rate
    })
    &&& after.replaces@.len() == before.replaces@.len()
    &&& forall|i: int|
        0 <= i < before.replaces@.len() ==> rates_refreshed(
            #[trigger] before.replaces@[i],
            after.replaces@[i],
            snapshot,
        )
}

/// Sets each live node's rate to its current chunk rate in `snapshot`
/// (prefix lookup), throughout the tree.
pub fn apply_snapshot_rates(node: RbfNode, snapshot: &Snapshot) -> (r: RbfNode)
    requires
        snapshot.wf(),
    ensures
        rates_refreshed(node, r, *snapshot),
    decreases node,
{
    let ghost before = node;
    let mut rate = node.rate;
    if node.in_mempool {
        match snapshot.chunk_rate_for(&node.txid.prefix()) {
            Some(c) => {
                rate = c;
            },
            None => {},
        }
    }
    let RbfNode { txid, fee, vsize, value, first_seen, rate: _, in_mempool, rbf, full_rbf, replaces } = node;
    let ghost orig = replaces@;
    let mut out: Vec<RbfNode> = Vec::new();
    for child in it: replaces.into_iter()
        invariant
            snapshot.wf(),
            orig == it.seq(),
            orig == before.replaces@,
            before == node,
            out@.len() == it.index(),
            forall|i: int| 0 <= i < out@.len() ==> rates_refreshed(#[trigger] orig[i], out@[i], *snapshot),
    {
        let ghost i = it.index() as int;
        assert(orig[i] == child);
        proof {
            assert(decreases_to!(before => before.replaces));
            assert(decreases_to!(before.replaces => before.replaces@));
            assert(decreases_to!(before.replaces@ => before.replaces@[i]));
            assert(decreases_to!(before => child));
            assert(decreases_to!(node => child));
        }
        let c = apply_snapshot_rates(child, snapshot);
        out.push(c);
    }
    RbfNode { txid, fee, vsize, value, first_seen, rate, in_mempool, rbf, full_rbf, replaces: out }
}

/// The replacement history around `txid`: the tree of its terminal
/// replacer (rates refreshed from `snapshot`) and its direct
/// predecessors.
pub fn rbf_for_tx(state: &State, snapshot: &Snapshot, txid: &Txid) -> (r: RbfForTx)
    requires
        state.wf(),
        snapshot.wf(),
        exists|n: nat| chain_end(state.graveyard.tombs(), #[trigger] chain_walk(state.graveyard.tombs(), *txid, n)),
    ensures
        exists|root_txid: Txid|
            #![trigger node_source(state.txs, state.graveyard.tombs(), root_txid)]
            chain_end(state.graveyard.tombs(), root_txid) && (exists|n: nat|
                root_txid == #[trigger] chain_walk(state.graveyard.tombs(), *txid, n)) && (node_source(
                state.txs,
                state.graveyard.tombs(),
                root_txid,
            ) is None ==> r.root is None) && (node_source(state.txs, state.graveyard.tombs(), root_txid)
                is Some ==> (r.root matches Some(n) && exists|b: RbfNode, d: nat|
                #![trigger tree_ok(b, state.txs, state.graveyard.tombs(), d)]
                b.txid == root_txid && d == rbf_depth(state.graveyard.tombs()) && tree_ok(
                    b,
                    state.txs,
                    state.graveyard.tombs(),
                    d,
                ) && tree_ordered(b, state.graveyard, d) && rates_refreshed(b, n, *snapshot))),
        forall|p: Txid|
            #[trigger] replaced_in(state.graveyard.tombs(), p, *txid) <==> r.replaces@.contains(p),
        r.replaces@.no_duplicates(),
        r.root is Some ==> exists|n: nat| r.root.unwrap().txid == #[trigger] chain_walk(
            state.graveyard.tombs(),
            *txid,
            n,
        ) && chain_end(state.graveyard.tombs(), r.root.unwrap().txid),
{
    let root_txid = state.graveyard.replacement_root_of(*txid);
    let preds = state.graveyard.predecessors_of(txid);
    let mut replaces: Vec<Txid> = Vec::new();
    let mut k: usize = 0;
    while k < preds.len()
        invariant
            k <= preds@.len(),
            replaces@ == preds@.take(k as int).map_values(|e: (Txid, &TxTombstone)| e.0),
        decreases preds.len() - k,
    {
        replaces.push(preds[k].0);
        assert(preds@.take(k + 1).map_values(|e: (Txid, &TxTombstone)| e.0) =~= preds@.take(
            k as int,
        ).map_values(|e: (Txid, &TxTombstone)| e.0).push(preds@[k as int].0));
        k += 1;
    }
    assert(preds@.take(preds@.len() as int) =~= preds@);
    proof {
        assert forall|p: Txid| #[trigger] replaced_in(state.graveyard.tombs(), p, *txid) <==> replaces@.contains(p) by {
            if replaced_in(state.graveyard.tombs(), p, *txid) {
                let i = choose|i: int| 0 <= i < preds@.len() && (#[trigger] preds@[i]).0 == p;
                assert(replaces@[i] == p);
            }
            if replaces@.contains(p) {
                let i = choose|i: int| 0 <= i < replaces@.len() && replaces@[i] == p;
                assert(preds@[i].0 == p);
            }
        }
        assert forall|a: int, b: int| 0 <= a < b < replaces@.len() implies replaces@[a] != replaces@[b] by {
            assert(preds@[a].0 != preds@[b].0);
        }
    }
    let depth = tree_depth(&state.graveyard);
    let built = build_rbf_node(&root_txid, &state.txs, &state.graveyard, depth);
    let ghost b = built;
    let root = match built {
        Some(node) => Some(apply_snapshot_rates(node, snapshot)),
        None => None,
    };
    proof {
        let src = node_source(state.txs, state.graveyard.tombs(), root_txid);
        if src is Some {
            let bb = b.unwrap();
            assert(tree_ok(bb, state.txs, state.graveyard.tombs(), depth as nat));
            assert(tree_ordered(bb, state.graveyard, depth as nat));
        }
    }
    RbfForTx { root, replaces }
}

/// Every replacement chain ends: no cycle of `Replaced` links.
pub open spec fn chains_end(tombs: Map<Txid, TxTombstone>) -> bool {
    forall|t: Txid| #[trigger] ends_from(tombs, t)
}

/// The replacement chain from `t` ends.
pub open spec fn ends_from(tombs: Map<Txid, TxTombstone>, t: Txid) -> bool {
    exists|n: nat| chain_end(tombs, #[trigger] chain_walk(tombs, t, n))
}

/// The end of the replacement chain from `t` (where the chain ends).
pub open spec fn root_of(tombs: Map<Txid, TxTombstone>, t: Txid) -> Txid {
    chain_walk(tombs, t, choose|n: nat| chain_end(tombs, #[trigger] chain_walk(tombs, t, n)))
}

/// Walking `a + b` steps is walking `a` steps, then `b`.
proof fn lemma_walk_split(tombs: Map<Txid, TxTombstone>, t: Txid, a: nat, b: nat)
    ensures
        chain_walk(tombs, t, a + b) == chain_walk(tombs, chain_walk(tombs, t, a), b),
    decreases a,
{
    if a > 0 {
        lemma_walk_split(tombs, next_in_chain(tombs, t), (a - 1) as nat, b);
        assert((a + b - 1) as nat == ((a - 1) as nat + b) as nat);
    }
}

/// A chain end stays where it is.
proof fn lemma_end_fixed(tombs: Map<Txid, TxTombstone>, t: Txid, n: nat)
    requires
        chain_end(tombs, t),
    ensures
        chain_walk(tombs, t, n) == t,
    decreases n,
{
    if n > 0 {
        assert(next_in_chain(tombs, t) == t);
        lemma_end_fixed(tombs, t, (n - 1) as nat);
    }
}

/// Any chain end reached from `t` is `root_of(t)`.
pub proof fn lemma_root_unique(tombs: Map<Txid, TxTombstone>, t: Txid, n: nat)
    requires
        chain_end(tombs, chain_walk(tombs, t, n)),
    ensures
        root_of(tombs, t) == chain_walk(tombs, t, n),
{
    let m = choose|m: nat| chain_end(tombs, #[trigger] chain_walk(tombs, t, m));
    if m <= n {
        lemma_walk_split(tombs, t, m, (n - m) as nat);
        lemma_end_fixed(tombs, chain_walk(tombs, t, m), (n - m) as nat);
        assert(m + (n - m) as nat == n);
    } else {
        lemma_walk_split(tombs, t, n, (m - n) as nat);
        lemma_end_fixed(tombs, chain_walk(tombs, t, n), (m - n) as nat);
        assert(n + (m - n) as nat == m);
    }
}

/// Within `depth` levels of the tree of `t`, some replaced transaction
/// did not signal replaceability.
pub open spec fn full_below(txs: TxStore, tombs: Map<Txid, TxTombstone>, t: Txid, depth: nat) -> bool
    decreases depth,
{
    depth > 1 && exists|p: Txid|
        #[trigger] replaced_in(tombs, p, t) && (!node_source(txs, tombs, p).unwrap().1.rbf || full_below(
            txs,
            tombs,
            p,
            (depth - 1) as nat,
        ))
}

/// A tree's `full_rbf` flag is `full_below` of its root.
pub proof fn lemma_tree_full(n: RbfNode, txs: TxStore, tombs: Map<Txid, TxTombstone>, depth: nat)
    requires
        tree_ok(n, txs, tombs, depth),
    ensures
        n.full_rbf == full_below(txs, tombs, n.txid, depth),
    decreases depth,
{
    if depth > 1 {
        assert forall|i: int| 0 <= i < n.replaces@.len() implies (#[trigger] n.replaces@[i]).full_rbf
            == full_below(txs, tombs, n.replaces@[i].txid, (depth - 1) as nat) by {
            lemma_tree_full(n.replaces@[i], txs, tombs, (depth - 1) as nat);
        }
        if n.full_rbf {
            let i = choose|i: int|
                0 <= i < n.replaces@.len() && (!(#[trigger] n.replaces@[i]).rbf || n.replaces@[i].full_rbf);
            let c = n.replaces@[i];
            assert(replaced_in(tombs, c.txid, n.txid));
            assert(tree_ok(c, txs, tombs, (depth - 1) as nat));
            assert(node_fields(c, txs, tombs));
        }
        if full_below(txs, tombs, n.txid, depth) {
            let p = choose|p: Txid|
                #[trigger] replaced_in(tombs, p, n.txid) && (!node_source(txs, tombs, p).unwrap().1.rbf
                    || full_below(txs, tombs, p, (depth - 1) as nat));
            let i = choose|i: int| 0 <= i < n.replaces@.len() && (#[trigger] n.replaces@[i]).txid == p;
            assert(tree_ok(n.replaces@[i], txs, tombs, (depth - 1) as nat));
            assert(node_fields(n.replaces@[i], txs, tombs));
            assert(!n.replaces@[i].rbf || n.replaces@[i].full_rbf);
        }
    }
}

/// Levels the replacement trees are built to: one more than the number of
/// tombstones (so every predecessor of an acyclic history is reached).
pub open spec fn rbf_depth(tombs: Map<Txid, TxTombstone>) -> nat {
    if tombs.len() < usize::MAX {
        tombs.len() + 1
    } else {
        tombs.len()
    }
}

/// The roots a scan of `rr[k..]` keeps: each replacer's chain end, the
/// first time it comes up (against `seen`), when it is live or buried and,
/// with `full_only`, its tree is full-RBF.
pub open spec fn picks(
    txs: TxStore,
    tombs: Map<Txid, TxTombstone>,
    rr: Seq<(Txid, Txid)>,
    k: int,
    seen: Set<Txid>,
    full_only: bool,
) -> Seq<Txid>
    decreases rr.len() - k,
{
    if k < 0 || k >= rr.len() {
        Seq::empty()
    } else {
        let root = root_of(tombs, rr[k].1);
        if seen.contains(root) {
            picks(txs, tombs, rr, k + 1, seen, full_only)
        } else if node_source(txs, tombs, root) is Some && (!full_only || full_below(
            txs,
            tombs,
            root,
            rbf_depth(tombs),
        )) {
            seq![root] + picks(txs, tombs, rr, k + 1, seen.insert(root), full_only)
        } else {
            picks(txs, tombs, rr, k + 1, seen.insert(root), full_only)
        }
    }
}

/// `n` is the tree of `root` (built `depth` levels deep, children in the
/// graveyard's order) with live rates refreshed from `snapshot`.
pub open spec fn refreshed_tree_of(
    n: RbfNode,
    root: Txid,
    txs: TxStore,
    g: TxGraveyard,
    snapshot: Snapshot,
    depth: nat,
) -> bool {
    exists|b: RbfNode|
        #[trigger] tree_ok(b, txs, g.tombs(), depth) && tree_ordered(b, g, depth) && b.txid == root
            && rates_refreshed(b, n, snapshot)
}

/// Recent replacement trees, most recent replacement first, one per
/// terminal replacer, at most `limit`; with `full_rbf_only`, only trees
/// with a non-signalling replaced transaction.
pub fn recent_rbf_trees(state: &State, snapshot: &Snapshot, full_rbf_only: bool, limit: usize) -> (r: Vec<RbfNode>)
    requires
        state.wf(),
        snapshot.wf(),
        chains_end(state.graveyard.tombs()),
    ensures
        ({
            let tombs = state.graveyard.tombs();
            let rr = replaced_recent_first(tombs, state.graveyard.order_seq());
            let roots = picks(state.txs, tombs, rr, 0, Set::empty(), full_rbf_only);
            &&& r@.len() == (if roots.len() < limit { roots.len() } else { limit as nat })
            &&& forall|i: int|
                0 <= i < r@.len() ==> refreshed_tree_of(
                    #[trigger] r@[i],
                    roots[i],
                    state.txs,
                    state.graveyard,
                    *snapshot,
                    rbf_depth(tombs),
                )
        }),
        forall|i: int, j: int| 0 <= i < j < r@.len() ==> (#[trigger] r@[i]).txid != (#[trigger] r@[j]).txid,
        forall|i: int|
            0 <= i < r@.len() ==> {
                &&& chain_end(state.graveyard.tombs(), (#[trigger] r@[i]).txid)
                &&& exists|k: int, n: nat|
                    0 <= k < replaced_recent_first(state.graveyard.tombs(), state.graveyard.order_seq()).len()
                        && r@[i].txid == #[trigger] chain_walk(
                        state.graveyard.tombs(),
                        replaced_recent_first(state.graveyard.tombs(), state.graveyard.order_seq())[k].1,
                        n,
                    )
                &&& full_rbf_only ==> r@[i].full_rbf
            },
{
    let ghost tombs = state.graveyard.tombs();
    let ghost rr = replaced_recent_first(tombs, state.graveyard.order_seq());
    let ghost total = picks(state.txs, tombs, rr, 0, Set::empty(), full_rbf_only);
    let ghost depth_spec = rbf_depth(tombs);
    let mut out: Vec<RbfNode> = Vec::new();
    if limit == 0 {
        return out;
    }
    let pairs = state.graveyard.replaced_iter_recent_first();
    let mut seen: TxidMap<()> = txid_map_new();
    let depth = tree_depth(&state.graveyard);
    let ghost mut chosen: Seq<Txid> = Seq::empty();
    proof {
        assert(seen@.dom() =~= Set::<Txid>::empty());
        assert(total == chosen + picks(state.txs, tombs, rr, 0, seen@.dom(), full_rbf_only));
    }
    let mut k: usize = 0;
    while k < pairs.len() && out.len() < limit
        invariant
            state.wf(),
            snapshot.wf(),
            chains_end(state.graveyard.tombs()),
            tombs == state.graveyard.tombs(),
            pairs@ == rr,
            rr == replaced_recent_first(state.graveyard.tombs(), state.graveyard.order_seq()),
            depth == depth_spec,
            depth_spec == rbf_depth(tombs),
            total == picks(state.txs, tombs, rr, 0, Set::empty(), full_rbf_only),
            total == chosen + picks(state.txs, tombs, rr, k as int, seen@.dom(), full_rbf_only),
            chosen.len() == out@.len(),
            forall|i: int|
                0 <= i < out@.len() ==> refreshed_tree_of(
                    #[trigger] out@[i],
                    chosen[i],
                    state.txs,
                    state.graveyard,
                    *snapshot,
                    depth_spec,
                ),
            k <= pairs@.len(),
            out@.len() <= limit,
            forall|i: int| 0 <= i < out@.len() ==> seen@.contains_key((#[trigger] out@[i]).txid),
            forall|i: int, j: int| 0 <= i < j < out@.len() ==> (#[trigger] out@[i]).txid != (#[trigger] out@[j]).txid,
            forall|i: int|
                0 <= i < out@.len() ==> {
                    &&& chain_end(state.graveyard.tombs(), (#[trigger] out@[i]).txid)
                    &&& exists|kk: int, n: nat|
                        0 <= kk < rr.len() && out@[i].txid == #[trigger] chain_walk(
                            state.graveyard.tombs(),
                            rr[kk].1,
                            n,
                        )
                    &&& full_rbf_only ==> out@[i].full_rbf
                },
        decreases pairs.len() - k,
    {
        let by = pairs[k].1;
        proof {
            assert(ends_from(state.graveyard.tombs(), by));
        }
        let root = state.graveyard.replacement_root_of(by);
        proof {
            let n = choose|n: nat| root == #[trigger] chain_walk(tombs, by, n);
            lemma_root_unique(tombs, by, n);
        }
        let ghost seen0 = seen@.dom();
        let ghost out_before = out@;
        let fresh = match txid_map_insert(&mut seen, root, ()) {
            Some(_) => false,
            None => true,
        };
        proof {
            assert(seen@.dom() =~= seen0.insert(root));
        }
        if fresh {
            match build_rbf_node(&root, &state.txs, &state.graveyard, depth) {
                Some(node) => {
                    proof {
                        lemma_tree_full(node, state.txs, tombs, depth as nat);
                    }
                    if !full_rbf_only || node.full_rbf {
                        let ghost b = node;
                        let node = apply_snapshot_rates(node, snapshot);
                        let ghost out0 = out@;
                        out.push(node);
                        proof {
                            assert(picks(state.txs, tombs, rr, k as int, seen0, full_rbf_only) == seq![root]
                                + picks(state.txs, tombs, rr, k + 1, seen@.dom(), full_rbf_only));
                            chosen = chosen.push(root);
                            assert(total == chosen + picks(state.txs, tombs, rr, k + 1, seen@.dom(), full_rbf_only));
                            assert forall|i: int| 0 <= i < out@.len() implies refreshed_tree_of(
                                #[trigger] out@[i],
                                chosen[i],
                                state.txs,
                                state.graveyard,
                                *snapshot,
                                depth_spec,
                            ) by {
                                if i < out0.len() {
                                    assert(out@[i] == out0[i]);
                                } else {
                                    assert(tree_ok(b, state.txs, tombs, depth_spec));
                                    assert(tree_ordered(b, state.graveyard, depth_spec));
                                }
                            }
                            assert forall|i: int| 0 <= i < out@.len() implies seen@.contains_key(
                                (#[trigger] out@[i]).txid,
                            ) by {
                                if i < out0.len() {
                                    assert(out@[i] == out0[i]);
                                }
                            }
                            assert forall|i: int, j: int| 0 <= i < j < out@.len() implies (
                            #[trigger] out@[i]).txid != (#[trigger] out@[j]).txid by {
                                if j == out0.len() {
                                    assert(out@[i] == out0[i]);
                                    assert(seen0.contains(out0[i].txid));
                                } else {
                                    assert(out@[i] == out0[i] && out@[j] == out0[j]);
                                }
                            }
                            assert forall|i: int| 0 <= i < out@.len() implies {
                                &&& chain_end(state.graveyard.tombs(), (#[trigger] out@[i]).txid)
                                &&& exists|kk: int, n: nat|
                                    0 <= kk < rr.len() && out@[i].txid == #[trigger] chain_walk(
                                        state.graveyard.tombs(),
                                        rr[kk].1,
                                        n,
                                    )
                                &&& full_rbf_only ==> out@[i].full_rbf
                            } by {
                                if i < out0.len() {
                                    assert(out@[i] == out0[i]);
                                } else {
                                    assert(rr[k as int].1 == by);
                                }
                            }
                        }
                    } else {
                        proof {
                            assert(picks(state.txs, tombs, rr, k as int, seen0, full_rbf_only) == picks(
                                state.txs,
                                tombs,
                                rr,
                                k + 1,
                                seen@.dom(),
                                full_rbf_only,
                            ));
                        }
                    }
                },
                None => {
                    proof {
                        assert(picks(state.txs, tombs, rr, k as int, seen0, full_rbf_only) == picks(
                            state.txs,
                            tombs,
                            rr,
                            k + 1,
                            seen@.dom(),
                            full_rbf_only,
                        ));
                    }
                },
            }
        } else {
            proof {
                assert(seen@.dom() =~= seen0);
                assert(picks(state.txs, tombs, rr, k as int, seen0, full_rbf_only) == picks(
                    state.txs,
                    tombs,
                    rr,
                    k + 1,
                    seen@.dom(),
                    full_rbf_only,
                ));
                assert forall|i: int| 0 <= i < out@.len() implies seen@.contains_key((#[trigger] out@[i]).txid) by {
                }
            }
        }
        k += 1;
    }
    proof {
        if k >= pairs.len() {
            assert(picks(state.txs, tombs, rr, k as int, seen@.dom(), full_rbf_only) =~= Seq::<Txid>::empty());
            assert(total =~= chosen);
        }
    }
    out
}

/// Levels enough to reach every predecessor of an acyclic history: one
/// more than the number of tombstones.
fn tree_depth(graveyard: &TxGraveyard) -> (r: usize)
    ensures
        r >= 1,
        r >= graveyard.tombs().len(),
        r == rbf_depth(graveyard.tombs()),
{
    let n = graveyard.tombstones_len();
    if n < usize::MAX {
        n + 1
    } else {
        n
    }
}

} // verus!
