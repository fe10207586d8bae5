//! The decisions of one pull: which new txids to ask the node for, which
//! template entries to synthesize locally, and how the template payload is
//! folded into what the next step receives. The RPC round-trips themselves
//! stay with the caller.
use vstd::prelude::*;

use crate::fxmap::{txid_map_get, txid_map_insert, txid_map_new, TxidMap};
use crate::state::State;
use crate::tx::{MempoolEntryInfo, Transaction};
use crate::txstore::{vsize_of, TxStore};
use crate::types::Txid;

verus! {

/// Cap on the per-cycle batch of new txids, so the node never gets an
/// unbounded batch. Template-synthesized entries are not counted.
pub const MAX_TX_FETCHES_PER_CYCLE: usize = 10_000;

/// One entry of the node's block template: the full body plus the
/// weight, fee and in-pool parents the template reports for it.
#[derive(Debug, Clone)]
pub struct BlockTemplateTx {
    pub txid: Txid,
    pub weight: u64,
    pub fee: u64,
    pub depends: Vec<Txid>,
    pub tx: Transaction,
}

/// What one pull hands to the preparer.
pub struct Fetched {
    /// Union of the node's listing and the template's txids.
    pub live_txids: Vec<Txid>,
    pub new_entries: Vec<MempoolEntryInfo>,
    pub new_txs: TxidMap<Transaction>,
    /// The template's txids in template order.
    pub block_template_txids: Vec<Txid>,
}

/// Which txids to fetch, and which template entries to materialize from
/// the template payload (aligned with the template).
pub struct FetchPlan {
    pub new_txids: Vec<Txid>,
    pub synthesize: Vec<bool>,
}

pub struct Fetcher;

/// `t` is one of the template's txids.
pub open spec fn in_template(bt: Seq<BlockTemplateTx>, t: Txid) -> bool {
    exists|j: int| 0 <= j < bt.len() && (#[trigger] bt[j]).txid == t
}

/// The listed txids that are neither live already nor in the template,
/// in listing order.
pub open spec fn unknown_txids(live: Seq<Txid>, txs: TxStore, bt: Seq<BlockTemplateTx>) -> Seq<Txid>
    decreases live.len(),
{
    if live.len() == 0 {
        Seq::empty()
    } else {
        let rest = unknown_txids(live.drop_last(), txs, bt);
        let t = live.last();
        if txs.record_for(t) is Some || in_template(bt, t) {
            rest
        } else {
            rest.push(t)
        }
    }
}

/// `s` cut to at most the per-cycle cap.
pub open spec fn capped(s: Seq<Txid>) -> Seq<Txid> {
    if s.len() <= MAX_TX_FETCHES_PER_CYCLE {
        s
    } else {
        s.take(MAX_TX_FETCHES_PER_CYCLE as int)
    }
}

/// The entry synthesized for a template transaction first seen at `now`.
pub open spec fn synthesized_entry(g: BlockTemplateTx, now: u64) -> MempoolEntryInfo {
    MempoolEntryInfo {
        txid: g.txid,
        vsize: vsize_of(g.weight),
        weight: g.weight,
        fee: g.fee,
        first_seen: now,
        depends: g.depends,
    }
}

/// Entries synthesized for the flagged template positions, in template order.
pub open spec fn synthesized_entries(bt: Seq<BlockTemplateTx>, synth: Seq<bool>, now: u64) -> Seq<
    MempoolEntryInfo,
>
    decreases bt.len(),
{
    if bt.len() == 0 {
        Seq::empty()
    } else {
        let rest = synthesized_entries(bt.drop_last(), synth, now);
        if synth[bt.len() - 1] {
            rest.push(synthesized_entry(bt.last(), now))
        } else {
            rest
        }
    }
}

/// `m` with the bodies of the flagged template positions inserted, in
/// template order.
pub open spec fn with_synthesized_txs(
    m: Map<Txid, Transaction>,
    bt: Seq<BlockTemplateTx>,
    synth: Seq<bool>,
) -> Map<Txid, Transaction>
    decreases bt.len(),
{
    if bt.len() == 0 {
        m
    } else {
        let rest = with_synthesized_txs(m, bt.drop_last(), synth);
        if synth[bt.len() - 1] {
            rest.insert(bt.last().txid, bt.last().tx)
        } else {
            rest
        }
    }
}

pub open spec fn template_txids(bt: Seq<BlockTemplateTx>) -> Seq<Txid> {
    bt.map_values(|g: BlockTemplateTx| g.txid)
}

/// The unknown txids of a prefix of the listing are a prefix of those of
/// a longer prefix.
proof fn lemma_unknown_prefix(live: Seq<Txid>, txs: TxStore, bt: Seq<BlockTemplateTx>, i: int, n: int)
    requires
        0 <= i <= n <= live.len(),
    ensures
        unknown_txids(live.take(i), txs, bt).len() <= unknown_txids(live.take(n), txs, bt).len(),
        unknown_txids(live.take(n), txs, bt).take(unknown_txids(live.take(i), txs, bt).len() as int)
            =~= unknown_txids(live.take(i), txs, bt),
    decreases n - i,
{
    if i < n {
        lemma_unknown_prefix(live, txs, bt, i, n - 1);
        assert(live.take(n).drop_last() =~= live.take(n - 1));
        let a = unknown_txids(live.take(i), txs, bt);
        let b = unknown_txids(live.take(n - 1), txs, bt);
        let c = unknown_txids(live.take(n), txs, bt);
        assert(c.take(a.len() as int) =~= b.take(a.len() as int));
    } else {
        let a = unknown_txids(live.take(i), txs, bt);
        assert(a.take(a.len() as int) =~= a);
    }
}

impl Fetcher {
    /// What to fetch this cycle. `new_txids` are the listed txids that
    /// are neither live nor in the template, in listing order, capped at
    /// [`MAX_TX_FETCHES_PER_CYCLE`]; `synthesize[i]` says whether template
    /// entry `i` is not live yet and so comes from the template payload.
    pub fn plan(live_txids: &[Txid], block_template: &[BlockTemplateTx], state: &State) -> (r:
        FetchPlan)
        requires
            state.wf(),
        ensures
            r.new_txids@ == capped(unknown_txids(live_txids@, state.txs, block_template@)),
            r.synthesize@.len() == block_template@.len(),
            forall|i: int|
                0 <= i < block_template@.len() ==> #[trigger] r.synthesize@[i] == (
                state.txs.record_for(block_template@[i].txid) is None),
    {
        let mut gbt: TxidMap<()> = txid_map_new();
        let mut synthesize: Vec<bool> = Vec::new();
        let mut j: usize = 0;
        while j < block_template.len()
            invariant
                j <= block_template@.len(),
                state.wf(),
                synthesize@.len() == j,
                forall|k: int|
                    0 <= k < j ==> #[trigger] synthesize@[k] == (state.txs.record_for(
                        block_template@[k].txid,
                    ) is None),
                forall|t: Txid|
                    #[trigger] gbt@.contains_key(t) <==> exists|k: int|
                        0 <= k < j && (#[trigger] block_template@[k]).txid == t,
            decreases block_template.len() - j,
        {
            let t = block_template[j].txid;
            txid_map_insert(&mut gbt, t, ());
            synthesize.push(!state.txs.contains(&t));
            proof {
                assert forall|u: Txid| #[trigger] gbt@.contains_key(u) <==> exists|k: int|
                    0 <= k < j + 1 && (#[trigger] block_template@[k]).txid == u by {
                    if u == t {
                        assert(block_template@[j as int].txid == u);
                    }
                    if exists|k: int| 0 <= k < j + 1 && (#[trigger] block_template@[k]).txid == u {
                        let k = choose|k: int|
                            0 <= k < j + 1 && (#[trigger] block_template@[k]).txid == u;
                        if k < j {
                            assert(exists|k2: int|
                                0 <= k2 < j && (#[trigger] block_template@[k2]).txid == u);
                        }
                    }
                }
            }
            j += 1;
        }
        let ghost bt = block_template@;
        let mut new_txids: Vec<Txid> = Vec::new();
        let mut i: usize = 0;
        while i < live_txids.len() && new_txids.len() < MAX_TX_FETCHES_PER_CYCLE
            invariant
                i <= live_txids@.len(),
                state.wf(),
                bt == block_template@,
                new_txids.len() <= MAX_TX_FETCHES_PER_CYCLE,
                new_txids@ == unknown_txids(live_txids@.take(i as int), state.txs, bt),
                forall|t: Txid| #[trigger] gbt@.contains_key(t) <==> in_template(bt, t),
            decreases live_txids.len() - i,
        {
            let t = live_txids[i];
            proof {
                assert(live_txids@.take(i + 1).drop_last() =~= live_txids@.take(i as int));
                assert(live_txids@.take(i + 1).last() == t);
            }
            let known = state.txs.contains(&t);
            let listed = txid_map_get(&gbt, &t).is_some();
            if !known && !listed {
                new_txids.push(t);
            }
            i += 1;
        }
        proof {
            let all = unknown_txids(live_txids@, state.txs, bt);
            assert(live_txids@.take(live_txids@.len() as int) =~= live_txids@);
            lemma_unknown_prefix(live_txids@, state.txs, bt, i as int, live_txids@.len() as int);
            if i < live_txids@.len() {
                assert(new_txids.len() == MAX_TX_FETCHES_PER_CYCLE);
            }
        }
        FetchPlan { new_txids, synthesize }
    }

    /// Folds the template into the fetched data: every flagged template
    /// entry gets a synthesized mempool entry (vsize from weight, first
    /// seen `now`) and its body, the template order is kept as a txid
    /// list, and the live listing is extended by the template's txids.
    pub fn assemble(
        live_txids: Vec<Txid>,
        block_template: Vec<BlockTemplateTx>,
        synthesize: &[bool],
        new_entries: Vec<MempoolEntryInfo>,
        new_txs: TxidMap<Transaction>,
        now: u64,
    ) -> (r: Fetched)
        requires
            synthesize@.len() == block_template@.len(),
        ensures
            r.block_template_txids@ == template_txids(block_template@),
            r.live_txids@ == live_txids@ + template_txids(block_template@),
            r.new_entries@ == new_entries@ + synthesized_entries(block_template@, synthesize@, now),
            r.new_txs@ == with_synthesized_txs(new_txs@, block_template@, synthesize@),
    {
        let ghost bt = block_template@;
        let ghost n = bt.len();
        let mut rest = block_template;
        let mut reversed: Vec<BlockTemplateTx> = Vec::new();
        while rest.len() > 0
            invariant
                n == bt.len(),
                rest@.len() + reversed@.len() == n,
                rest@ == bt.take(rest@.len() as int),
                forall|k: int| 0 <= k < reversed@.len() ==> #[trigger] reversed@[k] == bt[n - 1 - k],
            decreases rest.len(),
        {
            let ghost before = rest@;
            let g = rest.pop().unwrap();
            proof {
                assert(g == bt[before.len() - 1]);
                assert(rest@ =~= bt.take(rest@.len() as int));
            }
            reversed.push(g);
        }
        let mut live = live_txids;
        let mut entries = new_entries;
        let mut txs = new_txs;
        let mut order: Vec<Txid> = Vec::new();
        let ghost live0 = live@;
        let ghost entries0 = entries@;
        let ghost txs0 = txs@;
        let mut k: usize = 0;
        while reversed.len() > 0
            invariant
                k + reversed@.len() == n,
                n == bt.len(),
                synthesize@.len() == n,
                forall|m: int| 0 <= m < reversed@.len() ==> #[trigger] reversed@[m] == bt[n - 1 - m],
                order@ == template_txids(bt.take(k as int)),
                live@ == live0 + template_txids(bt.take(k as int)),
                entries@ == entries0 + synthesized_entries(bt.take(k as int), synthesize@, now),
                txs@ == with_synthesized_txs(txs0, bt.take(k as int), synthesize@),
            decreases reversed.len(),
        {
            let g = reversed.pop().unwrap();
            proof {
                assert(g == bt[k as int]);
                assert(bt.take(k + 1).drop_last() =~= bt.take(k as int));
                assert(bt.take(k + 1).last() == g);
                assert(template_txids(bt.take(k + 1)) =~= template_txids(bt.take(k as int)).push(
                    g.txid,
                ));
            }
            let txid = g.txid;
            if synthesize[k] {
                let vsize = g.weight / 4 + if g.weight % 4 > 0 {
                    1u64
                } else {
                    0u64
                };
                entries.push(
                    MempoolEntryInfo {
                        txid,
                        vsize,
                        weight: g.weight,
                        fee: g.fee,
                        first_seen: now,
                        depends: g.depends,
                    },
                );
                txid_map_insert(&mut txs, txid, g.tx);
            }
            order.push(txid);
            live.push(txid);
            proof {
                assert(live@ =~= live0 + template_txids(bt.take(k + 1)));
                assert(entries@ =~= entries0 + synthesized_entries(bt.take(k + 1), synthesize@, now));
            }
            k += 1;
        }
        proof {
            assert(bt.take(n as int) =~= bt);
        }
        Fetched { live_txids: live, new_entries: entries, new_txs: txs, block_template_txids: order }
    }
}

} // verus!
