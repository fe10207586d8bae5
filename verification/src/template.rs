use std::collections::VecDeque;

use vstd::prelude::*;

use crate::fxmap::{txid_map_get, txid_map_insert, txid_map_new, TxidMap};
use crate::graveyard::TxTombstone;
use crate::snapshot::{block0_of, Snapshot};
use crate::state::State;
use crate::tx::{same_tx, Transaction};
use crate::txstore::TxStore;
use crate::types::{rate_eq, FeeRate, Txid};

verus! {

/// How many past block-0 lists are kept for template diffs.
pub const HISTORY: usize = 10;

/// The body a reader can get for `txid`: the live one, else a buried one.
pub open spec fn body_of(txs: TxStore, tombs: Map<Txid, TxTombstone>, txid: Txid) -> Option<Transaction> {
    match txs.record_for(txid) {
        Some(rec) => Some(rec.tx),
        None => if tombs.contains_key(txid) {
            Some(tombs[txid].tx)
        } else {
            None
        },
    }
}

/// A copy of the body of `txid`, live or buried.
pub fn lookup_body(state: &State, txid: &Txid) -> (r: Option<Transaction>)
    requires
        state.wf(),
    ensures
        match body_of(state.txs, state.graveyard.tombs(), *txid) {
            Some(b) => r is Some && same_tx(r.unwrap(), b),
            None => r is None,
        },
{
    match state.txs.get(txid) {
        Some(tx) => Some(tx.clone()),
        None => match state.graveyard.get(txid) {
            Some(tomb) => Some(tomb.tx.clone()),
            None => None,
        },
    }
}

/// `out` holds a copy of the body of each of `txids` that has one, in
/// order; txids with no body are skipped.
pub open spec fn bodies_of(txs: TxStore, tombs: Map<Txid, TxTombstone>, txids: Seq<Txid>, out: Seq<Transaction>) -> bool
    decreases txids.len(),
{
    if txids.len() == 0 {
        out.len() == 0
    } else {
        match body_of(txs, tombs, txids.last()) {
            Some(b) => out.len() > 0 && same_tx(out.last(), b) && bodies_of(
                txs,
                tombs,
                txids.drop_last(),
                out.drop_last(),
            ),
            None => bodies_of(txs, tombs, txids.drop_last(), out),
        }
    }
}

/// Copies of the bodies of `txids`, live or buried, in order; a txid
/// with no body anywhere is dropped.
pub fn collect_txs(state: &State, txids: &[Txid]) -> (r: Vec<Transaction>)
    requires
        state.wf(),
    ensures
        bodies_of(state.txs, state.graveyard.tombs(), txids@, r@),
{
    let mut out: Vec<Transaction> = Vec::new();
    let mut k: usize = 0;
    while k < txids.len()
        invariant
            state.wf(),
            k <= txids@.len(),
            bodies_of(state.txs, state.graveyard.tombs(), txids@.take(k as int), out@),
        decreases txids.len() - k,
    {
        let ghost out0 = out@;
        proof {
            assert(txids@.take(k + 1).drop_last() =~= txids@.take(k as int));
            assert(txids@.take(k + 1).last() == txids@[k as int]);
        }
        match lookup_body(state, &txids[k]) {
            Some(tx) => {
                out.push(tx);
                proof {
                    assert(out@.drop_last() =~= out0);
                }
            },
            None => {},
        }
        k += 1;
    }
    assert(txids@.take(txids@.len() as int) =~= txids@);
    out
}

/// One entry of a template diff, in new-template order.
pub enum BlockTemplateDiffEntry {
    /// Position in the prior template the client already has.
    Retained(u32),
    /// A transaction the client has not seen in the prior template.
    New(Transaction),
}

/// The projected next block relative to an earlier one.
pub struct BlockTemplateDiff {
    pub hash: u64,
    pub since: u64,
    pub order: Vec<BlockTemplateDiffEntry>,
    pub removed: Vec<Txid>,
}

/// Last position of `t` in `s`.
pub open spec fn last_pos(s: Seq<Txid>, t: Txid) -> Option<int>
    decreases s.len(),
{
    if s.len() == 0 {
        None
    } else if s.last() == t {
        Some(s.len() - 1)
    } else {
        last_pos(s.drop_last(), t)
    }
}

/// Positions of `cur` that make it into the diff: those in the prior
/// template or with a body to send.
pub open spec fn kept(
    past: Seq<Txid>,
    cur: Seq<Txid>,
    txs: TxStore,
    tombs: Map<Txid, TxTombstone>,
) -> Seq<int>
    decreases cur.len(),
{
    if cur.len() == 0 {
        Seq::empty()
    } else {
        let rest = kept(past, cur.drop_last(), txs, tombs);
        let t = cur.last();
        if last_pos(past, t) is Some || body_of(txs, tombs, t) is Some {
            rest.push(cur.len() - 1)
        } else {
            rest
        }
    }
}

/// Prior txids absent from `cur`, in prior order.
pub open spec fn gone(past: Seq<Txid>, cur: Seq<Txid>) -> Seq<Txid>
    decreases past.len(),
{
    if past.len() == 0 {
        Seq::empty()
    } else {
        let rest = gone(past.drop_last(), cur);
        if cur.contains(past.last()) {
            rest
        } else {
            rest.push(past.last())
        }
    }
}

/// The template diff of `cur` (the new block 0) against `past`, with
/// bodies looked up in `state`: each kept txid is `Retained` at its last
/// prior position or `New` with its body; `removed` lists prior txids no
/// longer present.
pub open spec fn diff_matches(
    order: Seq<BlockTemplateDiffEntry>,
    removed: Seq<Txid>,
    past: Seq<Txid>,
    cur: Seq<Txid>,
    txs: TxStore,
    tombs: Map<Txid, TxTombstone>,
) -> bool {
    let ks = kept(past, cur, txs, tombs);
    &&& order.len() == ks.len()
    &&& forall|m: int|
        0 <= m < ks.len() ==> {
            let t = cur[ks[m]];
            match last_pos(past, t) {
                Some(p) => order[m] == BlockTemplateDiffEntry::Retained(p as u32),
                None => match (#[trigger] order[m]) {
                    BlockTemplateDiffEntry::New(tx) => same_tx(tx, body_of(txs, tombs, t).unwrap()),
                    BlockTemplateDiffEntry::Retained(_) => false,
                },
            }
        }
    &&& removed == gone(past, cur)
}

/// The txid a diff entry stands for, given the prior template.
pub open spec fn entry_txid(e: BlockTemplateDiffEntry, past: Seq<Txid>) -> Txid {
    match e {
        BlockTemplateDiffEntry::Retained(p) => past[p as int],
        BlockTemplateDiffEntry::New(tx) => tx.txid,
    }
}

/// Every body a reader can get for a txid carries that txid.
pub open spec fn bodies_named(txs: TxStore, tombs: Map<Txid, TxTombstone>) -> bool {
    forall|t: Txid| #[trigger] body_of(txs, tombs, t) is Some ==> body_of(txs, tombs, t).unwrap().txid == t
}

proof fn lemma_last_pos(s: Seq<Txid>, t: Txid)
    ensures
        last_pos(s, t) is Some ==> 0 <= last_pos(s, t).unwrap() < s.len() && s[last_pos(s, t).unwrap()] == t,
    decreases s.len(),
{
    if s.len() > 0 && s.last() != t {
        lemma_last_pos(s.drop_last(), t);
    }
}

/// `kept` lists positions of `cur`, in increasing order, each one that
/// qualifies; when every position qualifies it lists them all.
proof fn lemma_kept(past: Seq<Txid>, cur: Seq<Txid>, txs: TxStore, tombs: Map<Txid, TxTombstone>)
    ensures
        forall|m: int| 0 <= m < kept(past, cur, txs, tombs).len() ==> 0 <= #[trigger] kept(past, cur, txs, tombs)[m] < cur.len(),
        forall|m: int| 0 <= m < kept(past, cur, txs, tombs).len() ==> last_pos(past, cur[#[trigger] kept(past, cur, txs, tombs)[m]]) is Some
            || body_of(txs, tombs, cur[kept(past, cur, txs, tombs)[m]]) is Some,
        (forall|k: int| 0 <= k < cur.len() ==> last_pos(past, #[trigger] cur[k]) is Some || body_of(txs, tombs, cur[k]) is Some)
            ==> kept(past, cur, txs, tombs) =~= Seq::new(cur.len(), |k: int| k),
    decreases cur.len(),
{
    if cur.len() > 0 {
        let pre = cur.drop_last();
        lemma_kept(past, pre, txs, tombs);
        let ks = kept(past, cur, txs, tombs);
        let kp = kept(past, pre, txs, tombs);
        assert forall|m: int| 0 <= m < ks.len() implies last_pos(past, cur[#[trigger] ks[m]]) is Some
            || body_of(txs, tombs, cur[ks[m]]) is Some by {
            if m < kp.len() {
                assert(ks[m] == kp[m]);
                assert(cur[kp[m]] == pre[kp[m]]);
            }
        }
        if forall|k: int| 0 <= k < cur.len() ==> last_pos(past, #[trigger] cur[k]) is Some || body_of(txs, tombs, cur[k]) is Some {
            assert forall|k: int| 0 <= k < pre.len() implies last_pos(past, #[trigger] pre[k]) is Some || body_of(txs, tombs, pre[k]) is Some by {
                assert(pre[k] == cur[k]);
            }
            assert(last_pos(past, cur[cur.len() - 1]) is Some || body_of(txs, tombs, cur[cur.len() - 1]) is Some);
        }
    }
}

/// Replaying a diff over the prior template (`Retained(p)` is the prior
/// txid at `p`, `New(tx)` is `tx`) gives the new template's txids at the
/// kept positions, in order; when every txid of the new template was in
/// the prior one or has a body, that is the whole new template.
pub proof fn law_diff_replays_to_current(
    order: Seq<BlockTemplateDiffEntry>,
    removed: Seq<Txid>,
    past: Seq<Txid>,
    cur: Seq<Txid>,
    txs: TxStore,
    tombs: Map<Txid, TxTombstone>,
)
    requires
        diff_matches(order, removed, past, cur, txs, tombs),
        past.len() <= u32::MAX,
        bodies_named(txs, tombs),
    ensures
        order.map_values(|e: BlockTemplateDiffEntry| entry_txid(e, past)) == kept(past, cur, txs, tombs).map_values(
            |k: int| cur[k],
        ),
        (forall|k: int| 0 <= k < cur.len() ==> last_pos(past, #[trigger] cur[k]) is Some || body_of(txs, tombs, cur[k]) is Some)
            ==> order.map_values(|e: BlockTemplateDiffEntry| entry_txid(e, past)) == cur,
{
    let ks = kept(past, cur, txs, tombs);
    lemma_kept(past, cur, txs, tombs);
    let replay = order.map_values(|e: BlockTemplateDiffEntry| entry_txid(e, past));
    assert forall|m: int| 0 <= m < replay.len() implies #[trigger] replay[m] == ks.map_values(|k: int| cur[k])[m] by {
        let t = cur[ks[m]];
        lemma_last_pos(past, t);
        match last_pos(past, t) {
            Some(p) => {
                assert(order[m] == BlockTemplateDiffEntry::Retained(p as u32));
                assert((p as u32) as int == p);
            },
            None => {
                match order[m] {
                    BlockTemplateDiffEntry::New(tx) => {
                        assert(body_of(txs, tombs, t) is Some);
                    },
                    BlockTemplateDiffEntry::Retained(_) => {},
                }
            },
        }
    }
    assert(replay =~= ks.map_values(|k: int| cur[k]));
    if forall|k: int| 0 <= k < cur.len() ==> last_pos(past, #[trigger] cur[k]) is Some || body_of(txs, tombs, cur[k]) is Some {
        assert(ks.map_values(|k: int| cur[k]) =~= cur);
    }
}

/// Builds the diff of the snapshot's block 0 against the prior block-0
/// list `past` captured for `since`, together with the live pool's
/// content revision it was built against (the diff's source is that
/// revision of `snap`).
pub fn block_template_diff_resolved(
    state: &State,
    snap: &Snapshot,
    since: u64,
    past: &[Txid],
) -> (out: (BlockTemplateDiff, u64))
    requires
        state.wf(),
        past@.len() <= u32::MAX,
        snap.blocks_seq().len() > 0 ==> forall|k: int|
            0 <= k < snap.blocks_seq()[0]@.len() ==> #[trigger] snap.blocks_seq()[0]@[k]
                < snap.txs_seq().len(),
    ensures
        out.1 == state.txs.revision(),
        out.0.hash == snap.next_block_hash,
        out.0.since == since,
        diff_matches(
            out.0.order@,
            out.0.removed@,
            past@,
            block0_of(snap.txs_seq(), snap.blocks_seq()),
            state.txs,
            state.graveyard.tombs(),
        ),
{
    let mut prior_index: TxidMap<u32> = txid_map_new();
    let mut i: usize = 0;
    while i < past.len()
        invariant
            i <= past@.len(),
            past@.len() <= u32::MAX,
            forall|t: Txid|
                #[trigger] prior_index@.contains_key(t) <==> last_pos(past@.take(i as int), t) is Some,
            forall|t: Txid|
                #[trigger] prior_index@.contains_key(t) ==> prior_index@[t] as int == last_pos(
                    past@.take(i as int),
                    t,
                ).unwrap(),
        decreases past.len() - i,
    {
        txid_map_insert(&mut prior_index, past[i], i as u32);
        assert(past@.take(i + 1).drop_last() =~= past@.take(i as int));
        i += 1;
    }
    assert(past@.take(past@.len() as int) =~= past@);
    let cur = snap.block0_txids();
    let mut current: TxidMap<()> = txid_map_new();
    let mut order: Vec<BlockTemplateDiffEntry> = Vec::new();
    let mut k: usize = 0;
    while k < cur.len()
        invariant
            state.wf(),
            k <= cur@.len(),
            forall|t: Txid|
                #[trigger] prior_index@.contains_key(t) <==> last_pos(past@, t) is Some,
            forall|t: Txid|
                #[trigger] prior_index@.contains_key(t) ==> prior_index@[t] as int == last_pos(
                    past@,
                    t,
                ).unwrap(),
            forall|t: Txid| #[trigger] current@.contains_key(t) <==> cur@.take(k as int).contains(t),
            diff_order_so_far(order@, past@, cur@.take(k as int), state.txs, state.graveyard.tombs()),
        decreases cur.len() - k,
    {
        let t = cur[k];
        txid_map_insert(&mut current, t, ());
        let ghost prev = cur@.take(k as int);
        assert(cur@.take(k + 1).drop_last() =~= prev);
        assert(cur@.take(k + 1).last() == t);
        match txid_map_get(&prior_index, &t) {
            Some(idx) => {
                order.push(BlockTemplateDiffEntry::Retained(*idx));
            },
            None => match lookup_body(state, &t) {
                Some(tx) => {
                    order.push(BlockTemplateDiffEntry::New(tx));
                },
                None => {},
            },
        }
        proof {
            let tombs = state.graveyard.tombs();
            let cur1 = cur@.take(k + 1);
            lemma_kept_prefix_shift(past@, prev, state.txs, tombs);
            lemma_kept_prefix_shift(past@, cur1, state.txs, tombs);
            let ks0 = kept(past@, prev, state.txs, tombs);
            let ks1 = kept(past@, cur1, state.txs, tombs);
            assert forall|m: int| 0 <= m < ks0.len() implies cur1[ks0[m]] == prev[ks0[m]] by {
                assert(0 <= ks0[m] < k);
            }
            if last_pos(past@, t) is Some || body_of(state.txs, tombs, t) is Some {
                assert(ks1 == ks0.push(k as int));
                assert(cur1[k as int] == t);
                assert forall|m: int| 0 <= m < ks1.len() implies #[trigger] ks1[m] == if m < ks0.len() {
                    ks0[m]
                } else {
                    k as int
                } by {
                }
            } else {
                assert(ks1 == ks0);
            }
            assert(diff_order_so_far(order@, past@, cur1, state.txs, tombs));
            assert forall|x: Txid| #[trigger] current@.contains_key(x) <==> cur@.take(k + 1).contains(x) by {
                if cur@.take(k + 1).contains(x) && x != t {
                    let j = choose|j: int| 0 <= j < k + 1 && #[trigger] cur@.take(k + 1)[j] == x;
                    assert(prev[j] == x);
                }
                if prev.contains(x) {
                    let j = choose|j: int| 0 <= j < k && #[trigger] prev[j] == x;
                    assert(cur@.take(k + 1)[j] == x);
                }
                if x == t {
                    assert(cur@.take(k + 1)[k as int] == t);
                }
            }
        }
        k += 1;
    }
    assert(cur@.take(cur@.len() as int) =~= cur@);
    let mut removed: Vec<Txid> = Vec::new();
    let mut j: usize = 0;
    while j < past.len()
        invariant
            j <= past@.len(),
            forall|t: Txid| #[trigger] current@.contains_key(t) <==> cur@.contains(t),
            removed@ == gone(past@.take(j as int), cur@),
        decreases past.len() - j,
    {
        let t = past[j];
        assert(past@.take(j + 1).drop_last() =~= past@.take(j as int));
        match txid_map_get(&current, &t) {
            Some(_) => {},
            None => {
                removed.push(t);
            },
        }
        j += 1;
    }
    assert(past@.take(past@.len() as int) =~= past@);
    (BlockTemplateDiff { hash: snap.next_block_hash, since, order, removed }, state.txs.content_revision())
}

/// `order` is the diff for the first `cur.len()` txids of the new block.
pub open spec fn diff_order_so_far(
    order: Seq<BlockTemplateDiffEntry>,
    past: Seq<Txid>,
    cur: Seq<Txid>,
    txs: TxStore,
    tombs: Map<Txid, TxTombstone>,
) -> bool {
    let ks = kept(past, cur, txs, tombs);
    &&& order.len() == ks.len()
    &&& forall|m: int|
        0 <= m < ks.len() ==> {
            let t = cur[ks[m]];
            match last_pos(past, t) {
                Some(p) => order[m] == BlockTemplateDiffEntry::Retained(p as u32),
                None => match (#[trigger] order[m]) {
                    BlockTemplateDiffEntry::New(tx) => same_tx(tx, body_of(txs, tombs, t).unwrap()),
                    BlockTemplateDiffEntry::Retained(_) => false,
                },
            }
        }
}

/// Kept positions lie inside `cur`.
proof fn lemma_kept_prefix_shift(
    past: Seq<Txid>,
    cur: Seq<Txid>,
    txs: TxStore,
    tombs: Map<Txid, TxTombstone>,
)
    ensures
        forall|m: int|
            0 <= m < kept(past, cur, txs, tombs).len() ==> 0 <= #[trigger] kept(past, cur, txs, tombs)[m]
                < cur.len(),
    decreases cur.len(),
{
    if cur.len() > 0 {
        lemma_kept_prefix_shift(past, cur.drop_last(), txs, tombs);
        let rest = kept(past, cur.drop_last(), txs, tombs);
        assert forall|m: int| 0 <= m < kept(past, cur, txs, tombs).len() implies 0 <= #[trigger] kept(
            past,
            cur,
            txs,
            tombs,
        )[m] < cur.len() by {
            if m < rest.len() {
                assert(kept(past, cur, txs, tombs)[m] == rest[m]);
            }
        }
    }
}

/// Whether the published projection can be kept as it is: nothing in
/// the pool changed, it has blocks, the fee floor is the same rate and
/// its block 0 is exactly the node's current template.
pub fn can_reuse(snapshot: &Snapshot, gbt_txids: &[Txid], min_fee: FeeRate, membership_changed: bool) -> (r: bool)
    requires
        snapshot.blocks_seq().len() > 0 ==> forall|k: int|
            0 <= k < snapshot.blocks_seq()[0]@.len() ==> #[trigger] snapshot.blocks_seq()[0]@[k]
                < snapshot.txs_seq().len(),
    ensures
        r == (!membership_changed && snapshot.blocks_seq().len() > 0 && rate_eq(snapshot.min_fee, min_fee)
            && block0_of(snapshot.txs_seq(), snapshot.blocks_seq()) == gbt_txids@),
{
    if membership_changed {
        return false;
    }
    if snapshot.blocks.len() == 0 {
        return false;
    }
    if !snapshot.min_fee.same_rate(&min_fee) {
        return false;
    }
    let block0 = snapshot.block0_txids();
    if block0.len() != gbt_txids.len() {
        return false;
    }
    let mut k: usize = 0;
    while k < block0.len()
        invariant
            k <= block0@.len(),
            block0@.len() == gbt_txids@.len(),
            block0@ == block0_of(snapshot.txs_seq(), snapshot.blocks_seq()),
            !membership_changed,
            snapshot.blocks_seq().len() > 0,
            rate_eq(snapshot.min_fee, min_fee),
            forall|j: int| 0 <= j < k ==> block0@[j] == gbt_txids@[j],
        decreases block0.len() - k,
    {
        if !(block0[k] == gbt_txids[k]) {
            assert(block0@[k as int] != gbt_txids@[k as int]);
            return false;
        }
        k += 1;
    }
    assert(block0@ =~= gbt_txids@);
    true
}

/// Past block-0 txid lists keyed by their content hash, oldest first.
pub struct BlockHistory {
    entries: VecDeque<(u64, Vec<Txid>)>,
}

/// `s` without entries under `h`, order kept.
pub open spec fn without_hash(s: Seq<(u64, Seq<Txid>)>, h: u64) -> Seq<(u64, Seq<Txid>)>
    decreases s.len(),
{
    if s.len() == 0 {
        Seq::empty()
    } else {
        let rest = without_hash(s.drop_last(), h);
        if s.last().0 == h {
            rest
        } else {
            rest.push(s.last())
        }
    }
}

/// Keeps the newest `HISTORY` entries.
pub open spec fn capped(s: Seq<(u64, Seq<Txid>)>) -> Seq<(u64, Seq<Txid>)> {
    if s.len() > HISTORY {
        s.skip(s.len() - HISTORY)
    } else {
        s
    }
}

impl BlockHistory {
    pub closed spec fn view(&self) -> Seq<(u64, Seq<Txid>)> {
        view_of(self.entries@)
    }

    /// At most `HISTORY` entries, no hash twice.
    pub open spec fn wf(&self) -> bool {
        &&& self.view().len() <= HISTORY
        &&& forall|i: int, j: int|
            0 <= i < j < self.view().len() ==> (#[trigger] self.view()[i]).0 != (
            #[trigger] self.view()[j]).0
    }

    pub fn new() -> (r: Self)
        ensures
            r.wf(),
            r.view() == Seq::<(u64, Seq<Txid>)>::empty(),
    {
        let r = BlockHistory { entries: VecDeque::new() };
        assert(r.view() =~= Seq::<(u64, Seq<Txid>)>::empty());
        r
    }

    /// Records `block0` under `hash` as the newest entry, replacing an
    /// older entry under the same hash and dropping the oldest beyond
    /// `HISTORY`.
    pub fn record(&mut self, hash: u64, block0: Vec<Txid>)
        requires
            old(self).wf(),
        ensures
            final(self).wf(),
            final(self).view() == capped(without_hash(old(self).view(), hash).push((hash, block0@))),
    {
        let ghost old_entries = self.entries@;
        let ghost old_view = self.view();
        let mut kept_entries: VecDeque<(u64, Vec<Txid>)> = VecDeque::new();
        let ghost mut n: int = 0;
        while self.entries.len() > 0
            invariant
                0 <= n <= old_entries.len(),
                self.entries@ == old_entries.skip(n),
                old_view == view_of(old_entries),
                view_of(kept_entries@) == without_hash(view_of(old_entries.take(n)), hash),
            decreases old_entries.len() - n,
        {
            let e = self.entries.pop_front().unwrap();
            proof {
                assert(old_entries.skip(n)[0] == e);
                assert(old_entries.take(n + 1) =~= old_entries.take(n).push(e));
                assert(view_of(old_entries.take(n + 1)) =~= view_of(old_entries.take(n)).push(
                    (e.0, e.1@),
                ));
                assert(view_of(old_entries.take(n + 1)).drop_last() =~= view_of(old_entries.take(n)));
                assert(self.entries@ =~= old_entries.skip(n + 1));
            }
            let ghost kv = kept_entries@;
            if e.0 != hash {
                kept_entries.push_back(e);
                assert(view_of(kept_entries@) =~= view_of(kv).push((e.0, e.1@)));
            }
            proof {
                n = n + 1;
            }
        }
        assert(old_entries.take(n) =~= old_entries);
        let ghost filtered = view_of(kept_entries@);
        let ghost kv0 = kept_entries@;
        kept_entries.push_back((hash, block0));
        let ghost full = filtered.push((hash, block0@));
        assert(view_of(kept_entries@) =~= full);
        proof {
            lemma_without_hash(old_view, hash);
        }
        let ghost mut d: int = 0;
        while kept_entries.len() > HISTORY
            invariant
                full.len() <= HISTORY + 1,
                0 <= d <= full.len(),
                view_of(kept_entries@) == full.skip(d),
                d > 0 ==> full.len() - d >= HISTORY,
            decreases kept_entries@.len(),
        {
            let ghost before = kept_entries@;
            kept_entries.pop_front();
            proof {
                assert(view_of(kept_entries@) =~= view_of(before).skip(1));
                assert(full.skip(d).skip(1) =~= full.skip(d + 1));
                d = d + 1;
            }
        }
        self.entries = kept_entries;
        proof {
            if d == 0 {
                assert(full.skip(0) =~= full);
            }
            assert(self.view() == capped(full));
            let v = self.view();
            assert forall|i: int, j: int| 0 <= i < j < v.len() implies (#[trigger] v[i]).0 != (
            #[trigger] v[j]).0 by {
                let off = if full.len() > HISTORY { full.len() - HISTORY } else { 0 };
                assert(v[i] == full[i + off]);
                assert(v[j] == full[j + off]);
            }
        }
    }

    /// The block-0 list recorded under `hash`, if still kept.
    pub fn historical_block0(&self, hash: u64) -> (r: Option<Vec<Txid>>)
        ensures
            match find_hash(self.view(), hash) {
                Some(b) => r is Some && r.unwrap()@ == b,
                None => r is None,
            },
    {
        let mut k: usize = 0;
        assert(self.view().skip(0) =~= self.view());
        while k < self.entries.len()
            invariant
                k <= self.entries@.len(),
                find_hash(self.view(), hash) == find_hash(self.view().skip(k as int), hash),
            decreases self.entries@.len() - k,
        {
            let ghost rest = self.view().skip(k as int);
            assert(rest[0] == (self.entries@[k as int].0, self.entries@[k as int].1@));
            assert(rest.drop_first() =~= self.view().skip(k + 1));
            if self.entries[k].0 == hash {
                let list = self.entries[k].1.clone();
                assert(list@ =~= self.entries@[k as int].1@);
                return Some(list);
            }
            k += 1;
        }
        None
    }
}

/// The list under the first entry with hash `h`.
pub open spec fn find_hash(s: Seq<(u64, Seq<Txid>)>, h: u64) -> Option<Seq<Txid>>
    decreases s.len(),
{
    if s.len() == 0 {
        None
    } else if s[0].0 == h {
        Some(s[0].1)
    } else {
        find_hash(s.drop_first(), h)
    }
}

spec fn view_of(s: Seq<(u64, Vec<Txid>)>) -> Seq<(u64, Seq<Txid>)> {
    s.map_values(|e: (u64, Vec<Txid>)| (e.0, e.1@))
}

/// Filtering by hash keeps only entries of `s`, none under `h`, and keeps
/// hashes distinct.
proof fn lemma_without_hash(s: Seq<(u64, Seq<Txid>)>, h: u64)
    ensures
        without_hash(s, h).len() <= s.len(),
        forall|i: int| 0 <= i < without_hash(s, h).len() ==> (#[trigger] without_hash(s, h)[i]).0 != h,
        forall|i: int|
            0 <= i < without_hash(s, h).len() ==> exists|j: int|
                0 <= j < s.len() && s[j] == #[trigger] without_hash(s, h)[i],
        (forall|i: int, j: int| 0 <= i < j < s.len() ==> (#[trigger] s[i]).0 != (#[trigger] s[j]).0)
            ==> (forall|i: int, j: int|
            0 <= i < j < without_hash(s, h).len() ==> (#[trigger] without_hash(s, h)[i]).0 != (
            #[trigger] without_hash(s, h)[j]).0),
    decreases s.len(),
{
    if s.len() > 0 {
        let dl = s.drop_last();
        lemma_without_hash(dl, h);
        let w = without_hash(s, h);
        let wd = without_hash(dl, h);
        assert forall|i: int| 0 <= i < w.len() implies exists|j: int|
            0 <= j < s.len() && s[j] == #[trigger] w[i] by {
            if i < wd.len() {
                assert(w[i] == wd[i]);
                let j = choose|j: int| 0 <= j < dl.len() && dl[j] == #[trigger] wd[i];
                assert(s[j] == dl[j]);
            } else {
                assert(s[s.len() - 1] == w[i]);
            }
        }
        if forall|i: int, j: int| 0 <= i < j < s.len() ==> (#[trigger] s[i]).0 != (#[trigger] s[j]).0 {
            assert forall|i: int, j: int| 0 <= i < j < w.len() implies (#[trigger] w[i]).0 != (
            #[trigger] w[j]).0 by {
                if j < wd.len() {
                    assert(w[i] == wd[i] && w[j] == wd[j]);
                    assert forall|a: int, b: int| 0 <= a < b < dl.len() implies (#[trigger] dl[a]).0
                        != (#[trigger] dl[b]).0 by {
                        assert(dl[a] == s[a] && dl[b] == s[b]);
                    }
                } else {
                    assert(w[i] == wd[i]);
                    let a = choose|a: int| 0 <= a < dl.len() && dl[a] == #[trigger] wd[i];
                    assert(s[a] == dl[a]);
                    assert(w[j] == s[s.len() - 1]);
                }
            }
        }
    }
}

/// After recording `b` under `h`, looking `h` up gives `b` back.
pub proof fn law_record_then_lookup(old_view: Seq<(u64, Seq<Txid>)>, h: u64, b: Seq<Txid>)
    requires
        old_view.len() <= HISTORY,
    ensures
        find_hash(capped(without_hash(old_view, h).push((h, b))), h) == Some(b),
{
    lemma_without_hash(old_view, h);
    let full = without_hash(old_view, h).push((h, b));
    let c = capped(full);
    assert(c.len() >= 1);
    assert(c[c.len() - 1] == (h, b));
    assert forall|i: int| 0 <= i < c.len() - 1 implies (#[trigger] c[i]).0 != h by {
        let off = if full.len() > HISTORY { full.len() - HISTORY } else { 0 };
        assert(c[i] == full[i + off]);
    }
    lemma_find_last(c, h, b);
}

proof fn lemma_find_last(c: Seq<(u64, Seq<Txid>)>, h: u64, b: Seq<Txid>)
    requires
        c.len() >= 1,
        c[c.len() - 1] == (h, b),
        forall|i: int| 0 <= i < c.len() - 1 ==> (#[trigger] c[i]).0 != h,
    ensures
        find_hash(c, h) == Some(b),
    decreases c.len(),
{
    if c.len() > 1 {
        let t = c.drop_first();
        assert forall|i: int| 0 <= i < t.len() - 1 implies (#[trigger] t[i]).0 != h by {
            assert(t[i] == c[i + 1]);
        }
        lemma_find_last(t, h, b);
    }
}

/// The history after recording `b` under `h`.
pub open spec fn recorded(v: Seq<(u64, Seq<Txid>)>, h: u64, b: Seq<Txid>) -> Seq<(u64, Seq<Txid>)> {
    capped(without_hash(v, h).push((h, b)))
}

/// The history after recording each entry of `later`, in order.
pub open spec fn record_all(v: Seq<(u64, Seq<Txid>)>, later: Seq<(u64, Seq<Txid>)>) -> Seq<(u64, Seq<Txid>)>
    decreases later.len(),
{
    if later.len() == 0 {
        v
    } else {
        record_all(recorded(v, later[0].0, later[0].1), later.drop_first())
    }
}

/// No entry of `s` is under `h`.
pub open spec fn lacks_hash(s: Seq<(u64, Seq<Txid>)>, h: u64) -> bool {
    forall|i: int| 0 <= i < s.len() ==> (#[trigger] s[i]).0 != h
}

/// `s` is `pre`, then the entry under `h`, then `done`, with `pre`
/// holding no entry under `h`.
spec fn split_at_hash(
    s: Seq<(u64, Seq<Txid>)>,
    h: u64,
    done: Seq<(u64, Seq<Txid>)>,
    pre: Seq<(u64, Seq<Txid>)>,
    bb: Seq<Txid>,
) -> bool {
    s == pre.push((h, bb)) + done && lacks_hash(pre, h)
}

proof fn lemma_without_hash_concat(a: Seq<(u64, Seq<Txid>)>, b: Seq<(u64, Seq<Txid>)>, x: u64)
    ensures
        without_hash(a + b, x) == without_hash(a, x) + without_hash(b, x),
    decreases b.len(),
{
    if b.len() == 0 {
        assert(a + b =~= a);
        assert(without_hash(a, x) + without_hash(b, x) =~= without_hash(a, x));
    } else {
        assert((a + b).drop_last() =~= a + b.drop_last());
        assert((a + b).last() == b.last());
        lemma_without_hash_concat(a, b.drop_last(), x);
        if b.last().0 == x {
        } else {
            assert(without_hash(a, x) + without_hash(b.drop_last(), x).push(b.last()) =~= (without_hash(a, x)
                + without_hash(b.drop_last(), x)).push(b.last()));
        }
    }
}

proof fn lemma_without_absent(s: Seq<(u64, Seq<Txid>)>, x: u64)
    requires
        lacks_hash(s, x),
    ensures
        without_hash(s, x) == s,
    decreases s.len(),
{
    if s.len() > 0 {
        assert(lacks_hash(s.drop_last(), x)) by {
            assert forall|i: int| 0 <= i < s.drop_last().len() implies (#[trigger] s.drop_last()[i]).0 != x by {
                assert(s.drop_last()[i] == s[i]);
            }
        }
        lemma_without_absent(s.drop_last(), x);
        assert(s.last().0 != x);
        assert(s.drop_last().push(s.last()) =~= s);
    }
}

proof fn lemma_lacks_find(s: Seq<(u64, Seq<Txid>)>, h: u64)
    requires
        lacks_hash(s, h),
    ensures
        find_hash(s, h) is None,
    decreases s.len(),
{
    if s.len() > 0 {
        assert(s[0].0 != h);
        assert(lacks_hash(s.drop_first(), h)) by {
            assert forall|i: int| 0 <= i < s.drop_first().len() implies (#[trigger] s.drop_first()[i]).0 != h by {
                assert(s.drop_first()[i] == s[i + 1]);
            }
        }
        lemma_lacks_find(s.drop_first(), h);
    }
}

/// Recording another hash keeps a history without `h` without it.
proof fn lemma_record_keeps_lack(s: Seq<(u64, Seq<Txid>)>, h: u64, hp: u64, bp: Seq<Txid>)
    requires
        lacks_hash(s, h),
        hp != h,
    ensures
        lacks_hash(recorded(s, hp, bp), h),
{
    lemma_without_hash(s, hp);
    let w = without_hash(s, hp);
    let full = w.push((hp, bp));
    assert(lacks_hash(full, h)) by {
        assert forall|i: int| 0 <= i < full.len() implies (#[trigger] full[i]).0 != h by {
            if i < w.len() {
                let j = choose|j: int| 0 <= j < s.len() && s[j] == #[trigger] w[i];
            }
        }
    }
    let c = capped(full);
    assert forall|i: int| 0 <= i < c.len() implies (#[trigger] c[i]).0 != h by {
        let off = if full.len() > HISTORY { full.len() - HISTORY } else { 0 };
        assert(c[i] == full[i + off]);
    }
}

/// Recording a hash that is neither `h` nor among the entries recorded
/// after `h` moves `h`'s entry one place further from the newest end, or
/// drops it.
proof fn lemma_record_ages(
    s: Seq<(u64, Seq<Txid>)>,
    h: u64,
    done: Seq<(u64, Seq<Txid>)>,
    pre: Seq<(u64, Seq<Txid>)>,
    bb: Seq<Txid>,
    hp: u64,
    bp: Seq<Txid>,
) -> (pre2: Seq<(u64, Seq<Txid>)>)
    requires
        split_at_hash(s, h, done, pre, bb),
        lacks_hash(done, h),
        lacks_hash(done, hp),
        hp != h,
    ensures
        lacks_hash(recorded(s, hp, bp), h) || split_at_hash(recorded(s, hp, bp), h, done.push((hp, bp)), pre2, bb),
{
    let mid = pre.push((h, bb));
    lemma_without_hash_concat(mid, done, hp);
    lemma_without_absent(done, hp);
    assert(mid.drop_last() =~= pre);
    let wp = without_hash(pre, hp);
    assert(without_hash(mid, hp) == wp.push((h, bb)));
    lemma_without_hash(pre, hp);
    assert(lacks_hash(wp, h)) by {
        assert forall|i: int| 0 <= i < wp.len() implies (#[trigger] wp[i]).0 != h by {
            let j = choose|j: int| 0 <= j < pre.len() && pre[j] == #[trigger] wp[i];
        }
    }
    let done2 = done.push((hp, bp));
    let full = without_hash(s, hp).push((hp, bp));
    assert(full =~= wp.push((h, bb)) + done2);
    let c = capped(full);
    if full.len() > HISTORY {
        let k = full.len() - HISTORY;
        if k <= wp.len() {
            let pre2 = wp.skip(k);
            assert(lacks_hash(pre2, h)) by {
                assert forall|i: int| 0 <= i < pre2.len() implies (#[trigger] pre2[i]).0 != h by {
                    assert(pre2[i] == wp[i + k]);
                }
            }
            assert(c =~= pre2.push((h, bb)) + done2);
            pre2
        } else {
            assert forall|i: int| 0 <= i < c.len() implies (#[trigger] c[i]).0 != h by {
                assert(c[i] == full[i + k]);
                assert(full[i + k] == done2[i + k - wp.len() - 1]);
                if i + k - wp.len() - 1 < done.len() {
                    assert(done2[i + k - wp.len() - 1] == done[i + k - wp.len() - 1]);
                }
            }
            wp
        }
    } else {
        assert(c == full);
        wp
    }
}

proof fn lemma_forget_from(
    s: Seq<(u64, Seq<Txid>)>,
    h: u64,
    done: Seq<(u64, Seq<Txid>)>,
    rest: Seq<(u64, Seq<Txid>)>,
)
    requires
        s.len() <= HISTORY,
        lacks_hash(s, h) || exists|pre: Seq<(u64, Seq<Txid>)>, bb: Seq<Txid>| split_at_hash(s, h, done, pre, bb),
        lacks_hash(done + rest, h),
        forall|i: int, j: int| 0 <= i < j < (done + rest).len() ==> (#[trigger] (done + rest)[i]).0 != (#[trigger] (done + rest)[j]).0,
        done.len() + rest.len() >= HISTORY,
    ensures
        lacks_hash(record_all(s, rest), h),
    decreases rest.len(),
{
    let all = done + rest;
    if rest.len() == 0 {
        if !lacks_hash(s, h) {
            let (pre, bb) = choose|pre: Seq<(u64, Seq<Txid>)>, bb: Seq<Txid>| split_at_hash(s, h, done, pre, bb);
            assert(s.len() == pre.len() + 1 + done.len());
        }
    } else {
        let (hp, bp) = rest[0];
        assert(all[done.len() as int] == rest[0]);
        let done2 = done.push((hp, bp));
        let rest2 = rest.drop_first();
        assert(done2 + rest2 =~= all);
        assert(lacks_hash(done, h)) by {
            assert forall|i: int| 0 <= i < done.len() implies (#[trigger] done[i]).0 != h by {
                assert(all[i] == done[i]);
            }
        }
        assert(hp != h);
        let s2 = recorded(s, hp, bp);
        assert(s2.len() <= HISTORY) by {
            lemma_without_hash(s, hp);
        }
        if lacks_hash(s, h) {
            lemma_record_keeps_lack(s, h, hp, bp);
        } else {
            let (pre, bb) = choose|pre: Seq<(u64, Seq<Txid>)>, bb: Seq<Txid>| split_at_hash(s, h, done, pre, bb);
            assert(lacks_hash(done, hp)) by {
                assert forall|i: int| 0 <= i < done.len() implies (#[trigger] done[i]).0 != hp by {
                    assert(all[i] == done[i]);
                    assert(all[i].0 != all[done.len() as int].0);
                }
            }
            let pre2 = lemma_record_ages(s, h, done, pre, bb, hp, bp);
            if !lacks_hash(s2, h) {
                assert(split_at_hash(s2, h, done2, pre2, bb));
            }
        }
        lemma_forget_from(s2, h, done2, rest2);
    }
}

/// A recorded block-0 list is forgotten once `HISTORY` further lists
/// under other hashes, no two alike, have been recorded after it: its
/// hash then finds nothing.
pub proof fn law_history_forgets_after_newer_records(
    v: Seq<(u64, Seq<Txid>)>,
    h: u64,
    b: Seq<Txid>,
    later: Seq<(u64, Seq<Txid>)>,
)
    requires
        v.len() <= HISTORY,
        later.len() >= HISTORY,
        lacks_hash(later, h),
        forall|i: int, j: int| 0 <= i < j < later.len() ==> (#[trigger] later[i]).0 != (#[trigger] later[j]).0,
    ensures
        find_hash(record_all(recorded(v, h, b), later), h) is None,
{
    let s0 = recorded(v, h, b);
    let empty = Seq::<(u64, Seq<Txid>)>::empty();
    lemma_without_hash(v, h);
    let w = without_hash(v, h);
    let full = w.push((h, b));
    assert(lacks_hash(w, h));
    if full.len() > HISTORY {
        let pre = w.skip(1);
        assert(lacks_hash(pre, h)) by {
            assert forall|i: int| 0 <= i < pre.len() implies (#[trigger] pre[i]).0 != h by {
                assert(pre[i] == w[i + 1]);
            }
        }
        assert(s0 =~= pre.push((h, b)) + empty);
        assert(split_at_hash(s0, h, empty, pre, b));
    } else {
        assert(s0 =~= w.push((h, b)) + empty);
        assert(split_at_hash(s0, h, empty, w, b));
    }
    assert(empty + later =~= later);
    lemma_forget_from(s0, h, empty, later);
    lemma_lacks_find(record_all(s0, later), h);
}

} // verus!
