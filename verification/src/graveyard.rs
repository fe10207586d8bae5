use std::collections::VecDeque;
use std::time::Instant;

use vstd::prelude::*;

use crate::fxmap::{
    txid_map_get, txid_map_insert, txid_map_len, txid_map_new, txid_map_remove, TxidMap,
};
use crate::tx::{Transaction, TxEntry, TxRemoval};
use crate::rbf::{chains_end, ends_from};
use crate::types::{FeeRate, Txid};

verus! {

/// std's monotonic clock reading.
#[verifier::external_type_specification]
#[verifier::external_body]
pub struct ExInstant(std::time::Instant);

/// How long a tombstone is kept, in nanoseconds (one hour).
pub const RETENTION_NS: u64 = 3_600_000_000_000;

/// A transaction that left the live pool, kept for reappearance detection
/// and replacement-history queries.
#[derive(Debug, Clone)]
pub struct TxTombstone {
    pub tx: Transaction,
    pub entry: TxEntry,
    pub chunk_rate: FeeRate,
    pub removal: TxRemoval,
    /// Nanoseconds on the graveyard's clock when the tx was buried.
    pub removed_at: u64,
}

impl TxTombstone {
    /// The replacing txid, for a `Replaced` tombstone.
    pub fn replaced_by(&self) -> (r: Option<&Txid>)
        ensures
            match self.removal {
                TxRemoval::Replaced { by } => r is Some && *r.unwrap() == by,
                TxRemoval::Vanished => r is None,
            },
    {
        match &self.removal {
            TxRemoval::Replaced { by } => Some(by),
            TxRemoval::Vanished => None,
        }
    }

    pub fn txid(&self) -> (r: &Txid)
        ensures
            *r == self.entry.txid,
    {
        &self.entry.txid
    }
}

/// `p` is buried as replaced by `r`.
pub open spec fn replaced_in(tombs: Map<Txid, TxTombstone>, p: Txid, r: Txid) -> bool {
    tombs.contains_key(p) && tombs[p].removal == (TxRemoval::Replaced { by: r })
}

/// A tombstone buried at time `t` is due for eviction at time `now`.
pub open spec fn expired(now: u64, t: u64) -> bool {
    now - t >= RETENTION_NS
}

/// One step forward along the replacement chain.
pub open spec fn next_in_chain(tombs: Map<Txid, TxTombstone>, t: Txid) -> Txid {
    if tombs.contains_key(t) {
        match tombs[t].removal {
            TxRemoval::Replaced { by } => by,
            TxRemoval::Vanished => t,
        }
    } else {
        t
    }
}

/// `t` is not a `Replaced` tombstone: live, vanished, or unknown.
pub open spec fn chain_end(tombs: Map<Txid, TxTombstone>, t: Txid) -> bool {
    !(tombs.contains_key(t) && tombs[t].removal is Replaced)
}

/// `n` steps forward along the replacement chain from `t`.
pub open spec fn chain_walk(tombs: Map<Txid, TxTombstone>, t: Txid, n: nat) -> Txid
    decreases n,
{
    if n == 0 {
        t
    } else {
        chain_walk(tombs, next_in_chain(tombs, t), (n - 1) as nat)
    }
}

/// The replacement chain from `t` reaches its end within `steps` links.
pub open spec fn ends_within(tombs: Map<Txid, TxTombstone>, t: Txid, steps: nat) -> bool {
    exists|n: nat| n <= steps && chain_end(tombs, #[trigger] chain_walk(tombs, t, n))
}

/// `k` is the length of the run of expired entries at the front of `order`.
pub open spec fn is_evict_cut(order: Seq<(u64, Txid)>, now: u64, k: int) -> bool {
    &&& 0 <= k <= order.len()
    &&& forall|j: int| 0 <= j < k ==> expired(now, #[trigger] order[j].0)
    &&& k == order.len() || !expired(now, order[k].0)
}

/// `key`'s tombstone is matched by one of the first `k` entries of `order`.
pub open spec fn matched_in_prefix(
    tombs: Map<Txid, TxTombstone>,
    order: Seq<(u64, Txid)>,
    k: int,
    key: Txid,
) -> bool {
    exists|j: int| 0 <= j < k && #[trigger] order[j] == (tombs[key].removed_at, key)
}

/// The tombstones that survive popping the first `k` entries of `order`.
pub open spec fn survivors(
    tombs: Map<Txid, TxTombstone>,
    order: Seq<(u64, Txid)>,
    k: int,
) -> Map<Txid, TxTombstone> {
    Map::new(
        |key: Txid| tombs.contains_key(key) && !matched_in_prefix(tombs, order, k, key),
        |key: Txid| tombs[key],
    )
}

/// `(predecessor, replacer)` for every `Replaced` tombstone whose order
/// entry is current, most recent entry first.
pub open spec fn replaced_recent_first(
    tombs: Map<Txid, TxTombstone>,
    order: Seq<(u64, Txid)>,
) -> Seq<(Txid, Txid)>
    decreases order.len(),
{
    if order.len() == 0 {
        Seq::empty()
    } else {
        let rest = replaced_recent_first(tombs, order.drop_first());
        let t = order[0].0;
        let k = order[0].1;
        if tombs.contains_key(k) && tombs[k].removed_at == t {
            match tombs[k].removal {
                TxRemoval::Replaced { by } => rest.push((k, by)),
                TxRemoval::Vanished => rest,
            }
        } else {
            rest
        }
    }
}

/// Recently dropped transactions, retained for an hour so a reappearing
/// tx can be revived without a node round trip and replacement chains
/// can be walked.
pub struct TxGraveyard {
    tombstones: TxidMap<TxTombstone>,
    predecessors_by_replacer: TxidMap<Vec<Txid>>,
    order: VecDeque<(u64, Txid)>,
    epoch: Instant,
}

impl TxGraveyard {
    /// Buried transactions by txid.
    pub closed spec fn tombs(&self) -> Map<Txid, TxTombstone> {
        self.tombstones@
    }

    /// Burial log, oldest first: `(removed_at, txid)`. Re-burials and
    /// exhumations leave stale entries behind.
    pub closed spec fn order_seq(&self) -> Seq<(u64, Txid)> {
        self.order@
    }

    /// The graveyard's list of the transactions buried as replaced by
    /// `replacer`, in the order it keeps them.
    pub closed spec fn preds_of(&self, replacer: Txid) -> Seq<Txid> {
        if self.predecessors_by_replacer@.contains_key(replacer) {
            self.predecessors_by_replacer@[replacer]@
        } else {
            Seq::empty()
        }
    }

    /// Burial times never go backwards along the log.
    pub open spec fn order_sorted(&self) -> bool {
        forall|i: int, j: int|
            0 <= i <= j < self.order_seq().len() ==> #[trigger] self.order_seq()[i].0
                <= #[trigger] self.order_seq()[j].0
    }

    /// The internal invariant: tombstones are keyed by their own txid, the
    /// replacer index lists exactly the `Replaced` tombstones (each once,
    /// no empty lists), and every tombstone has its burial in the log.
    pub closed spec fn wf(&self) -> bool {
        let tombs = self.tombstones@;
        let preds = self.predecessors_by_replacer@;
        &&& tombs.dom().finite()
        &&& forall|k: Txid| #[trigger] tombs.contains_key(k) ==> tombs[k].entry.txid == k
        &&& forall|r: Txid|
            #[trigger] preds.contains_key(r) ==> preds[r]@.len() > 0 && preds[r]@.no_duplicates()
        &&& forall|r: Txid, p: Txid|
            preds.contains_key(r) && #[trigger] preds[r]@.contains(p) ==> replaced_in(tombs, p, r)
        &&& forall|p: Txid, r: Txid|
            #[trigger] replaced_in(tombs, p, r) ==> preds.contains_key(r) && preds[r]@.contains(p)
        &&& forall|k: Txid|
            #[trigger] tombs.contains_key(k) ==> exists|i: int|
                0 <= i < self.order@.len() && #[trigger] self.order@[i] == (tombs[k].removed_at, k)
    }

    /// A burial of `t`: the tombstone replaces any earlier one under its
    /// txid and its burial is appended to the log.
    pub open spec fn bury_effect(old_g: TxGraveyard, new_g: TxGraveyard, t: TxTombstone) -> bool {
        &&& new_g.tombs() == old_g.tombs().insert(t.entry.txid, t)
        &&& new_g.order_seq() == old_g.order_seq().push((t.removed_at, t.entry.txid))
    }

    /// Exhuming `txid`: its tombstone (if any) is handed back and removed,
    /// the log is untouched.
    pub open spec fn exhume_effect(
        old_g: TxGraveyard,
        new_g: TxGraveyard,
        txid: Txid,
        r: Option<TxTombstone>,
    ) -> bool {
        &&& r == (if old_g.tombs().contains_key(txid) {
            Some(old_g.tombs()[txid])
        } else {
            None
        })
        &&& new_g.tombs() == old_g.tombs().remove(txid)
        &&& new_g.order_seq() == old_g.order_seq()
    }

    /// An eviction pass at time `now`.
    pub open spec fn evict_effect(old_g: TxGraveyard, new_g: TxGraveyard, now: u64) -> bool {
        exists|k: int|
            #![trigger old_g.order_seq().skip(k)]
            is_evict_cut(old_g.order_seq(), now, k) && new_g.order_seq() == old_g.order_seq().skip(
                k,
            ) && new_g.tombs() == survivors(old_g.tombs(), old_g.order_seq(), k)
    }

    pub fn new() -> (g: Self)
        ensures
            g.wf(),
            g.tombs() == Map::<Txid, TxTombstone>::empty(),
            g.order_seq() == Seq::<(u64, Txid)>::empty(),
    {
        let g = TxGraveyard {
            tombstones: txid_map_new(),
            predecessors_by_replacer: txid_map_new(),
            order: VecDeque::new(),
            epoch: instant_now(),
        };
        assert(g.tombstones@ =~= Map::<Txid, TxTombstone>::empty());
        assert(g.predecessors_by_replacer@ =~= Map::<Txid, Vec<Txid>>::empty());
        g
    }

    pub fn tombstones_len(&self) -> (r: usize)
        ensures
            r == self.tombs().len(),
    {
        txid_map_len(&self.tombstones)
    }

    pub fn order_len(&self) -> (r: usize)
        ensures
            r == self.order_seq().len(),
    {
        self.order.len()
    }

    pub fn get(&self, txid: &Txid) -> (r: Option<&TxTombstone>)
        ensures
            self.tombs().contains_key(*txid) ==> r == Some(&self.tombs()[*txid]),
            !self.tombs().contains_key(*txid) ==> r is None,
    {
        txid_map_get(&self.tombstones, txid)
    }

    /// The tombstone iff the tx vanished (mined, expired or dropped);
    /// `Replaced` tombstones give `None`, since that tx will not confirm.
    pub fn get_vanished(&self, txid: &Txid) -> (r: Option<&TxTombstone>)
        ensures
            (self.tombs().contains_key(*txid) && self.tombs()[*txid].removal is Vanished) ==> r
                == Some(&self.tombs()[*txid]),
            !(self.tombs().contains_key(*txid) && self.tombs()[*txid].removal is Vanished) ==> r
                is None,
    {
        match txid_map_get(&self.tombstones, txid) {
            Some(tomb) => match tomb.removal {
                TxRemoval::Vanished => Some(tomb),
                TxRemoval::Replaced { .. } => None,
            },
            None => None,
        }
    }

    /// Follows `Replaced { by }` links to the first txid that is not a
    /// `Replaced` tombstone: live, vanished, or unknown (an intermediate
    /// link aged out).
    pub fn replacement_root_of(&self, txid: Txid) -> (r: Txid)
        requires
            exists|n: nat| chain_end(self.tombs(), #[trigger] chain_walk(self.tombs(), txid, n)),
        ensures
            chain_end(self.tombs(), r),
            exists|n: nat| r == #[trigger] chain_walk(self.tombs(), txid, n),
    {
        let ghost tombs = self.tombs();
        let ghost n0: nat = choose|n: nat| chain_end(tombs, #[trigger] chain_walk(tombs, txid, n));
        let mut cur = txid;
        let ghost mut i: nat = 0;
        loop
            invariant
                tombs == self.tombs(),
                chain_end(tombs, chain_walk(tombs, txid, n0)),
                cur == chain_walk(tombs, txid, i),
                i <= n0,
            ensures
                chain_end(tombs, cur),
                cur == chain_walk(tombs, txid, i),
            decreases n0 - i,
        {
            let next = match txid_map_get(&self.tombstones, &cur) {
                Some(tomb) => match tomb.removal {
                    TxRemoval::Replaced { by } => by,
                    TxRemoval::Vanished => {
                        break ;
                    },
                },
                None => {
                    break ;
                },
            };
            proof {
                lemma_walk_step(tombs, txid, i);
                if i == n0 {
                    assert(false);
                }
                i = i + 1;
            }
            cur = next;
        }
        cur
    }

    /// Whether the replacement chain from `txid` reaches its end within
    /// `steps` links.
    pub fn chain_ends_within(&self, txid: Txid, steps: usize) -> (r: bool)
        ensures
            r <==> ends_within(self.tombs(), txid, steps as nat),
    {
        let ghost tombs = self.tombs();
        let mut cur = txid;
        let mut i: usize = 0;
        loop
            invariant
                tombs == self.tombs(),
                i <= steps,
                cur == chain_walk(tombs, txid, i as nat),
                forall|j: nat| j < i ==> !chain_end(tombs, #[trigger] chain_walk(tombs, txid, j)),
            decreases steps - i,
        {
            let next = match txid_map_get(&self.tombstones, &cur) {
                Some(tomb) => match tomb.removal {
                    TxRemoval::Replaced { by } => by,
                    TxRemoval::Vanished => {
                        return true;
                    },
                },
                None => {
                    return true;
                },
            };
            if i == steps {
                assert forall|n: nat| n <= steps implies !chain_end(
                    tombs,
                    #[trigger] chain_walk(tombs, txid, n),
                ) by {
                    if n < i {
                    }
                }
                return false;
            }
            proof {
                lemma_walk_step(tombs, txid, i as nat);
            }
            cur = next;
            i += 1;
        }
    }

    /// Whether every replacement chain in the graveyard ends: each
    /// buried txid reaches a chain end within as many links as there are
    /// tombstones.
    pub fn chains_all_end(&self) -> (r: bool)
        requires
            self.wf(),
        ensures
            r <==> forall|t: Txid| #[trigger] ends_within(self.tombs(), t, self.tombs().len()),
            r ==> chains_end(self.tombs()),
    {
        let steps = self.tombstones_len();
        let ghost tombs = self.tombs();
        let n = self.order.len();
        let mut i: usize = 0;
        while i < n
            invariant
                tombs == self.tombs(),
                steps == tombs.len(),
                n == self.order@.len(),
                i <= n,
                forall|j: int| 0 <= j < i ==> ends_within(tombs, #[trigger] self.order@[j].1, steps as nat),
            decreases n - i,
        {
            let (_, k) = self.order[i];
            if !self.chain_ends_within(k, steps) {
                assert(!ends_within(tombs, k, tombs.len()));
                return false;
            }
            i += 1;
        }
        assert forall|t: Txid| #[trigger] ends_within(tombs, t, tombs.len()) by {
            if tombs.contains_key(t) {
                let j = choose|j: int| 0 <= j < self.order@.len() && #[trigger] self.order@[j] == (tombs[t].removed_at, t);
                assert(ends_within(tombs, self.order@[j].1, steps as nat));
            } else {
                assert(chain_walk(tombs, t, 0) == t);
            }
        }
        assert forall|t: Txid| #[trigger] ends_from(tombs, t) by {
            assert(ends_within(tombs, t, tombs.len()));
        }
        true
    }

    /// The tombstones buried as replaced by `replacer`, each once.
    pub fn predecessors_of<'a>(&'a self, replacer: &Txid) -> (r: Vec<(Txid, &'a TxTombstone)>)
        requires
            self.wf(),
        ensures
            forall|i: int|
                0 <= i < r@.len() ==> replaced_in(self.tombs(), (#[trigger] r@[i]).0, *replacer)
                    && *r@[i].1 == self.tombs()[r@[i].0],
            forall|p: Txid|
                replaced_in(self.tombs(), p, *replacer) ==> exists|i: int|
                    0 <= i < r@.len() && (#[trigger] r@[i]).0 == p,
            forall|i: int, j: int| 0 <= i < j < r@.len() ==> r@[i].0 != r@[j].0,
            r@.len() == self.preds_of(*replacer).len(),
            forall|i: int| 0 <= i < r@.len() ==> (#[trigger] r@[i]).0 == self.preds_of(*replacer)[i],
    {
        let mut out: Vec<(Txid, &'a TxTombstone)> = Vec::new();
        match txid_map_get(&self.predecessors_by_replacer, replacer) {
            None => {
                assert forall|p: Txid| !replaced_in(self.tombs(), p, *replacer) by {
                    if replaced_in(self.tombs(), p, *replacer) {
                        assert(self.predecessors_by_replacer@.contains_key(*replacer));
                    }
                }
                out
            },
            Some(list) => {
                let ghost preds = self.predecessors_by_replacer@;
                assert(list@.no_duplicates());
                let mut k: usize = 0;
                while k < list.len()
                    invariant
                        self.wf(),
                        preds == self.predecessors_by_replacer@,
                        preds.contains_key(*replacer),
                        *list == preds[*replacer],
                        list@.no_duplicates(),
                        k <= list.len(),
                        out@.len() == k,
                        forall|i: int|
                            0 <= i < k ==> (#[trigger] out@[i]).0 == list@[i] && *out@[i].1
                                == self.tombs()[list@[i]],
                    decreases list.len() - k,
                {
                    let p = list[k];
                    assert(list@.contains(p));
                    assert(replaced_in(self.tombs(), p, *replacer));
                    match txid_map_get(&self.tombstones, &p) {
                        Some(tomb) => {
                            out.push((p, tomb));
                        },
                        None => {
                            assert(false);
                        },
                    }
                    k += 1;
                }
                assert forall|p: Txid| replaced_in(self.tombs(), p, *replacer) implies exists|i: int|
                    0 <= i < out@.len() && (#[trigger] out@[i]).0 == p by {
                    assert(list@.contains(p));
                    let i = choose|i: int| 0 <= i < list@.len() && list@[i] == p;
                    assert(out@[i].0 == p);
                }
                assert forall|i: int| 0 <= i < out@.len() implies replaced_in(
                    self.tombs(),
                    (#[trigger] out@[i]).0,
                    *replacer,
                ) by {
                    assert(list@.contains(list@[i]));
                }
                out
            },
        }
    }

    /// Every current `Replaced` tombstone as `(predecessor, replacer)`,
    /// most recent burial first. Stale log entries (re-burials, earlier
    /// exhumations) are skipped by matching the burial time.
    pub fn replaced_iter_recent_first(&self) -> (r: Vec<(Txid, Txid)>)
        ensures
            r@ == replaced_recent_first(self.tombs(), self.order_seq()),
    {
        let mut out: Vec<(Txid, Txid)> = Vec::new();
        let n = self.order.len();
        let mut i: usize = n;
        let ghost order = self.order@;
        let ghost tombs = self.tombs();
        assert(order.subrange(n as int, n as int) =~= Seq::<(u64, Txid)>::empty());
        while i > 0
            invariant
                order == self.order@,
                tombs == self.tombs(),
                n == order.len(),
                i <= n,
                out@ == replaced_recent_first(tombs, order.subrange(i as int, n as int)),
            decreases i,
        {
            i -= 1;
            let (t, k) = self.order[i];
            let ghost sub = order.subrange(i as int, n as int);
            assert(sub.drop_first() =~= order.subrange(i + 1, n as int));
            assert(sub[0] == (t, k));
            match txid_map_get(&self.tombstones, &k) {
                Some(tomb) => {
                    if tomb.removed_at == t {
                        match tomb.removal {
                            TxRemoval::Replaced { by } => {
                                out.push((k, by));
                            },
                            TxRemoval::Vanished => {},
                        }
                    }
                },
                None => {},
            }
        }
        assert(order.subrange(0, n as int) =~= order);
        out
    }

    /// Buries a transaction at time `now` (nanoseconds on the graveyard's
    /// clock). A tombstone already under the same txid is replaced.
    pub fn bury_at(
        &mut self,
        tx: Transaction,
        entry: TxEntry,
        chunk_rate: FeeRate,
        removal: TxRemoval,
        now: u64,
    )
        requires
            old(self).wf(),
        ensures
            final(self).wf(),
            Self::bury_effect(
                *old(self),
                *final(self),
                (TxTombstone { tx, entry, chunk_rate, removal, removed_at: now }),
            ),
            old(self).order_sorted() && (forall|i: int|
                0 <= i < old(self).order_seq().len() ==> #[trigger] old(self).order_seq()[i].0
                    <= now) ==> final(self).order_sorted(),
            final(self).tombs().len() == old(self).tombs().len() + if old(self).tombs().contains_key(entry.txid) {
                0int
            } else {
                1int
            },
    {
        let txid = entry.txid;
        let tombstone = TxTombstone { tx, entry, chunk_rate, removal, removed_at: now };
        let ghost t = tombstone;
        let ghost old_tombs = self.tombstones@;
        let ghost old_preds = self.predecessors_by_replacer@;
        let ghost old_order = self.order@;
        let previous = txid_map_insert(&mut self.tombstones, txid, tombstone);
        let ghost mid_preds = old_preds;
        match previous {
            Some(prev) => {
                match prev.removal {
                    TxRemoval::Replaced { by } => {
                        remove_predecessor(&mut self.predecessors_by_replacer, &txid, &by);
                    },
                    TxRemoval::Vanished => {},
                }
            },
            None => {},
        }
        proof {
            mid_preds = self.predecessors_by_replacer@;
        }
        // After dropping the old link, `txid` is listed under no replacer.
        assert forall|r: Txid| #[trigger] mid_preds.contains_key(r) implies !mid_preds[r]@.contains(
            txid,
        ) by {
            if mid_preds[r]@.contains(txid) {
                assert(old_preds.contains_key(r) && old_preds[r]@.contains(txid));
                assert(replaced_in(old_tombs, txid, r));
            }
        }
        match removal {
            TxRemoval::Replaced { by } => {
                add_to_index(&mut self.predecessors_by_replacer, txid, by);
            },
            TxRemoval::Vanished => {},
        }
        self.order.push_back((now, txid));
        proof {
            let tombs = self.tombstones@;
            let preds = self.predecessors_by_replacer@;
            assert(tombs == old_tombs.insert(txid, t));
            assert forall|r: Txid, p: Txid|
                preds.contains_key(r) && #[trigger] preds[r]@.contains(p) implies replaced_in(
                tombs,
                p,
                r,
            ) by {
                if p == txid {
                } else {
                    assert(mid_preds.contains_key(r) && mid_preds[r]@.contains(p));
                    assert(old_preds.contains_key(r) && old_preds[r]@.contains(p));
                    assert(replaced_in(old_tombs, p, r));
                }
            }
            assert forall|p: Txid, r: Txid| #[trigger] replaced_in(tombs, p, r) implies preds.contains_key(
                r,
            ) && preds[r]@.contains(p) by {
                if p != txid {
                    assert(replaced_in(old_tombs, p, r));
                    assert(old_preds.contains_key(r) && old_preds[r]@.contains(p));
                    assert(mid_preds.contains_key(r) && mid_preds[r]@.contains(p));
                    let i = choose|i: int| 0 <= i < mid_preds[r]@.len() && mid_preds[r]@[i] == p;
                    assert(preds[r]@[i] == p);
                } else {
                    assert(preds[r]@[preds[r]@.len() - 1] == txid);
                }
            }
            assert forall|r: Txid| #[trigger] preds.contains_key(r) implies preds[r]@.len() > 0
                && preds[r]@.no_duplicates() by {
                if mid_preds.contains_key(r) {
                    assert(mid_preds[r]@.no_duplicates());
                }
            }
            assert forall|k: Txid| #[trigger] tombs.contains_key(k) implies exists|i: int|
                0 <= i < self.order@.len() && #[trigger] self.order@[i] == (tombs[k].removed_at, k) by {
                if k == txid {
                    assert(self.order@[old_order.len() as int] == (now, txid));
                } else {
                    let i = choose|i: int|
                        0 <= i < old_order.len() && #[trigger] old_order[i] == (
                            old_tombs[k].removed_at,
                            k,
                        );
                    assert(self.order@[i] == old_order[i]);
                }
            }
        }
    }

    /// Buries a transaction now (the graveyard's clock is read here).
    pub fn bury(&mut self, tx: Transaction, entry: TxEntry, chunk_rate: FeeRate, removal: TxRemoval)
        requires
            old(self).wf(),
        ensures
            final(self).wf(),
            exists|now: u64|
                #[trigger] Self::bury_effect(
                    *old(self),
                    *final(self),
                    (TxTombstone { tx, entry, chunk_rate, removal, removed_at: now }),
                ),
            final(self).tombs().len() == old(self).tombs().len() + if old(self).tombs().contains_key(entry.txid) {
                0int
            } else {
                1int
            },
    {
        let now = elapsed_nanos(&self.epoch);
        self.bury_at(tx, entry, chunk_rate, removal, now);
    }

    /// Removes and returns the tombstone, e.g. when the tx comes back.
    /// The burial log is left as it is; its entry goes stale.
    pub fn exhume(&mut self, txid: &Txid) -> (r: Option<TxTombstone>)
        requires
            old(self).wf(),
        ensures
            final(self).wf(),
            Self::exhume_effect(*old(self), *final(self), *txid, r),
            r is Some ==> final(self).tombs().len() + 1 == old(self).tombs().len(),
            r is None ==> final(self).tombs().len() == old(self).tombs().len(),
    {
        let ghost old_tombs = self.tombstones@;
        let ghost old_preds = self.predecessors_by_replacer@;
        let removed = txid_map_remove(&mut self.tombstones, txid);
        match removed {
            Some(tomb) => {
                match tomb.removal {
                    TxRemoval::Replaced { by } => {
                        remove_predecessor(&mut self.predecessors_by_replacer, txid, &by);
                    },
                    TxRemoval::Vanished => {},
                }
                proof {
                    lemma_index_after_removal(old_tombs, old_preds, self.tombstones@,
                        self.predecessors_by_replacer@, *txid);
                    assert forall|k: Txid| #[trigger] self.tombstones@.contains_key(k) implies exists|
                        i: int,
                    |
                        0 <= i < self.order@.len() && #[trigger] self.order@[i] == (
                            self.tombstones@[k].removed_at,
                            k,
                        ) by {
                        assert(old_tombs.contains_key(k));
                        let i = choose|i: int|
                            0 <= i < old(self).order@.len() && #[trigger] old(self).order@[i] == (
                                old_tombs[k].removed_at,
                                k,
                            );
                        assert(self.order@[i] == (self.tombstones@[k].removed_at, k));
                    }
                }
                Some(tomb)
            },
            None => {
                assert(self.tombstones@ =~= old_tombs);
                None
            },
        }
    }

    /// Drops every tombstone whose burial is at least `RETENTION_NS` old at
    /// time `now`, walking the log from the front. Log entries that no
    /// longer match their tombstone's burial time are dropped on the way
    /// without touching the tombstone.
    pub fn evict_old_at(&mut self, now: u64)
        requires
            old(self).wf(),
        ensures
            final(self).wf(),
            Self::evict_effect(*old(self), *final(self), now),
            old(self).order_sorted() ==> final(self).order_sorted(),
    {
        let ghost old_tombs = self.tombstones@;
        let ghost old_order = self.order@;
        let ghost mut k: int = 0;
        assert(old_order.skip(0) =~= old_order);
        assert(survivors(old_tombs, old_order, 0) =~= old_tombs);
        loop
            invariant
                self.wf(),
                0 <= k <= old_order.len(),
                self.order@ == old_order.skip(k),
                forall|j: int| 0 <= j < k ==> expired(now, #[trigger] old_order[j].0),
                self.tombstones@ == survivors(old_tombs, old_order, k),
            ensures
                is_evict_cut(old_order, now, k),
                self.order@ == old_order.skip(k),
                self.tombstones@ == survivors(old_tombs, old_order, k),
                self.wf(),
            decreases old_order.len() - k,
        {
            if self.order.len() == 0 {
                break ;
            }
            let (t, key) = self.order[0];
            if now.saturating_sub(t) < RETENTION_NS {
                break ;
            }
            let ghost tombs0 = self.tombstones@;
            let ghost preds0 = self.predecessors_by_replacer@;
            let ghost order0 = self.order@;
            let _ = self.order.pop_front();
            let should_remove = match txid_map_get(&self.tombstones, &key) {
                Some(tomb) => tomb.removed_at == t,
                None => false,
            };
            if should_remove {
                let removed = txid_map_remove(&mut self.tombstones, &key);
                match removed {
                    Some(tomb) => {
                        match tomb.removal {
                            TxRemoval::Replaced { by } => {
                                remove_predecessor(&mut self.predecessors_by_replacer, &key, &by);
                            },
                            TxRemoval::Vanished => {},
                        }
                    },
                    None => {},
                }
                proof {
                    lemma_index_after_removal(tombs0, preds0, self.tombstones@,
                        self.predecessors_by_replacer@, key);
                }
            }
            proof {
                assert(old_order[k] == (t, key));
                let new_k = k + 1;
                assert(self.order@ =~= old_order.skip(new_k));
                // Survivors after one more popped entry.
                assert forall|x: Txid|
                    #[trigger] matched_in_prefix(old_tombs, old_order, new_k, x) <==> (
                    matched_in_prefix(old_tombs, old_order, k, x) || (x == key
                        && old_tombs[x].removed_at == t)) by {
                    if matched_in_prefix(old_tombs, old_order, new_k, x) {
                        let j = choose|j: int|
                            0 <= j < new_k && #[trigger] old_order[j] == (
                                old_tombs[x].removed_at,
                                x,
                            );
                        if j < k {
                            assert(matched_in_prefix(old_tombs, old_order, k, x));
                        }
                    }
                    if matched_in_prefix(old_tombs, old_order, k, x) {
                        let j = choose|j: int|
                            0 <= j < k && #[trigger] old_order[j] == (old_tombs[x].removed_at, x);
                        assert(old_order[j] == (old_tombs[x].removed_at, x));
                    }
                    if x == key && old_tombs[x].removed_at == t {
                        assert(old_order[k] == (old_tombs[x].removed_at, x));
                    }
                }
                assert(self.tombstones@ =~= survivors(old_tombs, old_order, new_k));
                // Every surviving tombstone still has its burial in the log.
                assert forall|x: Txid| #[trigger] self.tombstones@.contains_key(x) implies exists|
                    i: int,
                |
                    0 <= i < self.order@.len() && #[trigger] self.order@[i] == (
                        self.tombstones@[x].removed_at,
                        x,
                    ) by {
                    assert(tombs0.contains_key(x));
                    let i = choose|i: int|
                        0 <= i < order0.len() && #[trigger] order0[i] == (tombs0[x].removed_at, x);
                    if i == 0 {
                        assert(x == key);
                        assert(false);
                    }
                    assert(self.order@[i - 1] == order0[i]);
                }
                k = new_k;
            }
        }
        proof {
            assert(old(self).order_sorted() ==> self.order_sorted()) by {
                if old(self).order_sorted() {
                    assert forall|i: int, j: int|
                        0 <= i <= j < self.order@.len() implies #[trigger] self.order@[i].0
                        <= #[trigger] self.order@[j].0 by {
                        assert(self.order@[i] == old_order[i + k]);
                        assert(self.order@[j] == old_order[j + k]);
                        assert(old(self).order_seq()[i + k].0 <= old(self).order_seq()[j + k].0);
                    }
                }
            }
        }
    }

    /// Drops tombstones older than the retention window, reading the
    /// graveyard's clock here.
    pub fn evict_old(&mut self)
        requires
            old(self).wf(),
        ensures
            final(self).wf(),
            exists|now: u64| #[trigger] Self::evict_effect(*old(self), *final(self), now),
    {
        let now = elapsed_nanos(&self.epoch);
        self.evict_old_at(now);
    }
}

/// A well-formed graveyard holds finitely many tombstones.
pub proof fn lemma_tombs_finite(g: TxGraveyard)
    requires
        g.wf(),
    ensures
        g.tombs().dom().finite(),
{
}

/// A buried tombstone is found under its txid, and exhuming it right
/// after hands back exactly that tombstone and leaves the other
/// tombstones as they were before the burial. The burial log keeps its
/// (now stale) row, the tombstone count drops by one, no replacer lists
/// the exhumed tx any more, and a second exhumation finds nothing.
pub proof fn law_bury_then_exhume(
    g0: TxGraveyard,
    g1: TxGraveyard,
    g2: TxGraveyard,
    t: TxTombstone,
    r: Option<TxTombstone>,
)
    requires
        g1.wf(),
        g2.wf(),
        TxGraveyard::bury_effect(g0, g1, t),
        TxGraveyard::exhume_effect(g1, g2, t.entry.txid, r),
    ensures
        g1.tombs().contains_key(t.entry.txid),
        g1.tombs()[t.entry.txid] == t,
        r == Some(t),
        g2.tombs() == g0.tombs().remove(t.entry.txid),
        g2.order_seq() == g0.order_seq().push((t.removed_at, t.entry.txid)),
        !g2.tombs().contains_key(t.entry.txid),
        g2.tombs().len() + 1 == g1.tombs().len(),
        forall|by: Txid| !(#[trigger] g2.preds_of(by)).contains(t.entry.txid),
        forall|g3: TxGraveyard, r2: Option<TxTombstone>|
            #[trigger] TxGraveyard::exhume_effect(g2, g3, t.entry.txid, r2) ==> r2 is None,
{
    assert(g2.tombs() =~= g0.tombs().remove(t.entry.txid));
    assert forall|by: Txid| !(#[trigger] g2.preds_of(by)).contains(t.entry.txid) by {
        if g2.predecessors_by_replacer@.contains_key(by) && g2.predecessors_by_replacer@[by]@.contains(
            t.entry.txid,
        ) {
            assert(replaced_in(g2.tombs(), t.entry.txid, by));
        }
    }
}

/// Eviction never drops a tombstone that is younger than the retention
/// window at the time of the pass.
pub proof fn law_eviction_keeps_fresh(g0: TxGraveyard, g1: TxGraveyard, now: u64, key: Txid)
    requires
        TxGraveyard::evict_effect(g0, g1, now),
        g0.tombs().contains_key(key),
        !expired(now, g0.tombs()[key].removed_at),
    ensures
        g1.tombs().contains_key(key),
        g1.tombs()[key] == g0.tombs()[key],
{
    let k = choose|k: int|
        #![trigger g0.order_seq().skip(k)]
        is_evict_cut(g0.order_seq(), now, k) && g1.order_seq() == g0.order_seq().skip(k)
            && g1.tombs() == survivors(g0.tombs(), g0.order_seq(), k);
    if matched_in_prefix(g0.tombs(), g0.order_seq(), k, key) {
        let j = choose|j: int|
            0 <= j < k && #[trigger] g0.order_seq()[j] == (g0.tombs()[key].removed_at, key);
        assert(expired(now, g0.order_seq()[j].0));
    }
}

/// With burial times in order, an eviction pass leaves no tombstone that
/// is at least the retention window old.
pub proof fn law_eviction_drops_aged(g0: TxGraveyard, g1: TxGraveyard, now: u64, key: Txid)
    requires
        g0.wf(),
        g0.order_sorted(),
        TxGraveyard::evict_effect(g0, g1, now),
        g1.tombs().contains_key(key),
    ensures
        !expired(now, g1.tombs()[key].removed_at),
{
    let k = choose|k: int|
        #![trigger g0.order_seq().skip(k)]
        is_evict_cut(g0.order_seq(), now, k) && g1.order_seq() == g0.order_seq().skip(k)
            && g1.tombs() == survivors(g0.tombs(), g0.order_seq(), k);
    let tombs = g0.tombs();
    let order = g0.order_seq();
    assert(tombs.contains_key(key));
    assert(!matched_in_prefix(tombs, order, k, key));
    let ra = tombs[key].removed_at;
    let w = choose|i: int| 0 <= i < order.len() && #[trigger] order[i] == (ra, key);
    if w < k {
        assert(matched_in_prefix(tombs, order, k, key));
    } else {
        assert(k < order.len());
        assert(order[k].0 <= order[w].0);
        assert(!expired(now, order[k].0));
    }
}

/// `Instant::now`: no claim is made about the reading.
#[verifier::external_body]
fn instant_now() -> Instant {
    Instant::now()
}

/// `Instant::elapsed` since `epoch`, in whole nanoseconds. The reading
/// depends on the clock, so nothing is claimed about it.
#[verifier::external_body]
fn elapsed_nanos(epoch: &Instant) -> u64 {
    epoch.elapsed().as_nanos() as u64
}

/// `list` without `txid`, in the same order.
fn without(list: &Vec<Txid>, txid: &Txid) -> (r: Vec<Txid>)
    ensures
        forall|x: Txid| r@.contains(x) <==> list@.contains(x) && x != *txid,
        list@.no_duplicates() ==> r@.no_duplicates(),
{
    let mut out: Vec<Txid> = Vec::new();
    let mut k: usize = 0;
    while k < list.len()
        invariant
            k <= list.len(),
            forall|x: Txid|
                out@.contains(x) <==> (exists|j: int|
                    0 <= j < k && #[trigger] list@[j] == x && x != *txid),
            list@.no_duplicates() ==> out@.no_duplicates(),
        decreases list.len() - k,
    {
        let x = list[k];
        if x != *txid {
            proof {
                if list@.no_duplicates() {
                    if out@.contains(x) {
                        let j = choose|j: int| 0 <= j < k && #[trigger] list@[j] == x && x != *txid;
                        assert(list@[j] == list@[k as int]);
                    }
                }
            }
            let ghost before = out@;
            out.push(x);
            assert forall|y: Txid| out@.contains(y) <==> (exists|j: int|
                0 <= j < k + 1 && #[trigger] list@[j] == y && y != *txid) by {
                if out@.contains(y) {
                    let i = choose|i: int| 0 <= i < out@.len() && out@[i] == y;
                    if i < before.len() {
                        assert(before.contains(y));
                    }
                }
                if exists|j: int| 0 <= j < k + 1 && #[trigger] list@[j] == y && y != *txid {
                    let j = choose|j: int| 0 <= j < k + 1 && #[trigger] list@[j] == y && y != *txid;
                    if j < k {
                        assert(before.contains(y));
                        let i = choose|i: int| 0 <= i < before.len() && before[i] == y;
                        assert(out@[i] == y);
                    } else {
                        assert(out@[before.len() as int] == y);
                    }
                }
            }
        } else {
            assert forall|y: Txid| out@.contains(y) <==> (exists|j: int|
                0 <= j < k + 1 && #[trigger] list@[j] == y && y != *txid) by {
                if exists|j: int| 0 <= j < k + 1 && #[trigger] list@[j] == y && y != *txid {
                    let j = choose|j: int| 0 <= j < k + 1 && #[trigger] list@[j] == y && y != *txid;
                    assert(j < k);
                }
            }
        }
        k += 1;
    }
    assert forall|x: Txid| out@.contains(x) <==> list@.contains(x) && x != *txid by {
        if list@.contains(x) && x != *txid {
            let j = choose|j: int| 0 <= j < list@.len() && list@[j] == x;
            assert(list@[j] == x);
        }
    }
    out
}

/// Drops `txid` from the list under `replacer`, and the list itself once
/// it is empty.
fn remove_predecessor(preds: &mut TxidMap<Vec<Txid>>, txid: &Txid, replacer: &Txid)
    ensures
        forall|r: Txid| #[trigger]
            final(preds)@.contains_key(r) ==> old(preds)@.contains_key(r),
        forall|r: Txid|
            r != *replacer && #[trigger] old(preds)@.contains_key(r) ==> final(preds)@.contains_key(r)
                && final(preds)@[r] == old(preds)@[r],
        final(preds)@.contains_key(*replacer) ==> final(preds)@[*replacer]@.len() > 0 && (forall|
            x: Txid,
        | #[trigger] final(preds)@[*replacer]@.contains(x) <==> old(preds)@[*replacer]@.contains(x)
            && x != *txid) && (old(preds)@[*replacer]@.no_duplicates()
            ==> final(preds)@[*replacer]@.no_duplicates()),
        old(preds)@.contains_key(*replacer) && !final(preds)@.contains_key(*replacer) ==> forall|
            x: Txid,
        | #[trigger] old(preds)@[*replacer]@.contains(x) ==> x == *txid,
{
    match txid_map_remove(preds, replacer) {
        Some(list) => {
            let kept = without(&list, txid);
            if kept.len() > 0 {
                txid_map_insert(preds, *replacer, kept);
            } else {
                assert forall|x: Txid| #[trigger] list@.contains(x) implies x == *txid by {
                    if x != *txid {
                        assert(kept@.contains(x));
                    }
                }
            }
        },
        None => {},
    }
}

/// Appends `txid` to the list under `replacer`, creating it if needed.
fn add_to_index(preds: &mut TxidMap<Vec<Txid>>, txid: Txid, replacer: Txid)
    ensures
        final(preds)@.contains_key(replacer),
        final(preds)@[replacer]@ == (if old(preds)@.contains_key(replacer) {
            old(preds)@[replacer]@
        } else {
            Seq::<Txid>::empty()
        }).push(txid),
        forall|r: Txid|
            r != replacer ==> (#[trigger] final(preds)@.contains_key(r) <==> old(
                preds,
            )@.contains_key(r)),
        forall|r: Txid|
            r != replacer && #[trigger] old(preds)@.contains_key(r) ==> final(preds)@[r] == old(
                preds,
            )@[r],
{
    let mut list = match txid_map_remove(preds, &replacer) {
        Some(list) => list,
        None => Vec::new(),
    };
    list.push(txid);
    txid_map_insert(preds, replacer, list);
}

proof fn lemma_walk_step(tombs: Map<Txid, TxTombstone>, t: Txid, n: nat)
    ensures
        chain_walk(tombs, t, n + 1) == next_in_chain(tombs, chain_walk(tombs, t, n)),
    decreases n,
{
    assert(chain_walk(tombs, t, n + 1) == chain_walk(tombs, next_in_chain(tombs, t), n));
    if n > 0 {
        lemma_walk_step(tombs, next_in_chain(tombs, t), (n - 1) as nat);
        assert(chain_walk(tombs, t, n) == chain_walk(
            tombs,
            next_in_chain(tombs, t),
            (n - 1) as nat,
        ));
    }
}

/// After removing `key`'s tombstone and its index link, the index still
/// lists exactly the `Replaced` tombstones.
proof fn lemma_index_after_removal(
    tombs0: Map<Txid, TxTombstone>,
    preds0: Map<Txid, Vec<Txid>>,
    tombs1: Map<Txid, TxTombstone>,
    preds1: Map<Txid, Vec<Txid>>,
    key: Txid,
)
    requires
        forall|r: Txid| #[trigger]
            preds0.contains_key(r) ==> preds0[r]@.len() > 0 && preds0[r]@.no_duplicates(),
        forall|r: Txid, p: Txid|
            preds0.contains_key(r) && #[trigger] preds0[r]@.contains(p) ==> replaced_in(tombs0, p, r),
        forall|p: Txid, r: Txid| #[trigger]
            replaced_in(tombs0, p, r) ==> preds0.contains_key(r) && preds0[r]@.contains(p),
        tombs1 == tombs0.remove(key),
        tombs0.contains_key(key),
        tombs0[key].removal is Vanished ==> preds1 == preds0,
        tombs0[key].removal is Replaced ==> {
            let replacer = tombs0[key].removal->by;
            &&& forall|r: Txid| #[trigger] preds1.contains_key(r) ==> preds0.contains_key(r)
            &&& forall|r: Txid|
                r != replacer && #[trigger] preds0.contains_key(r) ==> preds1.contains_key(r)
                    && preds1[r] == preds0[r]
            &&& preds1.contains_key(replacer) ==> preds1[replacer]@.len() > 0 && (forall|x: Txid|
                #[trigger] preds1[replacer]@.contains(x) <==> preds0[replacer]@.contains(x) && x
                    != key) && (preds0[replacer]@.no_duplicates()
                ==> preds1[replacer]@.no_duplicates())
            &&& preds0.contains_key(replacer) && !preds1.contains_key(replacer) ==> forall|x: Txid|
                #[trigger] preds0[replacer]@.contains(x) ==> x == key
        },
    ensures
        forall|r: Txid| #[trigger]
            preds1.contains_key(r) ==> preds1[r]@.len() > 0 && preds1[r]@.no_duplicates(),
        forall|r: Txid, p: Txid|
            preds1.contains_key(r) && #[trigger] preds1[r]@.contains(p) ==> replaced_in(tombs1, p, r),
        forall|p: Txid, r: Txid| #[trigger]
            replaced_in(tombs1, p, r) ==> preds1.contains_key(r) && preds1[r]@.contains(p),
{
    if tombs0[key].removal is Replaced {
        let replacer = tombs0[key].removal->by;
        assert forall|r: Txid, p: Txid|
            preds1.contains_key(r) && #[trigger] preds1[r]@.contains(p) implies replaced_in(
            tombs1,
            p,
            r,
        ) by {
            if r == replacer {
                assert(preds0[r]@.contains(p));
            } else {
                assert(preds0[r]@.contains(p));
            }
            assert(replaced_in(tombs0, p, r));
            if p == key {
                assert(tombs0[key].removal == (TxRemoval::Replaced { by: r }));
            }
        }
        assert forall|p: Txid, r: Txid| #[trigger] replaced_in(tombs1, p, r) implies preds1.contains_key(
            r,
        ) && preds1[r]@.contains(p) by {
            assert(replaced_in(tombs0, p, r));
            assert(p != key);
            if r == replacer && !preds1.contains_key(r) {
                assert(preds0[replacer]@.contains(p));
            }
        }
    } else {
        assert forall|r: Txid, p: Txid|
            preds1.contains_key(r) && #[trigger] preds1[r]@.contains(p) implies replaced_in(
            tombs1,
            p,
            r,
        ) by {
            assert(replaced_in(tombs0, p, r));
            if p == key {
                assert(tombs0[key].removal == (TxRemoval::Replaced { by: r }));
            }
        }
        assert forall|p: Txid, r: Txid| #[trigger] replaced_in(tombs1, p, r) implies preds1.contains_key(
            r,
        ) && preds1[r]@.contains(p) by {
            assert(replaced_in(tombs0, p, r));
        }
    }
}

} // verus!
