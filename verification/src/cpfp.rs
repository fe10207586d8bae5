//! Child-pays-for-parent views over a snapshot's adjacency: the capped
//! directional walks (ancestors along `parents`, descendants along
//! `children`), the best descendant, and the cluster-local numbering used
//! on the wire.
use vstd::prelude::*;

use crate::fxmap::{slot_map_get, slot_map_insert, slot_map_new, SlotMap};
use crate::indexed::{fx_set_insert, fx_set_new, PrefixSet};
use crate::snapshot::{SnapTx, TxIndex};
use crate::types::{lemma_mul_u64_fits, Txid};

verus! {

/// Most entries an ancestor or descendant walk reports.
pub const CPFP_CHAIN_LIMIT: usize = 25;

/// One related transaction as reported on the wire.
#[derive(Debug, Clone, Copy)]
pub struct CpfpEntry {
    pub txid: Txid,
    pub weight: u64,
    pub fee: u64,
}

/// One cluster member as reported on the wire: its parents are given as
/// positions in the cluster's member list.
#[derive(Debug, Clone)]
pub struct CpfpClusterTx {
    pub txid: Txid,
    pub weight: u64,
    pub fee: u64,
    pub parents: Vec<u32>,
}

/// Direction of a CPFP walk.
#[derive(Debug, Clone, Copy, PartialEq, Eq, Structural)]
pub enum Walk {
    /// Along `parents`.
    Ancestors,
    /// Along `children`.
    Descendants,
}

/// Snapshot slot to position in a cluster's member list.
pub type LocalIndex = SlotMap<u32>;

/// The edges a walk in direction `dir` follows out of `t`.
pub open spec fn next_of(t: SnapTx, dir: Walk) -> Seq<TxIndex> {
    match dir {
        Walk::Ancestors => t.parents@,
        Walk::Descendants => t.children@,
    }
}

/// One step of a walk: `b` is a parent (or child) of the tx at `a`.
pub open spec fn step(txs: Seq<SnapTx>, dir: Walk, a: TxIndex, b: TxIndex) -> bool {
    a < txs.len() && next_of(txs[a as int], dir).contains(b)
}

/// `x` is the seed or one of the members found so far.
pub open spec fn covered(seed: TxIndex, members: Seq<TxIndex>, x: TxIndex) -> bool {
    x == seed || members.contains(x)
}

/// Each member is one step from the seed or from an earlier member.
pub open spec fn reached_from(txs: Seq<SnapTx>, dir: Walk, seed: TxIndex, members: Seq<TxIndex>) -> bool {
    forall|k: int|
        #![trigger members[k]]
        0 <= k < members.len() ==> step(txs, dir, seed, members[k]) || exists|m: int|
            0 <= m < k && #[trigger] step(txs, dir, members[m], members[k])
}

/// What a capped walk from `seed` returns: distinct existing transactions
/// other than the seed, each reached through the seed or earlier ones, at
/// most [`CPFP_CHAIN_LIMIT`] of them; below the cap, every transaction one
/// step from the seed or a member is itself the seed or a member.
pub open spec fn walk_result(txs: Seq<SnapTx>, dir: Walk, seed: TxIndex, members: Seq<TxIndex>) -> bool {
    &&& seed >= txs.len() ==> members.len() == 0
    &&& members.len() <= CPFP_CHAIN_LIMIT
    &&& members.no_duplicates()
    &&& !members.contains(seed)
    &&& forall|k: int| 0 <= k < members.len() ==> #[trigger] members[k] < txs.len()
    &&& reached_from(txs, dir, seed, members)
    &&& (seed < txs.len() && members.len() < CPFP_CHAIN_LIMIT) ==> forall|x: TxIndex, y: TxIndex|
        #![trigger covered(seed, members, x), step(txs, dir, x, y)]
        covered(seed, members, x) && step(txs, dir, x, y) && y < txs.len() ==> covered(
            seed,
            members,
            y,
        )
}

pub open spec fn entry_of(t: SnapTx) -> CpfpEntry {
    CpfpEntry { txid: t.txid, weight: t.weight, fee: t.fee }
}

pub open spec fn entries_of(txs: Seq<SnapTx>, members: Seq<TxIndex>) -> Seq<CpfpEntry> {
    members.map_values(|i: TxIndex| entry_of(txs[i as int]))
}

/// `a` pays strictly more per weight unit than `b`.
pub open spec fn pays_more(a: CpfpEntry, b: CpfpEntry) -> bool {
    a.fee * b.weight > b.fee * a.weight
}

/// The best entry is one of `d`, and when every weight is positive no
/// entry of `d` pays strictly more per weight than it.
pub proof fn law_best_of_pays_most(d: Seq<CpfpEntry>)
    requires
        d.len() > 0,
    ensures
        d.contains(best_of(d)),
        (forall|i: int| 0 <= i < d.len() ==> (#[trigger] d[i]).weight > 0) ==> forall|i: int|
            0 <= i < d.len() ==> !pays_more(#[trigger] d[i], best_of(d)),
    decreases d.len(),
{
    if d.len() <= 1 {
        assert(d[0] == best_of(d));
    } else {
        let init = d.drop_last();
        law_best_of_pays_most(init);
        let b = best_of(init);
        let l = d.last();
        assert(d[d.len() - 1] == l);
        if pays_more(b, l) {
            let k = choose|k: int| 0 <= k < init.len() && init[k] == b;
            assert(d[k] == b);
        }
        if forall|i: int| 0 <= i < d.len() ==> (#[trigger] d[i]).weight > 0 {
            assert forall|i: int| 0 <= i < init.len() implies (#[trigger] init[i]).weight > 0 by {
                assert(init[i] == d[i]);
            }
            let k = choose|k: int| 0 <= k < init.len() && init[k] == b;
            assert(d[k] == b);
            assert(b.weight > 0 && l.weight > 0);
            assert forall|i: int| 0 <= i < d.len() implies !pays_more(#[trigger] d[i], best_of(d)) by {
                let x = d[i];
                if i < d.len() - 1 {
                    assert(init[i] == x);
                    assert(!pays_more(x, b));
                    if !pays_more(b, l) {
                        lemma_no_more_transitive(x, b, l);
                    } else {
                        assert(best_of(d) == b);
                    }
                } else {
                    if pays_more(b, l) {
                        assert(!pays_more(l, b)) by (nonlinear_arith)
                            requires
                                b.fee * l.weight > l.fee * b.weight,
                        ;
                    }
                }
            }
        }
    }
}

/// Among entries paying as much as the best, the best is the last one:
/// an entry the best does not out-pay is the best or comes before it.
pub proof fn law_best_of_last_among_ties(d: Seq<CpfpEntry>)
    requires
        d.len() > 0,
    ensures
        forall|i: int|
            0 <= i < d.len() && !(#[trigger] pays_more(best_of(d), d[i])) ==> exists|j: int|
                i <= j < d.len() && d[j] == best_of(d),
    decreases d.len(),
{
    if d.len() > 1 {
        let init = d.drop_last();
        law_best_of_last_among_ties(init);
        let b = best_of(init);
        assert forall|i: int| 0 <= i < d.len() && !(#[trigger] pays_more(best_of(d), d[i])) implies exists|j: int|
            i <= j < d.len() && d[j] == best_of(d) by {
            if pays_more(b, d.last()) {
                if i == d.len() - 1 {
                    assert(d[i] == d.last());
                } else {
                    assert(init[i] == d[i]);
                    let j = choose|j: int| i <= j < init.len() && init[j] == b;
                    assert(d[j] == init[j]);
                }
            } else {
                assert(d[d.len() - 1] == d.last());
            }
        }
    } else {
        assert forall|i: int| 0 <= i < d.len() && !(#[trigger] pays_more(best_of(d), d[i])) implies exists|j: int|
            i <= j < d.len() && d[j] == best_of(d) by {
            assert(d[0] == best_of(d));
        }
    }
}

proof fn lemma_no_more_transitive(x: CpfpEntry, b: CpfpEntry, l: CpfpEntry)
    requires
        b.weight > 0,
        !pays_more(x, b),
        !pays_more(b, l),
    ensures
        !pays_more(x, l),
{
    let xf = x.fee as int;
    let xw = x.weight as int;
    let bf = b.fee as int;
    let bw = b.weight as int;
    let lf = l.fee as int;
    let lw = l.weight as int;
    assert(xf * lw <= lf * xw) by (nonlinear_arith)
        requires
            bw > 0,
            xw >= 0,
            lw >= 0,
            xf * bw <= bf * xw,
            bf * lw <= lf * bw,
    ;
}

/// The entry a running maximum by fee per weight ends on: a later entry
/// replaces the current best unless the best pays strictly more.
pub open spec fn best_of(d: Seq<CpfpEntry>) -> CpfpEntry
    recommends
        d.len() > 0,
    decreases d.len(),
{
    if d.len() <= 1 {
        d[0]
    } else {
        let b = best_of(d.drop_last());
        if pays_more(b, d.last()) {
            b
        } else {
            d.last()
        }
    }
}

/// Last position of `x` in `s`.
pub open spec fn last_index(s: Seq<TxIndex>, x: TxIndex) -> Option<int>
    decreases s.len(),
{
    if s.len() == 0 {
        None
    } else if s.last() == x {
        Some(s.len() - 1)
    } else {
        last_index(s.drop_last(), x)
    }
}

/// The positions in `members` of those of `parents` that are members, in
/// parent order.
pub open spec fn local_parents(parents: Seq<TxIndex>, members: Seq<TxIndex>) -> Seq<u32>
    decreases parents.len(),
{
    if parents.len() == 0 {
        Seq::empty()
    } else {
        let rest = local_parents(parents.drop_last(), members);
        match last_index(members, parents.last()) {
            Some(i) => rest.push(i as u32),
            None => rest,
        }
    }
}

proof fn lemma_last_index(s: Seq<TxIndex>, x: TxIndex)
    ensures
        last_index(s, x) is Some <==> s.contains(x),
        last_index(s, x) is Some ==> {
            let i = last_index(s, x)->0;
            &&& 0 <= i < s.len()
            &&& s[i] == x
            &&& forall|j: int| i < j < s.len() ==> s[j] != x
        },
    decreases s.len(),
{
    if s.len() > 0 {
        lemma_last_index(s.drop_last(), x);
        if s.last() != x {
            if s.contains(x) {
                let j = choose|j: int| 0 <= j < s.len() && s[j] == x;
                assert(s.drop_last()[j] == x);
            }
            if s.drop_last().contains(x) {
                let j = choose|j: int| 0 <= j < s.drop_last().len() && s.drop_last()[j] == x;
                assert(s[j] == x);
                let i = last_index(s, x)->0;
                assert forall|j2: int| i < j2 < s.len() implies s[j2] != x by {
                    if j2 < s.len() - 1 {
                        assert(s[j2] == s.drop_last()[j2]);
                    }
                }
            }
        } else {
            assert(s[s.len() - 1] == x);
        }
    }
}

/// The depth-first walk itself: pop the newest pending slot; stop once
/// [`CPFP_CHAIN_LIMIT`] members are found; skip a slot already seen;
/// otherwise mark it seen and, when it is a transaction, record it and
/// push its edges.
pub open spec fn walk_from(
    txs: Seq<SnapTx>,
    dir: Walk,
    stack: Seq<TxIndex>,
    seen: Set<u64>,
    members: Seq<TxIndex>,
) -> Seq<TxIndex>
    decreases CPFP_CHAIN_LIMIT - members.len(), stack.len(),
{
    if stack.len() == 0 || members.len() >= CPFP_CHAIN_LIMIT {
        members
    } else {
        let idx = stack.last();
        let rest = stack.drop_last();
        if seen.contains(idx as u64) {
            walk_from(txs, dir, rest, seen, members)
        } else if idx < txs.len() {
            walk_from(txs, dir, rest + next_of(txs[idx as int], dir), seen.insert(idx as u64), members.push(idx))
        } else {
            walk_from(txs, dir, rest, seen.insert(idx as u64), members)
        }
    }
}

/// The members a walk from `seed` finds, in the order it finds them.
pub open spec fn walk_members(txs: Seq<SnapTx>, dir: Walk, seed: TxIndex) -> Seq<TxIndex> {
    if seed < txs.len() {
        walk_from(txs, dir, next_of(txs[seed as int], dir), set![seed as u64], Seq::empty())
    } else {
        Seq::empty()
    }
}

/// The walk's state between two pops.
spec fn collect_inv(
    txs: Seq<SnapTx>,
    dir: Walk,
    seed: TxIndex,
    members: Seq<TxIndex>,
    stack: Seq<TxIndex>,
    visited: Set<u64>,
) -> bool {
    &&& seed < txs.len()
    &&& members.len() <= CPFP_CHAIN_LIMIT
    &&& members.no_duplicates()
    &&& !members.contains(seed)
    &&& forall|k: int| 0 <= k < members.len() ==> #[trigger] members[k] < txs.len()
    &&& forall|x: TxIndex| x < txs.len() ==> (#[trigger] visited.contains(x as u64) <==> covered(seed, members, x))
    &&& visited.contains(seed as u64)
    &&& reached_from(txs, dir, seed, members)
    &&& forall|i: int|
        0 <= i < stack.len() ==> step(txs, dir, seed, #[trigger] stack[i]) || exists|m: int|
            0 <= m < members.len() && step(txs, dir, members[m], stack[i])
    &&& forall|x: TxIndex, y: TxIndex|
        #![trigger covered(seed, members, x), step(txs, dir, x, y)]
        covered(seed, members, x) && step(txs, dir, x, y) && y < txs.len() ==> covered(
            seed,
            members,
            y,
        ) || stack.contains(y)
}

/// Pushes the walk edges out of `t` onto `stack`, in order.
fn push_edges(t: &SnapTx, dir: Walk, stack: &mut Vec<TxIndex>)
    ensures
        final(stack)@ == old(stack)@ + next_of(*t, dir),
{
    let ghost s0 = stack@;
    let edges: &Vec<TxIndex> = match dir {
        Walk::Ancestors => &t.parents,
        Walk::Descendants => &t.children,
    };
    let mut k: usize = 0;
    while k < edges.len()
        invariant
            k <= edges@.len(),
            edges@ == next_of(*t, dir),
            stack@ == s0 + edges@.take(k as int),
        decreases edges.len() - k,
    {
        stack.push(edges[k]);
        assert(edges@.take(k + 1) =~= edges@.take(k as int).push(edges@[k as int]));
        assert(stack@ =~= s0 + edges@.take(k + 1));
        k += 1;
    }
    assert(edges@.take(edges@.len() as int) =~= edges@);
}

/// Capped depth-first walk from `seed` (excluded) along parents or
/// children, reporting each transaction reached as a [`CpfpEntry`].
pub fn collect_cpfp_entries(txs: &[SnapTx], seed: TxIndex, dir: Walk) -> (r: Vec<CpfpEntry>)
    ensures
        r@ == entries_of(txs@, walk_members(txs@, dir, seed)),
        walk_result(txs@, dir, seed, walk_members(txs@, dir, seed)),
{
    if seed >= txs.len() {
        let r: Vec<CpfpEntry> = Vec::new();
        assert(r@ =~= entries_of(txs@, Seq::<TxIndex>::empty()));
        return r;
    }
    let mut visited: PrefixSet = fx_set_new();
    fx_set_insert(&mut visited, seed as u64);
    let mut out: Vec<CpfpEntry> = Vec::new();
    let ghost mut members: Seq<TxIndex> = Seq::empty();
    let mut stack: Vec<TxIndex> = Vec::new();
    push_edges(&txs[seed], dir, &mut stack);
    let ghost start = walk_members(txs@, dir, seed);
    proof {
        assert(stack@ =~= next_of(txs@[seed as int], dir));
        assert(visited@ =~= set![seed as u64]);
        assert forall|i: int| 0 <= i < stack@.len() implies step(txs@, dir, seed, #[trigger] stack@[i])
            || exists|m: int| 0 <= m < members.len() && step(txs@, dir, members[m], stack@[i]) by {
            assert(next_of(txs@[seed as int], dir)[i] == stack@[i]);
        }
        assert forall|x: TxIndex, y: TxIndex|
            #![trigger covered(seed, members, x), step(txs@, dir, x, y)]
            covered(seed, members, x) && step(txs@, dir, x, y) && y < txs@.len() implies covered(
                seed,
                members,
                y,
            ) || stack@.contains(y) by {
            assert(x == seed);
            let j = choose|j: int| 0 <= j < next_of(txs@[x as int], dir).len() && next_of(txs@[x as int], dir)[j] == y;
            assert(stack@[j] == y);
        }
    }
    while stack.len() > 0
        invariant_except_break
            collect_inv(txs@, dir, seed, members, stack@, visited@),
            out@ == entries_of(txs@, members),
            walk_from(txs@, dir, stack@, visited@, members) == start,
        ensures
            walk_result(txs@, dir, seed, members),
            out@ == entries_of(txs@, members),
            members == start,
        decreases CPFP_CHAIN_LIMIT - members.len(), stack@.len(),
    {
        let ghost stack_full = stack@;
        let idx = stack.pop().unwrap();
        proof {
            assert(stack_full[stack_full.len() - 1] == idx);
            assert forall|i: int| 0 <= i < stack@.len() implies #[trigger] stack@[i] == stack_full[i] by {}
        }
        if out.len() >= CPFP_CHAIN_LIMIT {
            proof {
                assert(walk_result(txs@, dir, seed, members));
                assert(walk_from(txs@, dir, stack_full, visited@, members) == members);
            }
            break;
        }
        proof {
            assert(stack_full.drop_last() =~= stack@);
        }
        let ghost vis0 = visited@;
        let fresh = fx_set_insert(&mut visited, idx as u64);
        if !fresh {
            proof {
                assert(visited@ =~= vis0);
                assert(walk_from(txs@, dir, stack_full, vis0, members) == walk_from(txs@, dir, stack@, vis0, members));
                assert forall|x: TxIndex, y: TxIndex|
                    #![trigger covered(seed, members, x), step(txs@, dir, x, y)]
                    covered(seed, members, x) && step(txs@, dir, x, y) && y < txs@.len() implies covered(
                        seed,
                        members,
                        y,
                    ) || stack@.contains(y) by {
                    if stack_full.contains(y) && !covered(seed, members, y) {
                        let si = choose|si: int| 0 <= si < stack_full.len() && stack_full[si] == y;
                        if si == stack_full.len() - 1 {
                            assert(vis0.contains(y as u64));
                        } else {
                            assert(stack@[si] == y);
                        }
                    }
                }
            }
            continue;
        }
        if idx < txs.len() {
            let ghost before = members;
            let t = &txs[idx];
            out.push(CpfpEntry { txid: t.txid, weight: t.weight, fee: t.fee });
            proof {
                assert(walk_from(txs@, dir, stack_full, vis0, members) == walk_from(
                    txs@,
                    dir,
                    stack@ + next_of(txs@[idx as int], dir),
                    vis0.insert(idx as u64),
                    members.push(idx),
                ));
                members = members.push(idx);
                assert(!before.contains(idx)) by {
                    if before.contains(idx) {
                        assert(covered(seed, before, idx));
                    }
                }
                assert(idx != seed);
                assert(out@ =~= entries_of(txs@, members));
            }
            let ghost stack_mid = stack@;
            push_edges(t, dir, &mut stack);
            proof {
                assert(members.no_duplicates()) by {
                    assert forall|a: int, b: int| 0 <= a < b < members.len() implies members[a] != members[b] by {
                        if b == members.len() - 1 {
                            assert(before.contains(before[a]));
                        }
                    }
                }
                assert forall|k: int| 0 <= k < members.len() implies #[trigger] members[k] < txs@.len() by {
                    if k < before.len() {
                        assert(members[k] == before[k]);
                    }
                }
                assert(!members.contains(seed)) by {
                    if members.contains(seed) {
                        let k = choose|k: int| 0 <= k < members.len() && members[k] == seed;
                        if k < before.len() {
                            assert(before[k] == seed);
                        }
                    }
                }
                assert forall|x: TxIndex| x < txs@.len() implies (#[trigger] visited@.contains(x as u64)
                    <==> covered(seed, members, x)) by {
                    if x == idx {
                        assert(members[members.len() - 1] == idx);
                    } else {
                        if before.contains(x) {
                            let k = choose|k: int| 0 <= k < before.len() && before[k] == x;
                            assert(members[k] == x);
                        }
                        if members.contains(x) {
                            let k = choose|k: int| 0 <= k < members.len() && members[k] == x;
                            assert(before[k] == x);
                        }
                    }
                }
                // the new member came off the stack, so it is one step from
                // the seed or an earlier member
                assert forall|k: int|
                    #![trigger members[k]]
                    0 <= k < members.len() implies step(txs@, dir, seed, members[k]) || exists|m: int|
                        0 <= m < k && #[trigger] step(txs@, dir, members[m], members[k]) by {
                    if k < before.len() {
                        assert(members[k] == before[k]);
                        if !step(txs@, dir, seed, before[k]) {
                            let m = choose|m: int| 0 <= m < k && #[trigger] step(txs@, dir, before[m], before[k]);
                            assert(members[m] == before[m]);
                        }
                    } else {
                        if !step(txs@, dir, seed, idx) {
                            let m = choose|m: int| 0 <= m < before.len() && step(txs@, dir, before[m], idx);
                            assert(members[m] == before[m]);
                            assert(step(txs@, dir, members[m], members[k]));
                        }
                    }
                }
                assert forall|i: int| 0 <= i < stack@.len() implies step(txs@, dir, seed, #[trigger] stack@[i])
                    || exists|m: int| 0 <= m < members.len() && step(txs@, dir, members[m], stack@[i]) by {
                    if i < stack_mid.len() {
                        assert(stack@[i] == stack_full[i]);
                        if !step(txs@, dir, seed, stack@[i]) {
                            let m = choose|m: int| 0 <= m < before.len() && step(txs@, dir, before[m], stack_full[i]);
                            assert(members[m] == before[m]);
                        }
                    } else {
                        assert(next_of(txs@[idx as int], dir)[i - stack_mid.len()] == stack@[i]);
                        assert(step(txs@, dir, members[members.len() - 1], stack@[i]));
                    }
                }
                assert forall|x: TxIndex, y: TxIndex|
                    #![trigger covered(seed, members, x), step(txs@, dir, x, y)]
                    covered(seed, members, x) && step(txs@, dir, x, y) && y < txs@.len() implies covered(
                        seed,
                        members,
                        y,
                    ) || stack@.contains(y) by {
                    if x == idx {
                        let j = choose|j: int| 0 <= j < next_of(txs@[x as int], dir).len() && next_of(txs@[x as int], dir)[j] == y;
                        assert(stack@[stack_mid.len() + j] == y);
                    } else {
                        assert(covered(seed, before, x)) by {
                            if members.contains(x) {
                                let k = choose|k: int| 0 <= k < members.len() && members[k] == x;
                                assert(before[k] == x);
                            }
                        }
                        if covered(seed, before, y) {
                            if before.contains(y) {
                                let k = choose|k: int| 0 <= k < before.len() && before[k] == y;
                                assert(members[k] == y);
                            }
                        } else if y == idx {
                            assert(members[members.len() - 1] == y);
                        } else {
                            let si = choose|si: int| 0 <= si < stack_full.len() && stack_full[si] == y;
                            assert(si != stack_full.len() - 1);
                            assert(stack@[si] == y);
                        }
                    }
                }
            }
        } else {
            proof {
                assert(walk_from(txs@, dir, stack_full, vis0, members) == walk_from(
                    txs@,
                    dir,
                    stack@,
                    vis0.insert(idx as u64),
                    members,
                ));
                assert forall|x: TxIndex| x < txs@.len() implies (#[trigger] visited@.contains(x as u64)
                    <==> covered(seed, members, x)) by {
                    assert(x as u64 != idx as u64);
                }
                assert forall|x: TxIndex, y: TxIndex|
                    #![trigger covered(seed, members, x), step(txs@, dir, x, y)]
                    covered(seed, members, x) && step(txs@, dir, x, y) && y < txs@.len() implies covered(
                        seed,
                        members,
                        y,
                    ) || stack@.contains(y) by {
                    if !covered(seed, members, y) {
                        let si = choose|si: int| 0 <= si < stack_full.len() && stack_full[si] == y;
                        assert(si != stack_full.len() - 1);
                        assert(stack@[si] == y);
                    }
                }
            }
        }
    }
    out
}

/// The descendant a running maximum by fee per weight ends on (ties go
/// to the later entry), or `None` for no descendants.
pub fn best_descendant(descendants: &[CpfpEntry]) -> (r: Option<CpfpEntry>)
    ensures
        descendants@.len() == 0 ==> r is None,
        descendants@.len() > 0 ==> r == Some(best_of(descendants@)),
        r is Some ==> descendants@.contains(r.unwrap()),
        r is Some && (forall|i: int| 0 <= i < descendants@.len() ==> (#[trigger] descendants@[i]).weight > 0)
            ==> forall|i: int| 0 <= i < descendants@.len() ==> !pays_more(#[trigger] descendants@[i], r.unwrap()),
        r is Some ==> forall|i: int|
            0 <= i < descendants@.len() && !(#[trigger] pays_more(r.unwrap(), descendants@[i])) ==> exists|j: int|
                i <= j < descendants@.len() && descendants@[j] == r.unwrap(),
{
    if descendants.len() == 0 {
        return None;
    }
    let mut best = descendants[0];
    let mut k: usize = 1;
    assert(descendants@.take(1).drop_last().len() == 0);
    while k < descendants.len()
        invariant
            1 <= k <= descendants@.len(),
            best == best_of(descendants@.take(k as int)),
        decreases descendants.len() - k,
    {
        let e = descendants[k];
        proof {
            lemma_mul_u64_fits(best.fee, e.weight);
            lemma_mul_u64_fits(e.fee, best.weight);
            assert(descendants@.take(k + 1).drop_last() =~= descendants@.take(k as int));
        }
        if !((best.fee as u128) * (e.weight as u128) > (e.fee as u128) * (best.weight as u128)) {
            best = e;
        }
        k += 1;
    }
    assert(descendants@.take(descendants@.len() as int) =~= descendants@);
    proof {
        law_best_of_pays_most(descendants@);
        law_best_of_last_among_ties(descendants@);
    }
    Some(best)
}

/// Each member's position in `members`, keyed by its snapshot slot (the
/// last position when a slot occurs twice).
pub fn local_index(members: &[TxIndex]) -> (r: LocalIndex)
    ensures
        forall|x: TxIndex| #[trigger] r@.contains_key(x) <==> members@.contains(x),
        forall|x: TxIndex| #[trigger] r@.contains_key(x) ==> r@[x] == (last_index(members@, x)->0) as u32,
{
    let mut m = slot_map_new();
    let mut i: usize = 0;
    while i < members.len()
        invariant
            i <= members@.len(),
            forall|x: TxIndex| #[trigger] m@.contains_key(x) <==> members@.take(i as int).contains(x),
            forall|x: TxIndex|
                #[trigger] m@.contains_key(x) ==> m@[x] == (last_index(members@.take(i as int), x)->0) as u32,
        decreases members.len() - i,
    {
        let x = members[i];
        slot_map_insert(&mut m, x, i as u32);
        proof {
            let pre = members@.take(i as int);
            let cur = members@.take(i + 1);
            assert(cur.drop_last() =~= pre);
            assert(cur.last() == x);
            assert forall|y: TxIndex| #[trigger] m@.contains_key(y) <==> cur.contains(y) by {
                if y == x {
                    assert(cur[i as int] == y);
                } else {
                    if pre.contains(y) {
                        let j = choose|j: int| 0 <= j < pre.len() && pre[j] == y;
                        assert(cur[j] == y);
                    }
                    if cur.contains(y) {
                        let j = choose|j: int| 0 <= j < cur.len() && cur[j] == y;
                        assert(pre[j] == y);
                    }
                }
            }
        }
        i += 1;
    }
    assert(members@.take(members@.len() as int) =~= members@);
    m
}

/// Wire shape of a cluster: for each member, its identity, weight, fee and
/// the positions of its in-cluster parents.
pub fn wire_cluster_members(txs: &[SnapTx], members: &[TxIndex]) -> (r: Vec<CpfpClusterTx>)
    requires
        forall|k: int| 0 <= k < members@.len() ==> #[trigger] members@[k] < txs@.len(),
    ensures
        r@.len() == members@.len(),
        forall|k: int|
            0 <= k < members@.len() ==> {
                let t = #[trigger] txs@[members@[k] as int];
                &&& r@[k].txid == t.txid
                &&& r@[k].weight == t.weight
                &&& r@[k].fee == t.fee
                &&& r@[k].parents@ == local_parents(t.parents@, members@)
            },
{
    let local_of = local_index(members);
    let mut out: Vec<CpfpClusterTx> = Vec::new();
    let mut k: usize = 0;
    while k < members.len()
        invariant
            k <= members@.len(),
            out@.len() == k,
            forall|j: int| 0 <= j < members@.len() ==> #[trigger] members@[j] < txs@.len(),
            forall|x: TxIndex| #[trigger] local_of@.contains_key(x) <==> members@.contains(x),
            forall|x: TxIndex|
                #[trigger] local_of@.contains_key(x) ==> local_of@[x] == (last_index(members@, x)->0) as u32,
            forall|j: int|
                0 <= j < k ==> {
                    let t = #[trigger] txs@[members@[j] as int];
                    &&& out@[j].txid == t.txid
                    &&& out@[j].weight == t.weight
                    &&& out@[j].fee == t.fee
                    &&& out@[j].parents@ == local_parents(t.parents@, members@)
                },
        decreases members.len() - k,
    {
        let t = &txs[members[k]];
        let mut parents: Vec<u32> = Vec::new();
        let mut p: usize = 0;
        while p < t.parents.len()
            invariant
                p <= t.parents@.len(),
                forall|x: TxIndex| #[trigger] local_of@.contains_key(x) <==> members@.contains(x),
                forall|x: TxIndex|
                    #[trigger] local_of@.contains_key(x) ==> local_of@[x] == (last_index(members@, x)->0) as u32,
                parents@ == local_parents(t.parents@.take(p as int), members@),
            decreases t.parents.len() - p,
        {
            let q = t.parents[p];
            proof {
                lemma_last_index(members@, q);
                assert(t.parents@.take(p + 1).drop_last() =~= t.parents@.take(p as int));
                assert(t.parents@.take(p + 1).last() == q);
            }
            match slot_map_get(&local_of, &q) {
                Some(i) => parents.push(*i),
                None => {},
            }
            p += 1;
        }
        assert(t.parents@.take(t.parents@.len() as int) =~= t.parents@);
        out.push(CpfpClusterTx { txid: t.txid, weight: t.weight, fee: t.fee, parents });
        k += 1;
    }
    out
}

} // verus!
