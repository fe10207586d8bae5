use vstd::prelude::*;

use crate::indexed::{fx_set_insert, fx_set_new, PrefixSet};
use crate::snapshot::{SnapTx, TxIndex};

verus! {

/// Largest cluster a walk returns (Bitcoin Core's cluster count limit).
pub const MAX_CLUSTER: usize = 64;

/// The in-pool neighbours of `t`: parents, then children.
pub open spec fn neighbors(t: SnapTx) -> Seq<TxIndex> {
    t.parents@ + t.children@
}

/// `b` is a parent or child of the snapshot transaction at `a`.
pub open spec fn linked(txs: Seq<SnapTx>, a: TxIndex, b: TxIndex) -> bool {
    a < txs.len() && neighbors(txs[a as int]).contains(b)
}

/// Every neighbour of `x` is already in `members` (or `x` is no tx).
pub open spec fn expanded(txs: Seq<SnapTx>, members: Seq<TxIndex>, x: TxIndex) -> bool {
    x >= txs.len() || forall|y: TxIndex| #[trigger] linked(txs, x, y) ==> members.contains(y)
}

/// The member at `k` is a neighbour of an earlier member.
pub open spec fn reached_at(txs: Seq<SnapTx>, members: Seq<TxIndex>, k: int) -> bool {
    exists|m: int| 0 <= m < k && #[trigger] linked(txs, members[m], members[k])
}

/// Each member after the first is a neighbour of an earlier member.
pub open spec fn reached_in_order(txs: Seq<SnapTx>, members: Seq<TxIndex>) -> bool {
    forall|k: int| 0 < k < members.len() ==> #[trigger] reached_at(txs, members, k)
}

/// Expanding one popped member over its neighbours `nbrs`, in order: an
/// unseen neighbour is recorded and scheduled; the walk stops (flag set)
/// when a neighbour comes up with the cap already reached.
pub open spec fn visit_all(nbrs: Seq<TxIndex>, stack: Seq<TxIndex>, seen: Set<u64>, out: Seq<TxIndex>) -> (
    Seq<TxIndex>,
    Set<u64>,
    Seq<TxIndex>,
    bool,
)
    decreases nbrs.len(),
{
    if nbrs.len() == 0 {
        (stack, seen, out, false)
    } else if out.len() >= MAX_CLUSTER {
        (stack, seen, out, true)
    } else {
        let n = nbrs[0];
        if seen.contains(n as u64) {
            visit_all(nbrs.drop_first(), stack, seen, out)
        } else {
            visit_all(nbrs.drop_first(), stack.push(n), seen.insert(n as u64), out.push(n))
        }
    }
}

/// Expanding a member adds as many members as it schedules, never goes
/// past the cap, and schedules nothing when it adds nothing.
pub proof fn lemma_visit_all(nbrs: Seq<TxIndex>, stack: Seq<TxIndex>, seen: Set<u64>, out: Seq<TxIndex>)
    ensures
        ({
            let v = visit_all(nbrs, stack, seen, out);
            &&& out.len() <= v.2.len()
            &&& v.2.len() - out.len() == v.0.len() - stack.len()
            &&& v.2.len() == out.len() ==> v.0 == stack
            &&& out.len() <= MAX_CLUSTER ==> v.2.len() <= MAX_CLUSTER
        }),
    decreases nbrs.len(),
{
    if nbrs.len() > 0 && out.len() < MAX_CLUSTER {
        let n = nbrs[0];
        if seen.contains(n as u64) {
            lemma_visit_all(nbrs.drop_first(), stack, seen, out);
        } else {
            lemma_visit_all(nbrs.drop_first(), stack.push(n), seen.insert(n as u64), out.push(n));
        }
    }
}

/// The walk itself: pop the newest scheduled member; a slot with no
/// transaction is skipped, otherwise its neighbours are expanded; the
/// walk ends when nothing is scheduled or the cap stops it.
pub open spec fn walk_steps(txs: Seq<SnapTx>, stack: Seq<TxIndex>, seen: Set<u64>, out: Seq<TxIndex>) -> Seq<TxIndex>
    decreases MAX_CLUSTER - out.len(), stack.len(),
{
    if stack.len() == 0 || out.len() > MAX_CLUSTER {
        out
    } else {
        let idx = stack.last();
        let rest = stack.drop_last();
        if idx >= txs.len() {
            walk_steps(txs, rest, seen, out)
        } else {
            let v = visit_all(neighbors(txs[idx as int]), rest, seen, out);
            if v.3 {
                v.2
            } else {
                proof {
                    lemma_visit_all(neighbors(txs[idx as int]), rest, seen, out);
                }
                walk_steps(txs, v.0, v.1, v.2)
            }
        }
    }
}

pub struct Cluster;

impl Cluster {
    /// Depth-first walk of the undirected dependency graph (parents and
    /// children) from `seed`, capped at `MAX_CLUSTER` members, `seed`
    /// first. Below the cap the result is the whole connected component.
    pub fn walk(txs: &[SnapTx], seed: TxIndex) -> (r: Vec<TxIndex>)
        ensures
            seed >= txs@.len() ==> r@.len() == 0,
            seed < txs@.len() ==> {
                &&& 1 <= r@.len() <= MAX_CLUSTER
                &&& r@[0] == seed
                &&& r@.no_duplicates()
                &&& reached_in_order(txs@, r@)
                &&& r@.len() < MAX_CLUSTER ==> forall|x: TxIndex, y: TxIndex|
                    #![trigger r@.contains(x), linked(txs@, x, y)]
                    r@.contains(x) && linked(txs@, x, y) ==> r@.contains(y)
                &&& r@ == walk_steps(txs@, seq![seed], set![seed as u64], seq![seed])
            },
    {
        if seed >= txs.len() {
            return Vec::new();
        }
        let mut visited: PrefixSet = fx_set_new();
        fx_set_insert(&mut visited, seed as u64);
        let mut out: Vec<TxIndex> = Vec::new();
        out.push(seed);
        let mut stack: Vec<TxIndex> = Vec::new();
        stack.push(seed);
        assert(out@.no_duplicates());
        assert forall|v: u64| #[trigger] visited@.contains(v) <==> exists|i: int|
            0 <= i < out@.len() && out@[i] as u64 == v by {
            if v == seed as u64 {
                assert(out@[0] as u64 == v);
            }
        }
        let ghost target = walk_steps(txs@, seq![seed], set![seed as u64], seq![seed]);
        proof {
            assert(stack@ =~= seq![seed]);
            assert(out@ =~= seq![seed]);
            assert(visited@ =~= set![seed as u64]);
        }
        while stack.len() > 0
            invariant
                walk_steps(txs@, stack@, visited@, out@) == target,
                target == walk_steps(txs@, seq![seed], set![seed as u64], seq![seed]),
                1 <= out@.len() <= MAX_CLUSTER,
                out@[0] == seed,
                seed < txs@.len(),
                out@.no_duplicates(),
                forall|v: u64| #[trigger] visited@.contains(v) <==> exists|i: int|
                    0 <= i < out@.len() && out@[i] as u64 == v,
                forall|i: int| 0 <= i < stack@.len() ==> out@.contains(#[trigger] stack@[i]),
                reached_in_order(txs@, out@),
                forall|x: TxIndex|
                    #[trigger] out@.contains(x) ==> stack@.contains(x) || expanded(txs@, out@, x),
            decreases MAX_CLUSTER - out@.len(), stack@.len(),
        {
            let ghost stack_full = stack@;
            let idx = stack.pop().unwrap();
            assert(stack_full[stack_full.len() - 1] == idx);
            assert(out@.contains(idx));
            assert forall|x: TxIndex| #[trigger] out@.contains(x) && x != idx implies stack@.contains(x)
                || expanded(txs@, out@, x) by {
                if stack_full.contains(x) {
                    let si = choose|si: int| 0 <= si < stack_full.len() && stack_full[si] == x;
                    assert(si != stack_full.len() - 1);
                    assert(stack@[si] == x);
                }
            }
            assert forall|i: int| 0 <= i < stack@.len() implies out@.contains(#[trigger] stack@[i]) by {
                assert(stack@[i] == stack_full[i]);
            }
            assert(walk_inv(txs@, seed, out@, stack@, visited@, idx));
            let ghost out0 = out@.len();
            let ghost stack0 = stack@.len();
            let ghost vis_pop = visited@;
            let ghost out_pop = out@;
            let ghost rest = stack@;
            proof {
                assert(stack_full.drop_last() =~= rest);
            }
            if idx < txs.len() {
                let t = &txs[idx];
                let ghost nb = neighbors(*t);
                let ghost vr = visit_all(nb, rest, vis_pop, out_pop);
                proof {
                    assert(nb.skip(0) =~= nb);
                }
                let mut k: usize = 0;
                while k < t.parents.len()
                    invariant
                        idx < txs@.len(),
                        *t == txs@[idx as int],
                        k <= t.parents@.len(),
                        out@.contains(idx),
                        walk_inv(txs@, seed, out@, stack@, visited@, idx),
                        out0 <= out@.len(),
                        out@.len() - out0 == stack@.len() - stack0,
                        forall|j: int| 0 <= j < k ==> out@.contains(#[trigger] t.parents@[j]),
                        nb == neighbors(*t),
                        visit_all(nb.skip(k as int), stack@, visited@, out@) == vr,
                        vr == visit_all(nb, rest, vis_pop, out_pop),
                        walk_steps(txs@, stack_full, vis_pop, out_pop) == target,
                        target == walk_steps(txs@, seq![seed], set![seed as u64], seq![seed]),
                        out_pop.len() <= MAX_CLUSTER,
                        stack_full.len() > 0,
                        stack_full.last() == idx,
                        stack_full.drop_last() == rest,
                    decreases t.parents@.len() - k,
                {
                    let n = t.parents[k];
                    let ghost st0 = stack@;
                    let ghost vi0 = visited@;
                    let ghost ou0 = out@;
                    proof {
                        assert(nb.skip(k as int).drop_first() =~= nb.skip(k + 1));
                        assert(nb.skip(k as int)[0] == n);
                    }
                    proof {
                        assert(neighbors(*t)[k as int] == n);
                        assert(linked(txs@, idx, n));
                    }
                    let ghost before = out@;
                    if visit(txs, idx, n, &mut out, &mut stack, &mut visited) {
                        proof {
                            assert(vr == (st0, vi0, ou0, true));
                            assert(walk_steps(txs@, stack_full, vis_pop, out_pop) == vr.2);
                        }
                        return out;
                    }
                    proof {
                        assert forall|j: int| 0 <= j < k + 1 implies out@.contains(#[trigger] t.parents@[j]) by {
                            if j < k {
                                assert(before.contains(t.parents@[j]));
                            }
                        }
                    }
                    k += 1;
                }
                let mut k: usize = 0;
                while k < t.children.len()
                    invariant
                        idx < txs@.len(),
                        *t == txs@[idx as int],
                        k <= t.children@.len(),
                        out@.contains(idx),
                        walk_inv(txs@, seed, out@, stack@, visited@, idx),
                        out0 <= out@.len(),
                        out@.len() - out0 == stack@.len() - stack0,
                        forall|j: int| 0 <= j < t.parents@.len() ==> out@.contains(#[trigger] t.parents@[j]),
                        forall|j: int| 0 <= j < k ==> out@.contains(#[trigger] t.children@[j]),
                        nb == neighbors(*t),
                        visit_all(nb.skip(t.parents@.len() + k), stack@, visited@, out@) == vr,
                        vr == visit_all(nb, rest, vis_pop, out_pop),
                        walk_steps(txs@, stack_full, vis_pop, out_pop) == target,
                        target == walk_steps(txs@, seq![seed], set![seed as u64], seq![seed]),
                        out_pop.len() <= MAX_CLUSTER,
                        stack_full.len() > 0,
                        stack_full.last() == idx,
                        stack_full.drop_last() == rest,
                    decreases t.children@.len() - k,
                {
                    let n = t.children[k];
                    let ghost st0 = stack@;
                    let ghost vi0 = visited@;
                    let ghost ou0 = out@;
                    proof {
                        assert(nb.skip(t.parents@.len() + k).drop_first() =~= nb.skip(t.parents@.len() + k + 1));
                        assert(nb.skip(t.parents@.len() + k)[0] == n);
                    }
                    proof {
                        assert(neighbors(*t)[t.parents@.len() + k] == n);
                        assert(linked(txs@, idx, n));
                    }
                    let ghost before = out@;
                    if visit(txs, idx, n, &mut out, &mut stack, &mut visited) {
                        proof {
                            assert(vr == (st0, vi0, ou0, true));
                            assert(walk_steps(txs@, stack_full, vis_pop, out_pop) == vr.2);
                        }
                        return out;
                    }
                    proof {
                        assert forall|j: int| 0 <= j < k + 1 implies out@.contains(#[trigger] t.children@[j]) by {
                            if j < k {
                                assert(before.contains(t.children@[j]));
                            }
                        }
                        assert forall|j: int| 0 <= j < t.parents@.len() implies out@.contains(#[trigger] t.parents@[j]) by {
                            assert(before.contains(t.parents@[j]));
                        }
                    }
                    k += 1;
                }
                proof {
                    assert(nb.skip(nb.len() as int) =~= Seq::<TxIndex>::empty());
                    assert(vr == (stack@, visited@, out@, false));
                    assert(walk_steps(txs@, stack_full, vis_pop, out_pop) == walk_steps(txs@, stack@, visited@, out@));
                    assert forall|y: TxIndex| #[trigger] linked(txs@, idx, y) implies out@.contains(y) by {
                        let nb = neighbors(txs@[idx as int]);
                        let j = choose|j: int| 0 <= j < nb.len() && nb[j] == y;
                        if j < t.parents@.len() {
                            assert(out@.contains(t.parents@[j]));
                        } else {
                            assert(out@.contains(t.children@[j - t.parents@.len()]));
                        }
                    }
                    assert(expanded(txs@, out@, idx));
                }
            }
        }
        assert forall|x: TxIndex, y: TxIndex|
            #![trigger out@.contains(x), linked(txs@, x, y)]
            out@.contains(x) && linked(txs@, x, y) implies out@.contains(y) by {
            assert(expanded(txs@, out@, x));
        }
        out
    }
}

/// The walk's invariant while the neighbours of `idx` are being visited.
spec fn walk_inv(
    txs: Seq<SnapTx>,
    seed: TxIndex,
    out: Seq<TxIndex>,
    stack: Seq<TxIndex>,
    visited: Set<u64>,
    idx: TxIndex,
) -> bool {
    &&& 1 <= out.len() <= MAX_CLUSTER
    &&& out[0] == seed
    &&& seed < txs.len()
    &&& out.no_duplicates()
    &&& forall|v: u64| #[trigger] visited.contains(v) <==> exists|i: int|
        0 <= i < out.len() && out[i] as u64 == v
    &&& forall|i: int| 0 <= i < stack.len() ==> out.contains(#[trigger] stack[i])
    &&& reached_in_order(txs, out)
    &&& forall|x: TxIndex|
        #[trigger] out.contains(x) && x != idx ==> stack.contains(x) || expanded(txs, out, x)
}

/// Appending a neighbour of a member keeps every member reached from an
/// earlier one.
proof fn lemma_record_reached(txs: Seq<SnapTx>, idx: TxIndex, n: TxIndex, before: Seq<TxIndex>, out: Seq<TxIndex>)
    requires
        reached_in_order(txs, before),
        before.contains(idx),
        linked(txs, idx, n),
        out == before.push(n),
    ensures
        reached_in_order(txs, out),
{
    let m = choose|m: int| 0 <= m < before.len() && before[m] == idx;
    assert(out[m] == idx);
    assert(out[before.len() as int] == n);
    assert forall|k: int| 0 < k < out.len() implies #[trigger] reached_at(txs, out, k) by {
        if k < before.len() {
            assert(before[k] == out[k]);
            assert(reached_at(txs, before, k));
            let j = choose|j: int| 0 <= j < k && #[trigger] linked(txs, before[j], before[k]);
            assert(out[j] == before[j]);
            assert(linked(txs, out[j], out[k]));
        } else {
            assert(linked(txs, out[m], out[k]));
        }
    }
}

/// The visited set keeps naming exactly the members once `n` joins both.
proof fn lemma_record_visited(n: TxIndex, before: Seq<TxIndex>, vis0: Set<u64>)
    requires
        forall|v: u64| #[trigger] vis0.contains(v) <==> exists|i: int|
            0 <= i < before.len() && before[i] as u64 == v,
    ensures
        forall|v: u64| #[trigger] vis0.insert(n as u64).contains(v) <==> exists|i: int|
            0 <= i < before.push(n).len() && before.push(n)[i] as u64 == v,
{
    let out = before.push(n);
    let visited = vis0.insert(n as u64);
    assert forall|v: u64| #[trigger] visited.contains(v) <==> exists|i: int|
        0 <= i < out.len() && out[i] as u64 == v by {
        if visited.contains(v) {
            if v == n as u64 {
                assert(out[before.len() as int] as u64 == v);
            } else {
                let i = choose|i: int| 0 <= i < before.len() && before[i] as u64 == v;
                assert(out[i] as u64 == v);
            }
        }
        if exists|i: int| 0 <= i < out.len() && out[i] as u64 == v {
            let i = choose|i: int| 0 <= i < out.len() && out[i] as u64 == v;
            if i < before.len() {
                assert(before[i] as u64 == v);
            }
        }
    }
}

/// After scheduling `n`, every member other than `idx` is still either
/// scheduled or fully expanded.
proof fn lemma_record_pending(
    txs: Seq<SnapTx>,
    idx: TxIndex,
    n: TxIndex,
    before: Seq<TxIndex>,
    stack_prev: Seq<TxIndex>,
)
    requires
        forall|x: TxIndex|
            #[trigger] before.contains(x) && x != idx ==> stack_prev.contains(x) || expanded(txs, before, x),
    ensures
        forall|x: TxIndex|
            #[trigger] before.push(n).contains(x) && x != idx ==> stack_prev.push(n).contains(x) || expanded(
                txs,
                before.push(n),
                x,
            ),
{
    let out = before.push(n);
    let stack = stack_prev.push(n);
    assert forall|x: TxIndex| #[trigger] out.contains(x) && x != idx implies stack.contains(x) || expanded(
        txs,
        out,
        x,
    ) by {
        if x == n {
            assert(stack[stack.len() - 1] == n);
        } else {
            let i = choose|i: int| 0 <= i < out.len() && out[i] == x;
            assert(before[i] == x);
            assert(before.contains(x));
            if stack_prev.contains(x) {
                let si = choose|si: int| 0 <= si < stack_prev.len() && stack_prev[si] == x;
                assert(stack[si] == x);
            } else {
                assert forall|y: TxIndex| #[trigger] linked(txs, x, y) implies out.contains(y) by {
                    if x < txs.len() {
                        assert(before.contains(y));
                        let w = choose|w: int| 0 <= w < before.len() && before[w] == y;
                        assert(out[w] == y);
                    }
                }
            }
        }
    }
}

/// Recording a fresh neighbour `n` of the member `idx` (appended to the
/// members and scheduled) keeps the walk's invariant.
proof fn lemma_record_keeps_inv(
    txs: Seq<SnapTx>,
    idx: TxIndex,
    n: TxIndex,
    before: Seq<TxIndex>,
    stack_prev: Seq<TxIndex>,
    vis0: Set<u64>,
)
    requires
        walk_inv(txs, before[0], before, stack_prev, vis0, idx),
        before.contains(idx),
        linked(txs, idx, n),
        !vis0.contains(n as u64),
        before.len() < MAX_CLUSTER,
    ensures
        walk_inv(txs, before[0], before.push(n), stack_prev.push(n), vis0.insert(n as u64), idx),
        before.push(n).contains(n),
        forall|y: TxIndex| before.contains(y) ==> #[trigger] before.push(n).contains(y),
{
    let out = before.push(n);
    let stack = stack_prev.push(n);
    if before.contains(n) {
        let i = choose|i: int| 0 <= i < before.len() && before[i] == n;
        assert(before[i] as u64 == n as u64);
        assert(vis0.contains(n as u64));
    }
    lemma_record_reached(txs, idx, n, before, out);
    lemma_record_visited(n, before, vis0);
    lemma_record_pending(txs, idx, n, before, stack_prev);
    assert forall|y: TxIndex| before.contains(y) implies #[trigger] out.contains(y) by {
        let w = choose|w: int| 0 <= w < before.len() && before[w] == y;
        assert(out[w] == y);
    }
    assert forall|i: int| 0 <= i < stack.len() implies out.contains(#[trigger] stack[i]) by {
        if i < stack_prev.len() {
            assert(stack[i] == stack_prev[i]);
            assert(before.contains(stack_prev[i]));
        } else {
            assert(out[before.len() as int] == n);
        }
    }
    assert(out.contains(n)) by {
        assert(out[before.len() as int] == n);
    }
    assert(out[0] == before[0]);
    assert(out.no_duplicates());
}

/// One neighbour `n` of `idx`: stop if the cap is reached, else record
/// `n` as a member (and schedule it) unless it already is one.
fn visit(
    txs: &[SnapTx],
    idx: TxIndex,
    n: TxIndex,
    out: &mut Vec<TxIndex>,
    stack: &mut Vec<TxIndex>,
    visited: &mut PrefixSet,
) -> (full: bool)
    requires
        walk_inv(txs@, old(out)@[0], old(out)@, old(stack)@, old(visited)@, idx),
        old(out)@.contains(idx),
        linked(txs@, idx, n),
    ensures
        full == (old(out)@.len() >= MAX_CLUSTER),
        full ==> final(out)@ == old(out)@ && final(stack)@ == old(stack)@ && final(visited)@ == old(visited)@,
        !full && old(visited)@.contains(n as u64) ==> final(out)@ == old(out)@ && final(stack)@ == old(stack)@
            && final(visited)@ == old(visited)@,
        !full && !old(visited)@.contains(n as u64) ==> final(out)@ == old(out)@.push(n) && final(stack)@ == old(
            stack,
        )@.push(n) && final(visited)@ == old(visited)@.insert(n as u64),
        !full ==> {
            &&& walk_inv(txs@, old(out)@[0], final(out)@, final(stack)@, final(visited)@, idx)
            &&& final(out)@.contains(n)
            &&& forall|y: TxIndex| old(out)@.contains(y) ==> #[trigger] final(out)@.contains(y)
            &&& old(out)@.len() <= final(out)@.len()
            &&& final(out)@.len() - old(out)@.len() == final(stack)@.len() - old(stack)@.len()
        },
{
    if out.len() >= MAX_CLUSTER {
        return true;
    }
    let ghost vis0 = visited@;
    let ghost before = out@;
    let ghost stack_prev = stack@;
    let fresh = fx_set_insert(visited, n as u64);
    if fresh {
        out.push(n);
        stack.push(n);
        proof {
            lemma_record_keeps_inv(txs@, idx, n, before, stack_prev, vis0);
        }
    } else {
        proof {
            assert(vis0.contains(n as u64));
            assert(visited@ =~= vis0);
            let i = choose|i: int| 0 <= i < out@.len() && out@[i] as u64 == n as u64;
            assert(out@[i] == n);
        }
    }
    false
}

} // verus!
