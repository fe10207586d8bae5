//! Kahn's topological sort of a cluster, restricted to in-cluster parent
//! edges.
use std::collections::VecDeque;

use vstd::prelude::*;

use crate::cluster::Cluster;
use crate::fxmap::{slot_map_get, slot_map_insert, slot_map_new, SlotMap};
use crate::snapshot::{SnapTx, TxIndex};

verus! {

/// Snapshot slot to position in a component.
pub type PositionIndex = SlotMap<usize>;

/// Parents of the snapshot slot `x` (none when there is no such slot).
pub open spec fn parent_edges(txs: Seq<SnapTx>, x: TxIndex) -> Seq<TxIndex> {
    if x < txs.len() {
        txs[x as int].parents@
    } else {
        Seq::empty()
    }
}

/// Children of the snapshot slot `x` (none when there is no such slot).
pub open spec fn child_edges(txs: Seq<SnapTx>, x: TxIndex) -> Seq<TxIndex> {
    if x < txs.len() {
        txs[x as int].children@
    } else {
        Seq::empty()
    }
}

/// Number of occurrences of `v` in `s`.
pub open spec fn occ(s: Seq<usize>, v: usize) -> nat
    decreases s.len(),
{
    if s.len() == 0 {
        0
    } else {
        occ(s.drop_last(), v) + if s.last() == v {
            1nat
        } else {
            0nat
        }
    }
}

/// Inside the component, every child edge is mirrored by a parent edge,
/// as often: `b` lists `a` as a child exactly as many times as `a` lists
/// `b` as a parent.
pub open spec fn mirrored_in(txs: Seq<SnapTx>, comp: Seq<TxIndex>) -> bool {
    forall|i: int, j: int|
        0 <= i < comp.len() && 0 <= j < comp.len() ==> #[trigger] occ(child_edges(txs, comp[i]), comp[j])
            == #[trigger] occ(parent_edges(txs, comp[j]), comp[i])
}

/// `rank` strictly increases along every in-component parent edge: the
/// component has no cycle.
pub open spec fn ranked(txs: Seq<SnapTx>, comp: Seq<TxIndex>, rank: spec_fn(int) -> nat) -> bool {
    forall|i: int, j: int|
        0 <= i < comp.len() && 0 <= j < comp.len() && #[trigger] parent_edges(txs, comp[j]).contains(
            #[trigger] comp[i],
        ) ==> rank(i) < rank(j)
}

/// Position of `x` in `comp`.
pub open spec fn pos_of(comp: Seq<TxIndex>, x: TxIndex) -> usize {
    choose|i: usize| i < comp.len() && comp[i as int] == x
}

/// Positions in `comp` of the elements of `s` that are in `comp`, in order.
pub open spec fn to_pos(comp: Seq<TxIndex>, s: Seq<TxIndex>) -> Seq<usize>
    decreases s.len(),
{
    if s.len() == 0 {
        Seq::empty()
    } else {
        let r = to_pos(comp, s.drop_last());
        if comp.contains(s.last()) {
            r.push(pos_of(comp, s.last()))
        } else {
            r
        }
    }
}

/// How many elements of `s` are positions not yet done.
spec fn pending(s: Seq<usize>, done: Seq<bool>) -> nat
    decreases s.len(),
{
    if s.len() == 0 {
        0
    } else {
        pending(s.drop_last(), done) + if !done[s.last() as int] {
            1nat
        } else {
            0nat
        }
    }
}

/// Number of positions not yet done.
spec fn undone(done: Seq<bool>) -> nat
    decreases done.len(),
{
    if done.len() == 0 {
        0
    } else {
        undone(done.drop_last()) + if !done.last() {
            1nat
        } else {
            0nat
        }
    }
}

spec fn below(s: Seq<usize>, n: int) -> bool {
    forall|k: int| 0 <= k < s.len() ==> #[trigger] s[k] < n
}

proof fn lemma_pos_of(comp: Seq<TxIndex>, i: usize)
    requires
        comp.no_duplicates(),
        i < comp.len(),
    ensures
        pos_of(comp, comp[i as int]) == i,
{
    assert(i < comp.len() && comp[i as int] == comp[i as int]);
    let j = choose|j: usize| j < comp.len() && comp[j as int] == comp[i as int];
    assert(j < comp.len() && comp[j as int] == comp[i as int]);
}

proof fn lemma_to_pos(comp: Seq<TxIndex>, s: Seq<TxIndex>)
    requires
        comp.no_duplicates(),
        comp.len() <= usize::MAX,
    ensures
        below(to_pos(comp, s), comp.len() as int),
        forall|i: usize| i < comp.len() ==> #[trigger] occ(to_pos(comp, s), i) == occ(s, comp[i as int]),
        forall|e: usize| #[trigger] to_pos(comp, s).contains(e) ==> e < comp.len() && s.contains(comp[e as int]),
        forall|i: usize| i < comp.len() && s.contains(comp[i as int]) ==> #[trigger] to_pos(comp, s).contains(i),
    decreases s.len(),
{
    if s.len() > 0 {
        let s0 = s.drop_last();
        let x = s.last();
        lemma_to_pos(comp, s0);
        let r0 = to_pos(comp, s0);
        let r = to_pos(comp, s);
        if comp.contains(x) {
            let pi = choose|i: int| 0 <= i < comp.len() && comp[i] == x;
            let p = pi as usize;
            lemma_pos_of(comp, p);
            assert(pos_of(comp, x) == p);
            assert(r == r0.push(p));
            assert(r.drop_last() =~= r0);
            assert forall|i: usize| i < comp.len() implies #[trigger] occ(r, i) == occ(s, comp[i as int]) by {
                assert(occ(r0, i) == occ(s0, comp[i as int]));
                if i != p {
                    assert(comp[i as int] != x);
                }
            }
            assert forall|e: usize| #[trigger] r.contains(e) implies e < comp.len() && s.contains(comp[e as int]) by {
                let k = choose|k: int| 0 <= k < r.len() && r[k] == e;
                if k < r0.len() {
                    assert(r0[k] == e);
                    assert(r0.contains(e));
                    let m = choose|m: int| 0 <= m < s0.len() && s0[m] == comp[e as int];
                    assert(s[m] == comp[e as int]);
                } else {
                    assert(s[s.len() - 1] == comp[e as int]);
                }
            }
            assert forall|i: usize| i < comp.len() && s.contains(comp[i as int]) implies #[trigger] r.contains(i) by {
                let m = choose|m: int| 0 <= m < s.len() && s[m] == comp[i as int];
                if m < s.len() - 1 {
                    assert(s0[m] == comp[i as int]);
                    assert(r0.contains(i));
                    let k = choose|k: int| 0 <= k < r0.len() && r0[k] == i;
                    assert(r[k] == i);
                } else {
                    lemma_pos_of(comp, i);
                    assert(r[r.len() - 1] == i);
                }
            }
        } else {
            assert(r == r0);
            assert forall|i: usize| i < comp.len() implies #[trigger] occ(r, i) == occ(s, comp[i as int]) by {
                assert(occ(r0, i) == occ(s0, comp[i as int]));
                assert(comp[i as int] != x);
            }
            assert forall|e: usize| #[trigger] r.contains(e) implies e < comp.len() && s.contains(comp[e as int]) by {
                let m = choose|m: int| 0 <= m < s0.len() && s0[m] == comp[e as int];
                assert(s[m] == comp[e as int]);
            }
            assert forall|i: usize| i < comp.len() && s.contains(comp[i as int]) implies #[trigger] r.contains(i) by {
                let m = choose|m: int| 0 <= m < s.len() && s[m] == comp[i as int];
                if m == s.len() - 1 {
                    assert(comp.contains(x));
                }
                assert(s0[m] == comp[i as int]);
                assert(r0.contains(i));
            }
        }
    }
}

proof fn lemma_pending_flip(s: Seq<usize>, done: Seq<bool>, i: usize)
    requires
        i < done.len(),
        !done[i as int],
        below(s, done.len() as int),
    ensures
        pending(s, done.update(i as int, true)) + occ(s, i) == pending(s, done),
    decreases s.len(),
{
    if s.len() > 0 {
        lemma_pending_flip(s.drop_last(), done, i);
    }
}

proof fn lemma_occ_le_pending(s: Seq<usize>, done: Seq<bool>, i: usize)
    requires
        i < done.len(),
        !done[i as int],
        below(s, done.len() as int),
    ensures
        occ(s, i) <= pending(s, done),
    decreases s.len(),
{
    if s.len() > 0 {
        lemma_occ_le_pending(s.drop_last(), done, i);
    }
}

proof fn lemma_pending_witness(s: Seq<usize>, done: Seq<bool>)
    requires
        below(s, done.len() as int),
    ensures
        pending(s, done) == 0 ==> forall|k: int| 0 <= k < s.len() ==> done[#[trigger] s[k] as int],
        pending(s, done) > 0 ==> exists|k: int| 0 <= k < s.len() && !done[#[trigger] s[k] as int],
    decreases s.len(),
{
    if s.len() > 0 {
        lemma_pending_witness(s.drop_last(), done);
        if pending(s, done) == 0 {
            assert forall|k: int| 0 <= k < s.len() implies done[#[trigger] s[k] as int] by {
                if k < s.len() - 1 {
                    assert(s.drop_last()[k] == s[k]);
                }
            }
        }
        if pending(s, done) > 0 {
            if pending(s.drop_last(), done) > 0 {
                let k = choose|k: int| 0 <= k < s.drop_last().len() && !done[#[trigger] s.drop_last()[k] as int];
                assert(s[k] == s.drop_last()[k]);
            } else {
                assert(!done[s[s.len() - 1] as int]);
            }
        }
    }
}

proof fn lemma_pending_fresh(s: Seq<usize>, done: Seq<bool>)
    requires
        below(s, done.len() as int),
        forall|k: int| 0 <= k < done.len() ==> !#[trigger] done[k],
    ensures
        pending(s, done) == s.len(),
    decreases s.len(),
{
    if s.len() > 0 {
        lemma_pending_fresh(s.drop_last(), done);
    }
}

proof fn lemma_undone_flip(done: Seq<bool>, i: int)
    requires
        0 <= i < done.len(),
        !done[i],
    ensures
        undone(done.update(i, true)) + 1 == undone(done),
    decreases done.len(),
{
    if i < done.len() - 1 {
        lemma_undone_flip(done.drop_last(), i);
        assert(done.update(i, true).drop_last() =~= done.drop_last().update(i, true));
    } else {
        assert(done.update(i, true).drop_last() =~= done.drop_last());
    }
}

proof fn lemma_occ_take(s: Seq<usize>, k: int, v: usize)
    requires
        0 <= k < s.len(),
    ensures
        occ(s.take(k + 1), v) == occ(s.take(k), v) + if s[k] == v {
            1nat
        } else {
            0nat
        },
        occ(s.take(k + 1), v) <= occ(s, v),
    decreases s.len() - k,
{
    assert(s.take(k + 1).drop_last() =~= s.take(k));
    if k + 1 < s.len() {
        lemma_occ_take(s, k + 1, v);
    } else {
        assert(s.take(k + 1) =~= s);
    }
}

/// Among the positions below `m` not yet done (there is one), one of
/// least rank.
proof fn lemma_min_rank(done: Seq<bool>, rank: spec_fn(int) -> nat, m: int) -> (c: int)
    requires
        0 <= m <= done.len(),
        exists|i: int| 0 <= i < m && !done[i],
    ensures
        0 <= c < m,
        !done[c],
        forall|j: int| 0 <= j < m && !done[j] ==> rank(c) <= rank(j),
    decreases m,
{
    if exists|i: int| 0 <= i < m - 1 && !done[i] {
        let c0 = lemma_min_rank(done, rank, m - 1);
        if !done[m - 1] && rank(m - 1) < rank(c0) {
            m - 1
        } else {
            c0
        }
    } else {
        m - 1
    }
}

/// In-component children of each member, as positions.
pub open spec fn kids_of(txs: Seq<SnapTx>, comp: Seq<TxIndex>) -> Seq<Seq<usize>> {
    Seq::new(comp.len(), |c: int| to_pos(comp, child_edges(txs, comp[c])))
}

/// Number of in-component parents of each member.
pub open spec fn indeg_of(txs: Seq<SnapTx>, comp: Seq<TxIndex>) -> Seq<u32> {
    Seq::new(comp.len(), |c: int| to_pos(comp, parent_edges(txs, comp[c])).len() as u32)
}

/// Positions below `m` whose count is zero, in increasing order.
pub open spec fn zeros(indeg: Seq<u32>, m: int) -> Seq<usize>
    decreases m,
{
    if m <= 0 {
        Seq::empty()
    } else {
        let r = zeros(indeg, m - 1);
        if indeg[m - 1] == 0 {
            r.push((m - 1) as usize)
        } else {
            r
        }
    }
}

/// Releasing the children `cs` of a member that left, in order: each
/// loses one pending parent, and one that reaches zero joins the queue.
pub open spec fn release(cs: Seq<usize>, indeg: Seq<u32>, queue: Seq<usize>) -> (Seq<u32>, Seq<usize>)
    decreases cs.len(),
{
    if cs.len() == 0 {
        (indeg, queue)
    } else {
        let prev = release(cs.drop_last(), indeg, queue);
        let c = cs.last();
        let v = (prev.0[c as int] - 1) as u32;
        (prev.0.update(c as int, v), if v == 0 {
            prev.1.push(c)
        } else {
            prev.1
        })
    }
}

/// Kahn's loop, at most `fuel` pops: take the front of the queue, emit
/// it, release its children.
pub open spec fn kahn(
    kids: Seq<Seq<usize>>,
    indeg: Seq<u32>,
    queue: Seq<usize>,
    order: Seq<usize>,
    fuel: nat,
) -> Seq<usize>
    decreases fuel,
{
    if fuel == 0 || queue.len() == 0 {
        order
    } else {
        let i = queue[0];
        let next = release(kids[i as int], indeg, queue.drop_first());
        kahn(kids, next.0, next.1, order.push(i), (fuel - 1) as nat)
    }
}

/// The order Kahn's sort emits the component in: members with no
/// in-component parent first, in component order, then each member as
/// the last of its in-component parents leaves, first in first out.
pub open spec fn kahn_order(txs: Seq<SnapTx>, comp: Seq<TxIndex>) -> Seq<TxIndex> {
    let indeg = indeg_of(txs, comp);
    kahn(kids_of(txs, comp), indeg, zeros(indeg, comp.len() as int), Seq::empty(), comp.len() + 1).map_values(
        |p: usize| comp[p as int],
    )
}

/// A fresh `done` has every position undone.
proof fn lemma_undone_fresh(n: nat)
    ensures
        undone(Seq::new(n, |k: int| false)) == n,
    decreases n,
{
    if n > 0 {
        lemma_undone_fresh((n - 1) as nat);
        assert(Seq::new(n, |k: int| false).drop_last() =~= Seq::new((n - 1) as nat, |k: int| false));
    }
}

/// With an empty queue, Kahn's loop has nothing left to do.
proof fn lemma_kahn_idle(kids: Seq<Seq<usize>>, indeg: Seq<u32>, order: Seq<usize>, fuel: nat)
    ensures
        kahn(kids, indeg, Seq::empty(), order, fuel) == order,
{
}

/// The state of the sort between two pops.
spec fn sort_inv(
    txs: Seq<SnapTx>,
    comp: Seq<TxIndex>,
    indeg: Seq<u32>,
    children: Seq<Vec<usize>>,
    queue: Seq<usize>,
    done: Seq<bool>,
    order: Seq<usize>,
    out: Seq<TxIndex>,
) -> bool {
    let n = comp.len();
    &&& done.len() == n
    &&& indeg.len() == n
    &&& children.len() == n
    &&& forall|c: usize| c < n ==> #[trigger] children[c as int]@ == to_pos(comp, child_edges(txs, comp[c as int]))
    &&& forall|c: usize| c < n ==> #[trigger] indeg[c as int] == pending(to_pos(comp, parent_edges(txs, comp[c as int])), done)
    &&& forall|c: usize| c < n && #[trigger] done[c as int] ==> indeg[c as int] == 0
    &&& queue.no_duplicates()
    &&& forall|k: int| 0 <= k < queue.len() ==> #[trigger] queue[k] < n && !done[queue[k] as int] && indeg[queue[k] as int] == 0
    &&& forall|c: usize| c < n && !done[c as int] && indeg[c as int] == 0 ==> #[trigger] queue.contains(c)
    &&& order.no_duplicates()
    &&& below(order, n as int)
    &&& forall|c: usize| c < n ==> (#[trigger] done[c as int] <==> order.contains(c))
    &&& out == order.map_values(|p: usize| comp[p as int])
    &&& forall|k: int, e: usize|
        0 <= k < order.len() && #[trigger] to_pos(comp, parent_edges(txs, comp[order[k] as int])).contains(e)
            ==> order.take(k).contains(e)
}

/// Child and parent occurrences agree position-wise.
proof fn lemma_mirrored_pos(txs: Seq<SnapTx>, comp: Seq<TxIndex>, i: usize, c: usize)
    requires
        comp.no_duplicates(),
        comp.len() <= usize::MAX,
        mirrored_in(txs, comp),
        i < comp.len(),
        c < comp.len(),
    ensures
        occ(to_pos(comp, child_edges(txs, comp[i as int])), c) == occ(
            to_pos(comp, parent_edges(txs, comp[c as int])),
            i,
        ),
{
    lemma_to_pos(comp, child_edges(txs, comp[i as int]));
    lemma_to_pos(comp, parent_edges(txs, comp[c as int]));
    assert(occ(child_edges(txs, comp[i as int]), comp[c as int]) == occ(
        parent_edges(txs, comp[c as int]),
        comp[i as int],
    ));
}

impl Cluster {
    /// Kahn's topological sort of `component`, counting only parent edges
    /// inside it: every member comes after all of its in-component
    /// parents, and when the component has no cycle every member is
    /// emitted. Ready members leave in first-in first-out order.
    pub fn topo_sort(txs: &[SnapTx], component: &[TxIndex]) -> (r: Vec<TxIndex>)
        requires
            component@.no_duplicates(),
            mirrored_in(txs@, component@),
            forall|k: int|
                0 <= k < component@.len() ==> #[trigger] parent_edges(txs@, component@[k]).len() <= u32::MAX,
        ensures
            r@.no_duplicates(),
            forall|k: int| 0 <= k < r@.len() ==> component@.contains(#[trigger] r@[k]),
            forall|k: int, q: TxIndex|
                0 <= k < r@.len() && component@.contains(q) && #[trigger] parent_edges(txs@, r@[k]).contains(q)
                    ==> exists|m: int| 0 <= m < k && #[trigger] r@[m] == q,
            (exists|rank: spec_fn(int) -> nat| ranked(txs@, component@, rank)) ==> forall|x: TxIndex|
                #[trigger] component@.contains(x) ==> r@.contains(x),
            r@ == kahn_order(txs@, component@),
    {
        let ghost comp = component@;
        let n = component.len();
        let mut pos: PositionIndex = slot_map_new();
        let mut i: usize = 0;
        while i < n
            invariant
                n == comp.len(),
                comp == component@,
                comp.no_duplicates(),
                i <= n,
                forall|j: usize| j < i ==> #[trigger] pos@.contains_key(comp[j as int]) && pos@[comp[j as int]] == j,
                forall|x: TxIndex| #[trigger] pos@.contains_key(x) ==> exists|j: usize| j < i && comp[j as int] == x,
            decreases n - i,
        {
            let ghost pos0 = pos@;
            slot_map_insert(&mut pos, component[i], i);
            proof {
                assert forall|j: usize| j < i + 1 implies #[trigger] pos@.contains_key(comp[j as int]) && pos@[comp[j as int]] == j by {
                    if j < i {
                        assert(comp[j as int] != comp[i as int]);
                        assert(pos0.contains_key(comp[j as int]));
                    }
                }
                assert forall|x: TxIndex| #[trigger] pos@.contains_key(x) implies exists|j: usize| j < i + 1 && comp[j as int] == x by {
                    if x != comp[i as int] {
                        assert(pos0.contains_key(x));
                        let j = choose|j: usize| j < i && comp[j as int] == x;
                        assert(j < i + 1 && comp[j as int] == x);
                    } else {
                        assert(i < i + 1 && comp[i as int] == x);
                    }
                }
            }
            i += 1;
        }
        // `pos` answers membership and position exactly.
        assert forall|x: TxIndex| #[trigger] pos@.contains_key(x) == comp.contains(x) && (comp.contains(x)
            ==> pos@[x] == pos_of(comp, x)) by {
            if pos@.contains_key(x) {
                let j = choose|j: usize| j < n && comp[j as int] == x;
                assert(comp[j as int] == x);
            }
            if comp.contains(x) {
                let j = choose|j: int| 0 <= j < n && comp[j] == x;
                lemma_pos_of(comp, j as usize);
                assert(pos@.contains_key(comp[j]));
            }
        }
        let mut indeg: Vec<u32> = Vec::new();
        let mut children: Vec<Vec<usize>> = Vec::new();
        let mut i: usize = 0;
        while i < n
            invariant
                n == comp.len(),
                comp == component@,
                comp.no_duplicates(),
                i <= n,
                indeg@.len() == i,
                children@.len() == i,
                forall|k: int| 0 <= k < n ==> #[trigger] parent_edges(txs@, comp[k]).len() <= u32::MAX,
                forall|x: TxIndex| #[trigger] pos@.contains_key(x) == comp.contains(x) && (comp.contains(x)
                    ==> pos@[x] == pos_of(comp, x)),
                forall|c: usize| c < i ==> #[trigger] children@[c as int]@ == to_pos(comp, child_edges(txs@, comp[c as int])),
                forall|c: usize| c < i ==> #[trigger] indeg@[c as int] == to_pos(comp, parent_edges(txs@, comp[c as int])).len(),
            decreases n - i,
        {
            let x = component[i];
            if x < txs.len() {
                let t = &txs[x];
                proof {
                    assert(parent_edges(txs@, comp[i as int]).len() <= u32::MAX);
                }
                let mut cnt: u32 = 0;
                let mut k: usize = 0;
                while k < t.parents.len()
                    invariant
                        *t == txs@[x as int],
                        x < txs@.len(),
                        t.parents@.len() <= u32::MAX,
                        k <= t.parents@.len(),
                        forall|y: TxIndex| #[trigger] pos@.contains_key(y) == comp.contains(y) && (comp.contains(y)
                            ==> pos@[y] == pos_of(comp, y)),
                        cnt == to_pos(comp, t.parents@.take(k as int)).len(),
                        cnt <= k,
                    decreases t.parents.len() - k,
                {
                    let p = t.parents[k];
                    proof {
                        assert(t.parents@.take(k + 1).drop_last() =~= t.parents@.take(k as int));
                        assert(t.parents@.take(k + 1).last() == p);
                    }
                    if slot_map_get(&pos, &p).is_some() {
                        cnt += 1;
                    }
                    k += 1;
                }
                assert(t.parents@.take(t.parents@.len() as int) =~= t.parents@);
                let mut ch: Vec<usize> = Vec::new();
                let mut k: usize = 0;
                while k < t.children.len()
                    invariant
                        *t == txs@[x as int],
                        k <= t.children@.len(),
                        forall|y: TxIndex| #[trigger] pos@.contains_key(y) == comp.contains(y) && (comp.contains(y)
                            ==> pos@[y] == pos_of(comp, y)),
                        ch@ == to_pos(comp, t.children@.take(k as int)),
                    decreases t.children.len() - k,
                {
                    let c = t.children[k];
                    proof {
                        assert(t.children@.take(k + 1).drop_last() =~= t.children@.take(k as int));
                        assert(t.children@.take(k + 1).last() == c);
                    }
                    match slot_map_get(&pos, &c) {
                        Some(ci) => ch.push(*ci),
                        None => {},
                    }
                    k += 1;
                }
                assert(t.children@.take(t.children@.len() as int) =~= t.children@);
                indeg.push(cnt);
                children.push(ch);
            } else {
                indeg.push(0);
                children.push(Vec::new());
                proof {
                    assert(to_pos(comp, child_edges(txs@, comp[i as int])) =~= Seq::<usize>::empty());
                    assert(to_pos(comp, parent_edges(txs@, comp[i as int])) =~= Seq::<usize>::empty());
                }
            }
            proof {
                assert forall|c: usize| c < i + 1 implies #[trigger] indeg@[c as int] == to_pos(
                    comp,
                    parent_edges(txs@, comp[c as int]),
                ).len() by {}
                assert forall|c: usize| c < i + 1 implies #[trigger] children@[c as int]@ == to_pos(
                    comp,
                    child_edges(txs@, comp[c as int]),
                ) by {}
            }
            i += 1;
        }
        let ghost kids = kids_of(txs@, comp);
        let ghost indeg_init = indeg_of(txs@, comp);
        let ghost target = kahn(kids, indeg_init, zeros(indeg_init, n as int), Seq::empty(), n as nat + 1);
        proof {
            assert(indeg@ =~= indeg_init);
        }
        let ghost mut done: Seq<bool> = Seq::new(n as nat, |k: int| false);
        proof {
            lemma_undone_fresh(n as nat);
            assert forall|c: usize| c < n implies #[trigger] indeg@[c as int] == pending(
                to_pos(comp, parent_edges(txs@, comp[c as int])),
                done,
            ) by {
                lemma_to_pos(comp, parent_edges(txs@, comp[c as int]));
                lemma_pending_fresh(to_pos(comp, parent_edges(txs@, comp[c as int])), done);
            }
        }
        let mut queue: VecDeque<usize> = VecDeque::new();
        let mut i: usize = 0;
        while i < n
            invariant
                n == comp.len(),
                i <= n,
                indeg@.len() == n,
                indeg@ == indeg_init,
                queue@ == zeros(indeg_init, i as int),
                done.len() == n,
                forall|k: int| 0 <= k < n ==> !#[trigger] done[k],
                queue@.no_duplicates(),
                forall|k: int| 0 <= k < queue@.len() ==> #[trigger] queue@[k] < i && indeg@[queue@[k] as int] == 0,
                forall|c: usize| c < i && indeg@[c as int] == 0 ==> #[trigger] queue@.contains(c),
            decreases n - i,
        {
            if indeg[i] == 0 {
                let ghost q0 = queue@;
                queue.push_back(i);
                assert(queue@ =~= zeros(indeg_init, i + 1));
                proof {
                    assert(queue@[q0.len() as int] == i);
                    assert forall|c: usize| c < i + 1 && indeg@[c as int] == 0 implies #[trigger] queue@.contains(c) by {
                        if c < i {
                            assert(q0.contains(c));
                            let k = choose|k: int| 0 <= k < q0.len() && q0[k] == c;
                            assert(queue@[k] == c);
                        }
                    }
                    assert(queue@.no_duplicates()) by {
                        assert forall|a: int, b: int| 0 <= a < b < queue@.len() implies queue@[a] != queue@[b] by {
                            if b == q0.len() {
                                assert(q0[a] < i);
                            } else {
                                assert(q0[a] != q0[b]);
                            }
                        }
                    }
                }
            }
            i += 1;
        }
        let ghost mut order: Seq<usize> = Seq::empty();
        let mut out: Vec<TxIndex> = Vec::new();
        proof {
            assert(queue@ == zeros(indeg_init, n as int));
            assert(undone(done) == n);
            assert(out@ =~= order.map_values(|p: usize| comp[p as int]));
            assert forall|c: usize| c < n && !done[c as int] && indeg@[c as int] == 0 implies #[trigger] queue@.contains(c) by {}
        }
        while queue.len() > 0
            invariant
                n == comp.len(),
                comp == component@,
                comp.no_duplicates(),
                mirrored_in(txs@, comp),
                sort_inv(txs@, comp, indeg@, children@, queue@, done, order, out@),
                kids == kids_of(txs@, comp),
                target == kahn(kids, indeg_of(txs@, comp), zeros(indeg_of(txs@, comp), n as int), Seq::empty(), n as nat + 1),
                kahn(kids, indeg@, queue@, order, undone(done) + 1) == target,
            decreases undone(done),
        {
            let ghost q_full = queue@;
            let ghost indeg_pop = indeg@;
            let ghost u = undone(done);
            let i = queue.pop_front().unwrap();
            let ghost q_pop = queue@;
            let ghost done_old = done;
            let ghost order_old = order;
            let ghost cp_i = to_pos(comp, child_edges(txs@, comp[i as int]));
            let ghost pp_i = to_pos(comp, parent_edges(txs@, comp[i as int]));
            proof {
                assert(q_full[0] == i);
                assert(i < n && !done_old[i as int] && indeg@[i as int] == 0);
                lemma_to_pos(comp, parent_edges(txs@, comp[i as int]));
                lemma_to_pos(comp, child_edges(txs@, comp[i as int]));
                lemma_pending_witness(pp_i, done_old);
                lemma_undone_flip(done_old, i as int);
                lemma_occ_le_pending(pp_i, done_old, i);
                lemma_mirrored_pos(txs@, comp, i, i);
                assert(occ(cp_i, i) == 0);
                assert(!order_old.contains(i));
                done = done.update(i as int, true);
                order = order.push(i);
                assert(order.drop_last() =~= order_old);
            }
            out.push(component[i]);
            proof {
                assert(order.no_duplicates()) by {
                    assert forall|a: int, b: int| 0 <= a < b < order.len() implies order[a] != order[b] by {
                        if b == order.len() - 1 {
                            assert(order_old[a] == order[a]);
                            assert(order_old.contains(order[a]));
                        } else {
                            assert(order_old[a] == order[a]);
                            assert(order_old[b] == order[b]);
                        }
                    }
                }
                assert(out@ =~= order.map_values(|p: usize| comp[p as int]));
                assert forall|c: usize| c < n implies (#[trigger] done[c as int] <==> order.contains(c)) by {
                    if c != i {
                        assert(done[c as int] == done_old[c as int]);
                        if order.contains(c) {
                            let k = choose|k: int| 0 <= k < order.len() && order[k] == c;
                            assert(order_old[k] == c);
                        }
                        if order_old.contains(c) {
                            let k = choose|k: int| 0 <= k < order_old.len() && order_old[k] == c;
                            assert(order[k] == c);
                        }
                    } else {
                        assert(order[order.len() - 1] == i);
                    }
                }
                assert forall|k: int, e: usize|
                    0 <= k < order.len() && #[trigger] to_pos(comp, parent_edges(txs@, comp[order[k] as int])).contains(e)
                        implies order.take(k).contains(e) by {
                    if k < order.len() - 1 {
                        assert(order.take(k) =~= order_old.take(k));
                        assert(order_old[k] == order[k]);
                    } else {
                        let m = choose|m: int| 0 <= m < pp_i.len() && pp_i[m] == e;
                        assert(done_old[pp_i[m] as int]);
                        assert(order.take(k) =~= order_old);
                    }
                }
                assert(below(order, n as int)) by {
                    assert forall|k: int| 0 <= k < order.len() implies #[trigger] order[k] < n by {
                        if k < order_old.len() {
                            assert(order_old[k] == order[k]);
                        }
                    }
                }
                assert forall|m: int| 0 <= m < queue@.len() implies #[trigger] queue@[m] < n && !done[queue@[m] as int]
                    && indeg@[queue@[m] as int] == 0 by {
                    assert(queue@[m] == q_full[m + 1]);
                    assert(q_full[m + 1] != q_full[0]);
                }
                assert forall|c: usize| c < n && !done[c as int] && indeg@[c as int] == 0 implies #[trigger] queue@.contains(c) by {
                    assert(q_full.contains(c));
                    let m = choose|m: int| 0 <= m < q_full.len() && q_full[m] == c;
                    assert(m != 0);
                    assert(queue@[m - 1] == c);
                }
                assert(queue@.no_duplicates()) by {
                    assert forall|a: int, b: int| 0 <= a < b < queue@.len() implies queue@[a] != queue@[b] by {
                        assert(q_full[a + 1] != q_full[b + 1]);
                    }
                }
            }
            let ch = &children[i];
            let mut k: usize = 0;
            while k < ch.len()
                invariant
                    n == comp.len(),
                    comp.no_duplicates(),
                    mirrored_in(txs@, comp),
                    i < n,
                    *ch == children@[i as int],
                    ch@ == cp_i,
                    cp_i == to_pos(comp, child_edges(txs@, comp[i as int])),
                    below(cp_i, n as int),
                    k <= ch@.len(),
                    done_old.len() == n,
                    !done_old[i as int],
                    done == done_old.update(i as int, true),
                    indeg@.len() == n,
                    children@.len() == n,
                    forall|c: usize| c < n ==> #[trigger] children@[c as int]@ == to_pos(comp, child_edges(txs@, comp[c as int])),
                    forall|c: usize| c < n ==> #[trigger] indeg@[c as int] + occ(cp_i.take(k as int), c)
                        == pending(to_pos(comp, parent_edges(txs@, comp[c as int])), done_old),
                    forall|c: usize| c < n && #[trigger] done[c as int] ==> indeg@[c as int] == 0,
                    queue@.no_duplicates(),
                    forall|m: int| 0 <= m < queue@.len() ==> #[trigger] queue@[m] < n && !done[queue@[m] as int]
                        && indeg@[queue@[m] as int] == 0,
                    forall|c: usize| c < n && !done[c as int] && indeg@[c as int] == 0 ==> #[trigger] queue@.contains(c),
                    (indeg@, queue@) == release(cp_i.take(k as int), indeg_pop, q_pop),
                decreases ch.len() - k,
            {
                let c = ch[k];
                proof {
                    assert(c < n);
                    lemma_occ_take(cp_i, k as int, c);
                    lemma_to_pos(comp, parent_edges(txs@, comp[c as int]));
                    lemma_occ_le_pending(to_pos(comp, parent_edges(txs@, comp[c as int])), done_old, i);
                    lemma_mirrored_pos(txs@, comp, i, c);
                    assert(indeg@[c as int] >= 1);
                }
                let ghost q0 = queue@;
                let ghost indeg0 = indeg@;
                let d = indeg[c] - 1;
                indeg.set(c, d);
                proof {
                    assert(cp_i.take(k + 1).drop_last() =~= cp_i.take(k as int));
                    assert(cp_i.take(k + 1).last() == c);
                }
                if d == 0 {
                    proof {
                        assert(!q0.contains(c)) by {
                            if q0.contains(c) {
                                let m = choose|m: int| 0 <= m < q0.len() && q0[m] == c;
                                assert(indeg0[q0[m] as int] == 0);
                            }
                        }
                    }
                    queue.push_back(c);
                }
                proof {
                    assert(!done[c as int]);
                    assert forall|cc: usize| cc < n implies #[trigger] indeg@[cc as int] + occ(cp_i.take(k + 1), cc)
                        == pending(to_pos(comp, parent_edges(txs@, comp[cc as int])), done_old) by {
                        lemma_occ_take(cp_i, k as int, cc);
                        assert(indeg0[cc as int] + occ(cp_i.take(k as int), cc)
                            == pending(to_pos(comp, parent_edges(txs@, comp[cc as int])), done_old));
                    }
                    assert forall|cc: usize| cc < n && #[trigger] done[cc as int] implies indeg@[cc as int] == 0 by {
                        if cc != c {
                            assert(indeg0[cc as int] == 0);
                        }
                    }
                    assert forall|m: int| 0 <= m < queue@.len() implies #[trigger] queue@[m] < n && !done[queue@[m] as int]
                        && indeg@[queue@[m] as int] == 0 by {
                        if m < q0.len() {
                            assert(queue@[m] == q0[m]);
                            assert(q0[m] != c) by {
                                assert(indeg0[q0[m] as int] == 0);
                            }
                        }
                    }
                    assert forall|cc: usize| cc < n && !done[cc as int] && indeg@[cc as int] == 0 implies #[trigger] queue@.contains(cc) by {
                        if cc != c {
                            assert(indeg0[cc as int] == 0);
                            assert(q0.contains(cc));
                            let m = choose|m: int| 0 <= m < q0.len() && q0[m] == cc;
                            assert(queue@[m] == cc);
                        } else {
                            assert(queue@[queue@.len() - 1] == c);
                        }
                    }
                    assert((indeg@, queue@) == release(cp_i.take(k + 1), indeg_pop, q_pop));
                    assert(queue@.no_duplicates()) by {
                        if d == 0 {
                            assert forall|a: int, b: int| 0 <= a < b < queue@.len() implies queue@[a] != queue@[b] by {
                                if b == q0.len() {
                                    assert(q0[a] != c) by {
                                        assert(indeg0[q0[a] as int] == 0);
                                    }
                                } else {
                                    assert(q0[a] != q0[b]);
                                }
                            }
                        }
                    }
                }
                k += 1;
            }
            proof {
                assert(cp_i.take(ch@.len() as int) =~= cp_i);
                assert(kids[i as int] == cp_i);
                assert(q_pop =~= q_full.drop_first());
                assert(kahn(kids, indeg_pop, q_full, order_old, u + 1) == kahn(kids, indeg@, queue@, order, u));
                assert(undone(done) + 1 == u);
                assert forall|c: usize| c < n implies #[trigger] indeg@[c as int] == pending(
                    to_pos(comp, parent_edges(txs@, comp[c as int])),
                    done,
                ) by {
                    lemma_to_pos(comp, parent_edges(txs@, comp[c as int]));
                    lemma_pending_flip(to_pos(comp, parent_edges(txs@, comp[c as int])), done_old, i);
                    lemma_mirrored_pos(txs@, comp, i, c);
                }
            }
        }
        proof {
            lemma_kahn_idle(kids, indeg@, order, undone(done) + 1);
            assert(queue@ =~= Seq::<usize>::empty());
            assert(target == order);
            assert(out@ =~= kahn_order(txs@, comp));
            let o = order;
            assert forall|k: int| 0 <= k < out@.len() implies comp.contains(#[trigger] out@[k]) by {
                assert(out@[k] == comp[o[k] as int]);
            }
            assert(out@.no_duplicates()) by {
                assert forall|a: int, b: int| 0 <= a < b < out@.len() implies out@[a] != out@[b] by {
                    assert(o[a] != o[b]);
                    assert(out@[a] == comp[o[a] as int]);
                    assert(out@[b] == comp[o[b] as int]);
                }
            }
            assert forall|k: int, q: TxIndex|
                0 <= k < out@.len() && comp.contains(q) && #[trigger] parent_edges(txs@, out@[k]).contains(q)
                    implies exists|m: int| 0 <= m < k && #[trigger] out@[m] == q by {
                let e = choose|e: int| 0 <= e < n && comp[e] == q;
                lemma_to_pos(comp, parent_edges(txs@, comp[o[k] as int]));
                assert(out@[k] == comp[o[k] as int]);
                assert(to_pos(comp, parent_edges(txs@, comp[o[k] as int])).contains(e as usize));
                assert(o.take(k).contains(e as usize));
                let m = choose|m: int| 0 <= m < o.take(k).len() && o.take(k)[m] == e as usize;
                assert(out@[m] == comp[o[m] as int]);
            }
            if exists|rank: spec_fn(int) -> nat| ranked(txs@, comp, rank) {
                let rank = choose|rank: spec_fn(int) -> nat| ranked(txs@, comp, rank);
                if exists|c: int| 0 <= c < n && !done[c] {
                    let c = lemma_min_rank(done, rank, n as int);
                    assert(indeg@[c] != 0) by {
                        if indeg@[c] == 0 {
                            assert(queue@.contains(c as usize));
                        }
                    }
                    let pp = to_pos(comp, parent_edges(txs@, comp[c]));
                    lemma_to_pos(comp, parent_edges(txs@, comp[c]));
                    lemma_pending_witness(pp, done);
                    let w = choose|w: int| 0 <= w < pp.len() && !done[#[trigger] pp[w] as int];
                    let e = pp[w];
                    assert(pp.contains(e));
                    assert(parent_edges(txs@, comp[c]).contains(comp[e as int]));
                    assert(rank(e as int) < rank(c));
                    assert(false);
                }
                assert forall|x: TxIndex| #[trigger] comp.contains(x) implies out@.contains(x) by {
                    let j = choose|j: int| 0 <= j < n && comp[j] == x;
                    assert(done[j]);
                    assert(o.contains(j as usize));
                    let m = choose|m: int| 0 <= m < o.len() && o[m] == j as usize;
                    assert(out@[m] == x);
                }
            }
        }
        out
    }
}

} // verus!
