use vstd::prelude::*;

use crate::types::Txid;

verus! {

/// A calendar date.
#[derive(Debug, Clone, Copy, PartialEq, Eq, Structural)]
pub struct Date {
    pub year: u16,
    pub month: u8,
    pub day: u8,
}

/// `a` is an earlier date than `b`.
pub open spec fn date_lt(a: Date, b: Date) -> bool {
    a.year < b.year || (a.year == b.year && (a.month < b.month || (a.month == b.month && a.day
        < b.day)))
}

/// Strictly increasing, so each date once.
pub open spec fn dates_sorted(s: Seq<Date>) -> bool {
    forall|i: int, j: int| 0 <= i < j < s.len() ==> date_lt(#[trigger] s[i], #[trigger] s[j])
}

proof fn lemma_date_lt_trans(a: Date, b: Date, c: Date)
    requires
        date_lt(a, b),
        date_lt(b, c),
    ensures
        date_lt(a, c),
{
}

proof fn lemma_date_lt_irrefl(a: Date, b: Date)
    requires
        date_lt(a, b),
    ensures
        a != b,
        !date_lt(b, a),
{
}

impl Date {
    pub fn new(year: u16, month: u8, day: u8) -> (r: Date)
        ensures
            r == (Date { year, month, day }),
    {
        Date { year, month, day }
    }

    fn lt(&self, other: &Date) -> (r: bool)
        ensures
            r == date_lt(*self, *other),
    {
        self.year < other.year || (self.year == other.year && (self.month < other.month || (self.month
            == other.month && self.day < other.day)))
    }
}

/// The merge walk over two date lists: drop the smaller head, keep a
/// common head once.
pub open spec fn merge_common(l: Seq<Date>, r: Seq<Date>, i: int, j: int) -> Seq<Date>
    decreases l.len() + r.len() - i - j,
{
    if i < 0 || j < 0 || i >= l.len() || j >= r.len() {
        Seq::empty()
    } else if date_lt(l[i], r[j]) {
        merge_common(l, r, i + 1, j)
    } else if date_lt(r[j], l[i]) {
        merge_common(l, r, i, j + 1)
    } else {
        seq![l[i]] + merge_common(l, r, i + 1, j + 1)
    }
}

/// Merge-walks two date lists, keeping the dates where both heads meet.
/// On sorted lists that is their intersection, sorted.
pub fn intersect_dates(left: Vec<Date>, right: Vec<Date>) -> (r: Vec<Date>)
    ensures
        r@ == merge_common(left@, right@, 0, 0),
        dates_sorted(left@) && dates_sorted(right@) ==> dates_sorted(r@),
        dates_sorted(left@) && dates_sorted(right@) ==> forall|d: Date|
            #[trigger] r@.contains(d) <==> left@.contains(d) && right@.contains(d),
{
    let ghost srt = dates_sorted(left@) && dates_sorted(right@);
    let mut out: Vec<Date> = Vec::new();
    let mut i: usize = 0;
    let mut j: usize = 0;
    while i < left.len() && j < right.len()
        invariant
            i <= left@.len(),
            j <= right@.len(),
            srt == (dates_sorted(left@) && dates_sorted(right@)),
            out@ + merge_common(left@, right@, i as int, j as int) == merge_common(left@, right@, 0, 0),
            srt ==> dates_sorted(out@),
            srt ==> forall|k: int| 0 <= k < out@.len() ==> left@.contains(#[trigger] out@[k]) && right@.contains(out@[k]),
            srt ==> forall|k: int|
                0 <= k < out@.len() ==> (i < left@.len() ==> date_lt(#[trigger] out@[k], left@[i as int]))
                    && (j < right@.len() ==> date_lt(out@[k], right@[j as int])),
            srt ==> forall|d: Date|
                left@.contains(d) && right@.contains(d) && !out@.contains(d) ==> (exists|a: int|
                    i <= a < left@.len() && left@[a] == d) && (exists|b: int|
                    j <= b < right@.len() && right@[b] == d),
        decreases left@.len() + right@.len() - i - j,
    {
        let a = left[i];
        let b = right[j];
        if a.lt(&b) {
            proof {
                if srt {
                assert forall|d: Date|
                    left@.contains(d) && right@.contains(d) && !out@.contains(d) implies (exists|aa: int|
                        i + 1 <= aa < left@.len() && left@[aa] == d) && (exists|bb: int|
                        j <= bb < right@.len() && right@[bb] == d) by {
                    let aa = choose|aa: int| i <= aa < left@.len() && left@[aa] == d;
                    let bb = choose|bb: int| j <= bb < right@.len() && right@[bb] == d;
                    if aa == i {
                        if bb > j {
                            assert(date_lt(right@[j as int], right@[bb]));
                        }
                        lemma_date_lt_irrefl(a, b);
                    }
                }
                }
            }
            i += 1;
        } else if b.lt(&a) {
            proof {
                if srt {
                assert forall|d: Date|
                    left@.contains(d) && right@.contains(d) && !out@.contains(d) implies (exists|aa: int|
                        i <= aa < left@.len() && left@[aa] == d) && (exists|bb: int|
                        j + 1 <= bb < right@.len() && right@[bb] == d) by {
                    let aa = choose|aa: int| i <= aa < left@.len() && left@[aa] == d;
                    let bb = choose|bb: int| j <= bb < right@.len() && right@[bb] == d;
                    if bb == j {
                        if aa > i {
                            assert(date_lt(left@[i as int], left@[aa]));
                        }
                        lemma_date_lt_irrefl(b, a);
                    }
                }
                }
            }
            j += 1;
        } else {
            let ghost out0 = out@;
            out.push(a);
            proof {
                assert(a == b);
                assert(out@ + merge_common(left@, right@, i + 1, j + 1) =~= out0 + merge_common(left@, right@, i as int, j as int));
                if srt {
                assert(left@.contains(a)) by {
                    assert(left@[i as int] == a);
                }
                assert(right@.contains(a)) by {
                    assert(right@[j as int] == a);
                }
                assert forall|k: int| 0 <= k < out@.len() implies left@.contains(#[trigger] out@[k])
                    && right@.contains(out@[k]) by {
                    if k < out0.len() {
                        assert(out@[k] == out0[k]);
                    }
                }
                assert forall|x: int, y: int| 0 <= x < y < out@.len() implies date_lt(
                    #[trigger] out@[x],
                    #[trigger] out@[y],
                ) by {
                    if y == out0.len() {
                        assert(out@[x] == out0[x]);
                    } else {
                        assert(out@[x] == out0[x] && out@[y] == out0[y]);
                    }
                }
                assert forall|k: int|
                    0 <= k < out@.len() implies (i + 1 < left@.len() ==> date_lt(
                    #[trigger] out@[k],
                    left@[i + 1],
                )) && (j + 1 < right@.len() ==> date_lt(out@[k], right@[j + 1])) by {
                    if i + 1 < left@.len() {
                        assert(date_lt(left@[i as int], left@[i + 1]));
                        if k < out0.len() {
                            assert(out@[k] == out0[k]);
                            lemma_date_lt_trans(out0[k], left@[i as int], left@[i + 1]);
                        }
                    }
                    if j + 1 < right@.len() {
                        assert(date_lt(right@[j as int], right@[j + 1]));
                        if k < out0.len() {
                            assert(out@[k] == out0[k]);
                            lemma_date_lt_trans(out0[k], right@[j as int], right@[j + 1]);
                        }
                    }
                }
                assert forall|d: Date|
                    left@.contains(d) && right@.contains(d) && !out@.contains(d) implies (exists|aa: int|
                        i + 1 <= aa < left@.len() && left@[aa] == d) && (exists|bb: int|
                        j + 1 <= bb < right@.len() && right@[bb] == d) by {
                    assert(!out0.contains(d)) by {
                        if out0.contains(d) {
                            let k = choose|k: int| 0 <= k < out0.len() && out0[k] == d;
                            assert(out@[k] == d);
                        }
                    }
                    assert(d != a) by {
                        assert(out@[out0.len() as int] == a);
                    }
                    let aa = choose|aa: int| i <= aa < left@.len() && left@[aa] == d;
                    let bb = choose|bb: int| j <= bb < right@.len() && right@[bb] == d;
                    assert(aa != i);
                    assert(bb != j);
                }
                }
            }
            i += 1;
            j += 1;
        }
    }
    proof {
        assert(out@ =~= out@ + merge_common(left@, right@, i as int, j as int));
        if srt {
        assert forall|d: Date| #[trigger] out@.contains(d) <==> left@.contains(d) && right@.contains(d) by {
            if out@.contains(d) {
                let k = choose|k: int| 0 <= k < out@.len() && out@[k] == d;
                assert(left@.contains(out@[k]) && right@.contains(out@[k]));
            }
        }
        }
    }
    out
}

/// One time bucket of blocks: average height and time, and the offsets
/// of its blocks into the window's prefetched values.
pub struct BlockBucket {
    pub avg_height: u32,
    pub avg_timestamp: u32,
    pub offsets: Vec<usize>,
}

/// Sum of `values` at `offsets`.
pub open spec fn sum_at(values: Seq<u64>, offsets: Seq<usize>) -> int
    decreases offsets.len(),
{
    if offsets.len() == 0 {
        0
    } else {
        sum_at(values, offsets.drop_last()) + values[offsets.last() as int]
    }
}

impl BlockBucket {
    pub fn new(avg_height: u32, avg_timestamp: u32, offsets: Vec<usize>) -> (r: Self)
        ensures
            r.avg_height == avg_height,
            r.avg_timestamp == avg_timestamp,
            r.offsets_seq() == offsets@,
    {
        BlockBucket { avg_height, avg_timestamp, offsets }
    }

    pub open spec fn offsets_seq(&self) -> Seq<usize> {
        self.offsets@
    }

    fn sum(&self, values: &[u64]) -> (r: u64)
        requires
            forall|k: int| 0 <= k < self.offsets_seq().len() ==> #[trigger] self.offsets_seq()[k] < values@.len(),
            sum_at(values@, self.offsets_seq()) <= u64::MAX,
        ensures
            r == sum_at(values@, self.offsets_seq()),
    {
        let mut sum: u64 = 0;
        let mut k: usize = 0;
        while k < self.offsets.len()
            invariant
                k <= self.offsets@.len(),
                forall|m: int| 0 <= m < self.offsets@.len() ==> #[trigger] self.offsets@[m] < values@.len(),
                sum_at(values@, self.offsets@) <= u64::MAX,
                sum == sum_at(values@, self.offsets@.take(k as int)),
            decreases self.offsets.len() - k,
        {
            assert(self.offsets@.take(k + 1).drop_last() =~= self.offsets@.take(k as int));
            proof {
                lemma_sum_at_prefix(values@, self.offsets@, k + 1);
            }
            sum = sum + values[self.offsets[k]];
            k += 1;
        }
        assert(self.offsets@.take(self.offsets@.len() as int) =~= self.offsets@);
        sum
    }

    /// Mean of `values` over this bucket's blocks, rounded down.
    pub fn mean(&self, values: &[u64]) -> (r: u64)
        requires
            self.offsets_seq().len() > 0,
            forall|k: int| 0 <= k < self.offsets_seq().len() ==> #[trigger] self.offsets_seq()[k] < values@.len(),
            sum_at(values@, self.offsets_seq()) <= u64::MAX,
        ensures
            r == sum_at(values@, self.offsets_seq()) / (self.offsets_seq().len() as int),
    {
        let s = self.sum(values);
        s / (self.offsets.len() as u64)
    }

    /// Mean of `values` over this bucket's blocks, halves rounded up.
    pub fn mean_rounded(&self, values: &[u64]) -> (r: u64)
        requires
            self.offsets_seq().len() > 0,
            forall|k: int| 0 <= k < self.offsets_seq().len() ==> #[trigger] self.offsets_seq()[k] < values@.len(),
            sum_at(values@, self.offsets_seq()) <= u64::MAX,
        ensures
            r == (2 * sum_at(values@, self.offsets_seq()) + self.offsets_seq().len()) / (2
                * self.offsets_seq().len() as int),
    {
        let s = self.sum(values);
        let n = self.offsets.len() as u64;
        round_half_up(s, n)
    }
}

/// `sum / n` rounded to nearest, halves up.
pub fn round_half_up(sum: u64, n: u64) -> (r: u64)
    requires
        n > 0,
    ensures
        r == (2 * sum + n) / (2 * n as int),
{
    let q = sum / n;
    let rem = sum % n;
    let up = if rem >= n - rem { 1u64 } else { 0u64 };
    proof {
        let s = sum as int;
        let m = n as int;
        assert(s == m * q + rem) by (nonlinear_arith)
            requires
                q == s / m,
                rem == s % m,
                m > 0,
        ;
        assert(q + up <= u64::MAX) by (nonlinear_arith)
            requires
                s == m * q + rem,
                0 <= rem < m,
                up <= 1,
                up == 1 ==> rem > 0,
                s <= u64::MAX,
                m > 0,
        {
            if up == 1 {
                assert(q < s);
            }
        }
        assert((2 * s + m) / (2 * m) == q + up) by (nonlinear_arith)
            requires
                s == m * q + rem,
                0 <= rem < m,
                m > 0,
                q >= 0,
                up == (if rem >= m - rem { 1int } else { 0int }),
        {
            assert(2 * s + m == 2 * m * q + 2 * rem + m);
            if up == 1 {
                assert(2 * m * (q + 1) <= 2 * s + m);
                assert(2 * s + m < 2 * m * (q + 2));
            } else {
                assert(2 * m * q <= 2 * s + m);
                assert(2 * s + m < 2 * m * (q + 1));
            }
        }
    }
    q + up
}

proof fn lemma_sum_at_prefix(values: Seq<u64>, offsets: Seq<usize>, k: int)
    requires
        0 <= k <= offsets.len(),
        forall|m: int| 0 <= m < offsets.len() ==> #[trigger] offsets[m] < values.len(),
    ensures
        sum_at(values, offsets.take(k)) <= sum_at(values, offsets),
    decreases offsets.len() - k,
{
    if k < offsets.len() {
        lemma_sum_at_prefix(values, offsets, k + 1);
        assert(offsets.take(k + 1).drop_last() =~= offsets.take(k));
    } else {
        assert(offsets.take(k) =~= offsets);
    }
}

/// What bitcoin's double SHA-256 gives for `data`.
pub uninterp spec fn double_sha256(data: Seq<u8>) -> Seq<u8>;

/// bitcoin's `sha256d::Hash::hash` over 64 bytes, as a byte array.
#[verifier::external_body]
fn sha256d_64(data: &[u8; 64]) -> (r: [u8; 32])
    ensures
        r@ == double_sha256(data@),
{
    let digest = <bitcoin::hashes::sha256d::Hash as bitcoin::hashes::Hash>::hash(data);
    <bitcoin::hashes::sha256d::Hash as bitcoin::hashes::Hash>::to_byte_array(digest)
}

/// One merkle level up: each pair hashed, the last node paired with
/// itself when the level is odd.
pub open spec fn next_level(level: Seq<Seq<u8>>) -> Seq<Seq<u8>> {
    Seq::new(
        ((level.len() + 1) / 2) as nat,
        |k: int| double_sha256(level[2 * k] + level[if 2 * k + 1 < level.len() { 2 * k + 1 } else { 2 * k }]),
    )
}

/// The sibling hashes from `pos` up to the root, in display (reversed)
/// byte order.
pub open spec fn merkle_branch_spec(level: Seq<Seq<u8>>, pos: int) -> Seq<Seq<u8>>
    decreases level.len(),
{
    if level.len() <= 1 {
        Seq::empty()
    } else {
        let sibling = if pos % 2 == 0 && pos + 1 < level.len() {
            pos + 1
        } else if pos % 2 == 0 {
            pos
        } else {
            pos - 1
        };
        seq![level[sibling].reverse()] + merkle_branch_spec(next_level(level), pos / 2)
    }
}

/// A parent node: double SHA-256 of the left child's bytes followed by
/// the right child's.
pub open spec fn merkle_parent(left: Seq<u8>, right: Seq<u8>) -> Seq<u8> {
    double_sha256(left + right)
}

/// The merkle root of a level: pairs hashed level by level, the last node
/// of an odd level paired with itself, until one node is left.
pub open spec fn merkle_root(level: Seq<Seq<u8>>) -> Seq<u8>
    decreases level.len(),
{
    if level.len() <= 1 {
        level[0]
    } else {
        merkle_root(
            Seq::new(
                ((level.len() + 1) / 2) as nat,
                |k: int| merkle_parent(level[2 * k], if 2 * k + 1 < level.len() { level[2 * k + 1] } else { level[2 * k] }),
            ),
        )
    }
}

/// Climbs from node `h` at position `pos` with the display-order sibling
/// hashes of `path`: an even position is the left child, an odd one the
/// right child.
pub open spec fn merkle_fold(h: Seq<u8>, pos: int, path: Seq<Seq<u8>>) -> Seq<u8>
    decreases path.len(),
{
    if path.len() == 0 {
        h
    } else {
        let sibling = path[0].reverse();
        let up = if pos % 2 == 0 {
            merkle_parent(h, sibling)
        } else {
            merkle_parent(sibling, h)
        };
        merkle_fold(up, pos / 2, path.drop_first())
    }
}

/// A merkle path proves inclusion: climbing from the leaf at `pos` with
/// the branch for `pos` reaches the merkle root of the leaves.
pub proof fn law_merkle_branch_reaches_root(level: Seq<Seq<u8>>, pos: int)
    requires
        0 <= pos < level.len(),
    ensures
        merkle_fold(level[pos], pos, merkle_branch_spec(level, pos)) == merkle_root(level),
    decreases level.len(),
{
    if level.len() > 1 {
        let next = next_level(level);
        let up_level = Seq::new(
            ((level.len() + 1) / 2) as nat,
            |k: int| merkle_parent(level[2 * k], if 2 * k + 1 < level.len() { level[2 * k + 1] } else { level[2 * k] }),
        );
        assert(next =~= up_level);
        let sib = if pos % 2 == 0 && pos + 1 < level.len() {
            pos + 1
        } else if pos % 2 == 0 {
            pos
        } else {
            pos - 1
        };
        let path = merkle_branch_spec(level, pos);
        let rest = merkle_branch_spec(next, pos / 2);
        assert(path == seq![level[sib].reverse()] + rest);
        assert(path[0] == level[sib].reverse());
        assert(path.drop_first() =~= rest);
        assert(level[sib].reverse().reverse() =~= level[sib]);
        let k = pos / 2;
        assert(0 <= k < next.len());
        if pos % 2 == 0 {
            assert(2 * k == pos);
            assert(next[k] == merkle_parent(level[pos], level[sib]));
        } else {
            assert(2 * k == pos - 1);
            assert(2 * k + 1 == pos);
            assert(next[k] == merkle_parent(level[sib], level[pos]));
        }
        law_merkle_branch_reaches_root(next, k);
    }
}

/// The merkle proof of the transaction at `pos` among a block's `txids`:
/// sibling hashes bottom-up, bytes reversed for display.
pub fn merkle_path(txids: &[Txid], pos: usize) -> (r: Vec<[u8; 32]>)
    requires
        pos < txids@.len(),
    ensures
        r@.map_values(|h: [u8; 32]| h@) == merkle_branch_spec(txids@.map_values(|t: Txid| t.0@), pos as int),
        merkle_fold(txids@[pos as int].0@, pos as int, r@.map_values(|h: [u8; 32]| h@)) == merkle_root(
            txids@.map_values(|t: Txid| t.0@),
        ),
{
    proof {
        law_merkle_branch_reaches_root(txids@.map_values(|t: Txid| t.0@), pos as int);
    }
    let mut hashes: Vec<[u8; 32]> = Vec::new();
    let mut k: usize = 0;
    while k < txids.len()
        invariant
            k <= txids@.len(),
            hashes@.map_values(|h: [u8; 32]| h@) == txids@.take(k as int).map_values(|t: Txid| t.0@),
        decreases txids.len() - k,
    {
        hashes.push(txids[k].0);
        assert(txids@.take(k + 1).map_values(|t: Txid| t.0@) =~= txids@.take(k as int).map_values(
            |t: Txid| t.0@,
        ).push(txids@[k as int].0@));
        assert(hashes@.map_values(|h: [u8; 32]| h@) =~= txids@.take(k as int).map_values(
            |t: Txid| t.0@,
        ).push(txids@[k as int].0@));
        k += 1;
    }
    assert(txids@.take(txids@.len() as int) =~= txids@);
    let ghost top = txids@.map_values(|t: Txid| t.0@);
    let mut proof_hashes: Vec<[u8; 32]> = Vec::new();
    let mut idx = pos;
    while hashes.len() > 1
        invariant
            idx < hashes@.len(),
            proof_hashes@.map_values(|h: [u8; 32]| h@) + merkle_branch_spec(
                hashes@.map_values(|h: [u8; 32]| h@),
                idx as int,
            ) == merkle_branch_spec(top, pos as int),
        decreases hashes@.len(),
    {
        let n = hashes.len();
        let ghost level = hashes@.map_values(|h: [u8; 32]| h@);
        let sibling = if idx % 2 == 0 && idx + 1 < n {
            idx + 1
        } else if idx % 2 == 0 {
            idx
        } else {
            idx - 1
        };
        let display = reversed(&hashes[sibling]);
        let ghost before = proof_hashes@;
        proof_hashes.push(display);
        let mut next: Vec<[u8; 32]> = Vec::new();
        let mut p: usize = 0;
        while p < n
            invariant
                n == hashes@.len(),
                n > 1,
                p < n ==> p % 2 == 0,
                p <= n,
                next@.len() == (p + 1) / 2,
                level == hashes@.map_values(|h: [u8; 32]| h@),
                forall|m: int| 0 <= m < next@.len() ==> (#[trigger] next@[m])@ == next_level(level)[m],
            decreases n - p,
        {
            let left = hashes[p];
            let right = if p + 1 < n { hashes[p + 1] } else { hashes[p] };
            let combined = concat32(&left, &right);
            let h = sha256d_64(&combined);
            proof {
                let m = (p / 2) as int;
                assert(2 * m == p);
                assert(combined@ == level[2 * m] + level[if 2 * m + 1 < level.len() { 2 * m + 1 } else { 2 * m }]);
            }
            next.push(h);
            if p + 1 < n {
                p += 2;
            } else {
                p = n;
            }
        }
        proof {
            assert(next@.len() == (n + 1) / 2);
            assert(next@.map_values(|h: [u8; 32]| h@) =~= next_level(level));
            assert(proof_hashes@.map_values(|h: [u8; 32]| h@) =~= before.map_values(
                |h: [u8; 32]| h@,
            ).push(level[sibling as int].reverse()));
            assert(seq![level[sibling as int].reverse()] + merkle_branch_spec(next_level(level), (idx / 2) as int)
                == merkle_branch_spec(level, idx as int));
            assert(proof_hashes@.map_values(|h: [u8; 32]| h@) + merkle_branch_spec(next_level(level), (idx / 2) as int)
                =~= before.map_values(|h: [u8; 32]| h@) + merkle_branch_spec(level, idx as int));
        }
        hashes = next;
        idx = idx / 2;
    }
    proof {
        assert(merkle_branch_spec(hashes@.map_values(|h: [u8; 32]| h@), idx as int) =~= Seq::<Seq<u8>>::empty());
        assert(proof_hashes@.map_values(|h: [u8; 32]| h@) =~= proof_hashes@.map_values(|h: [u8; 32]| h@)
            + Seq::<Seq<u8>>::empty());
    }
    proof_hashes
}

/// `h` with its bytes in reverse order.
fn reversed(h: &[u8; 32]) -> (r: [u8; 32])
    ensures
        r@ == h@.reverse(),
{
    let mut out = [0u8; 32];
    let mut k: usize = 0;
    while k < 32
        invariant
            k <= 32,
            forall|m: int| 0 <= m < k ==> out@[m] == h@[31 - m],
        decreases 32 - k,
    {
        out[k] = h[31 - k];
        k += 1;
    }
    assert(out@ =~= h@.reverse());
    out
}

/// `a` followed by `b`.
fn concat32(a: &[u8; 32], b: &[u8; 32]) -> (r: [u8; 64])
    ensures
        r@ == a@ + b@,
{
    let mut out = [0u8; 64];
    let mut k: usize = 0;
    while k < 64
        invariant
            k <= 64,
            forall|m: int| 0 <= m < k ==> out@[m] == if m < 32 { a@[m] } else { b@[m - 32] },
        decreases 64 - k,
    {
        if k < 32 {
            out[k] = a[k];
        } else {
            out[k] = b[k - 32];
        }
        k += 1;
    }
    assert(out@ =~= a@ + b@);
    out
}

/// Blocks per difficulty epoch.
pub const BLOCKS_PER_EPOCH: u32 = 2016;

/// Blocks per subsidy halving.
pub const BLOCKS_PER_HALVING: u32 = 210_000;

/// How many difficulty epochs and halving periods have data when the
/// chain holds `height_len` blocks: one past the period of the tip
/// (height `height_len - 1`), or none for an empty chain.
pub fn period_bounds(height_len: u32) -> (r: (u32, u32))
    ensures
        height_len == 0 ==> r == (0u32, 0u32),
        height_len > 0 ==> r.0 == (height_len - 1) / (BLOCKS_PER_EPOCH as int) + 1 && r.1 == (height_len
            - 1) / (BLOCKS_PER_HALVING as int) + 1,
{
    if height_len == 0 {
        return (0, 0);
    }
    let tip = height_len - 1;
    (tip / BLOCKS_PER_EPOCH + 1, tip / BLOCKS_PER_HALVING + 1)
}

} // verus!
