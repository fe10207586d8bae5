use vstd::prelude::*;

use crate::histogram::HistogramRaw;

verus! {

/// A fixed-size ring of the most recent raw block histograms, newest at
/// age 0. The weighted average over it is kept by its owner.
#[derive(Clone)]
pub struct HistogramRing {
    histograms: Vec<HistogramRaw>,
    cursor: usize,
    filled: usize,
}

impl HistogramRing {
    pub closed spec fn window(&self) -> nat {
        self.histograms@.len()
    }

    pub closed spec fn filled_spec(&self) -> nat {
        self.filled as nat
    }

    /// Ring slot of the block `age` steps back from the newest.
    pub closed spec fn slot_at_age(&self, age: int) -> int {
        (self.cursor + self.window() - 1 - age) % (self.window() as int)
    }

    /// The recorded histograms, oldest first.
    pub closed spec fn contents(&self) -> Seq<HistogramRaw> {
        Seq::new(self.filled as nat, |j: int| self.histograms@[self.slot_at_age(self.filled - 1 - j)])
    }

    pub closed spec fn wf(&self) -> bool {
        &&& self.histograms@.len() > 0
        &&& self.cursor < self.histograms@.len()
        &&& self.filled <= self.histograms@.len()
    }

    /// An empty ring of `window_size` slots.
    pub fn new(window_size: usize) -> (r: Self)
        requires
            window_size > 0,
        ensures
            r.wf(),
            r.window() == window_size,
            r.contents() == Seq::<HistogramRaw>::empty(),
    {
        let mut histograms: Vec<HistogramRaw> = Vec::new();
        let mut k: usize = 0;
        while k < window_size
            invariant
                k <= window_size,
                histograms@.len() == k,
            decreases window_size - k,
        {
            histograms.push(HistogramRaw::zeros());
            k += 1;
        }
        let r = HistogramRing { histograms, cursor: 0, filled: 0 };
        assert(r.contents() =~= Seq::<HistogramRaw>::empty());
        r
    }

    pub fn filled(&self) -> (r: usize)
        ensures
            r == self.filled_spec(),
            r == self.contents().len(),
    {
        self.filled
    }

    /// Records `hist` as the newest block, dropping the oldest once full.
    pub fn push(&mut self, hist: &HistogramRaw)
        requires
            old(self).wf(),
        ensures
            final(self).wf(),
            final(self).window() == old(self).window(),
            old(self).filled_spec() < old(self).window() ==> final(self).contents() == old(
                self,
            ).contents().push(*hist),
            old(self).filled_spec() == old(self).window() ==> final(self).contents() == old(
                self,
            ).contents().drop_first().push(*hist),
    {
        let window = self.histograms.len();
        let ghost before = self.contents();
        let ghost old_h = self.histograms@;
        let ghost c0 = self.cursor as int;
        let ghost f0 = self.filled as int;
        self.histograms.set(self.cursor, *hist);
        self.cursor = (self.cursor + 1) % window;
        self.filled = if self.filled < window { self.filled + 1 } else { window };
        proof {
            let w = window as int;
            let after = self.contents();
            let expected = if f0 < w { before.push(*hist) } else { before.drop_first().push(*hist) };
            assert(after.len() == expected.len());
            assert forall|j: int| 0 <= j < after.len() implies after[j] == expected[j] by {
                let f1 = self.filled as int;
                let c1 = self.cursor as int;
                let age = f1 - 1 - j;
                let slot = (c1 + w - 1 - age) % w;
                if age == 0 {
                    assert(slot == c0) by (nonlinear_arith)
                        requires
                            c1 == (c0 + 1) % w,
                            0 <= c0 < w,
                            age == 0,
                            slot == (c1 + w - 1 - age) % w,
                            w > 0,
                    ;
                } else {
                    let old_age = age - 1;
                    assert(slot == (c0 + w - 1 - old_age) % w) by (nonlinear_arith)
                        requires
                            c1 == (c0 + 1) % w,
                            0 <= c0 < w,
                            1 <= age <= w - 1,
                            old_age == age - 1,
                            slot == (c1 + w - 1 - age) % w,
                            w > 0,
                    ;
                    assert(slot != c0) by (nonlinear_arith)
                        requires
                            slot == (c0 + w - 1 - old_age) % w,
                            0 <= old_age < w - 1,
                            0 <= c0 < w,
                            w > 0,
                    ;
                    let jo = f0 - 1 - old_age;
                    assert(before[jo] == old_h[(c0 + w - 1 - old_age) % w]);
                }
            }
            assert(after =~= expected);
        }
    }

    /// Ring slot of the block `age` steps back from the newest.
    pub fn index_at_age(&self, age: usize) -> (r: usize)
        requires
            self.wf(),
            age < self.window(),
        ensures
            r == self.slot_at_age(age as int),
            r < self.window(),
    {
        let window = self.histograms.len();
        let back = window - 1 - age;
        let r = if back >= window - self.cursor {
            back - (window - self.cursor)
        } else {
            self.cursor + back
        };
        proof {
            let w = window as int;
            let c = self.cursor as int;
            let b = back as int;
            if b >= w - c {
                assert((c + b) % w == c + b - w) by (nonlinear_arith)
                    requires
                        0 <= c < w,
                        0 <= b < w,
                        c + b >= w,
                ;
            } else {
                assert((c + b) % w == c + b) by (nonlinear_arith)
                    requires
                        0 <= c < w,
                        0 <= b,
                        c + b < w,
                ;
            }
        }
        r
    }

    /// The most recent `min(filled, n)` histograms, oldest first.
    pub fn recent(&self, n: usize) -> (r: Vec<HistogramRaw>)
        requires
            self.wf(),
        ensures
            r@ == self.contents().skip(
                self.contents().len() - (if n < self.contents().len() {
                    n as int
                } else {
                    self.contents().len() as int
                }),
            ),
    {
        let m = if self.filled < n { self.filled } else { n };
        let mut out: Vec<HistogramRaw> = Vec::new();
        let mut k: usize = 0;
        let ghost all = self.contents();
        let ghost start = all.len() - m;
        while k < m
            invariant
                self.wf(),
                all == self.contents(),
                m <= self.filled,
                start == all.len() - m,
                k <= m,
                out@ == all.subrange(start, start + k),
            decreases m - k,
        {
            let age = m - 1 - k;
            let slot = self.index_at_age(age);
            out.push(self.histograms[slot]);
            proof {
                let j = start + k;
                assert(all[j] == self.histograms@[self.slot_at_age(self.filled - 1 - j)]);
                assert(self.filled - 1 - j == age);
                assert(all.subrange(start, start + k + 1) =~= all.subrange(start, start + k).push(all[j]));
            }
            k += 1;
        }
        assert(all.skip(start) =~= all.subrange(start, start + m));
        out
    }

    /// The histogram `age` steps back from the newest.
    pub fn at_age(&self, age: usize) -> (r: HistogramRaw)
        requires
            self.wf(),
            age < self.filled_spec(),
        ensures
            r == self.contents()[self.contents().len() - 1 - age],
    {
        let slot = self.index_at_age(age);
        self.histograms[slot]
    }
}

} // verus!
