use vstd::prelude::*;

verus! {

/// Log-scale bins per decade of satoshi value.
pub const BINS_PER_DECADE: usize = 200;

/// Bins across 10^-8 .. 10^4 BTC.
pub const NUM_BINS: usize = 2400;

/// Per-bin output counts.
#[derive(Clone, Copy, Debug)]
pub struct HistogramRaw {
    counts: [u32; 2400],
}

impl View for HistogramRaw {
    type V = Seq<u32>;

    closed spec fn view(&self) -> Seq<u32> {
        self.counts@
    }
}

impl HistogramRaw {
    pub fn zeros() -> (r: Self)
        ensures
            r@.len() == NUM_BINS,
            forall|i: int| 0 <= i < NUM_BINS ==> r@[i] == 0,
    {
        HistogramRaw { counts: [0u32; 2400] }
    }

    pub fn len(&self) -> (r: usize)
        ensures
            r == NUM_BINS,
            r == self@.len(),
    {
        NUM_BINS
    }

    pub proof fn lemma_len(&self)
        ensures
            self@.len() == NUM_BINS,
    {
    }

    pub fn get(&self, bin: usize) -> (r: u32)
        requires
            bin < NUM_BINS,
        ensures
            r == self@[bin as int],
    {
        self.counts[bin]
    }

    pub fn increment(&mut self, bin: usize)
        requires
            bin < NUM_BINS,
            old(self)@[bin as int] < u32::MAX,
        ensures
            final(self)@ == old(self)@.update(bin as int, (old(self)@[bin as int] + 1) as u32),
    {
        let c = self.counts[bin];
        self.counts[bin] = c + 1;
    }

    /// Sum of every bin.
    pub fn total(&self) -> (r: u64)
        ensures
            r == seq_sum(self@),
    {
        let mut total: u64 = 0;
        let mut i: usize = 0;
        while i < NUM_BINS
            invariant
                i <= NUM_BINS,
                self.counts@.len() == NUM_BINS,
                total == seq_sum(self.counts@.take(i as int)),
                total <= i * 0xffff_ffffu64,
            decreases NUM_BINS - i,
        {
            assert(self.counts@.take(i + 1).drop_last() == self.counts@.take(i as int));
            total = total + self.counts[i] as u64;
            i += 1;
        }
        assert(self.counts@.take(i as int) == self.counts@);
        total
    }
}

pub open spec fn seq_sum(s: Seq<u32>) -> int
    decreases s.len(),
{
    if s.len() == 0 {
        0
    } else {
        seq_sum(s.drop_last()) + s.last()
    }
}

} // verus!
