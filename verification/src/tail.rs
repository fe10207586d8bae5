use vstd::prelude::*;

verus! {

/// Bytes read per backward step through a blk file.
pub const TAIL_CHUNK: usize = 8 * 1024 * 1024;

/// Files in a row whose first block lies below the lowest missing height
/// before the backward walk gives up.
pub const OUT_OF_ORDER_FILE_BACKOFF: usize = 21;

/// Most parser threads a pipeline runs.
pub const CHANNEL_CAPACITY: usize = 50;

/// Why a backward (tail) read of the canonical window failed.
#[derive(Debug, Clone, Copy, PartialEq, Eq, Structural)]
pub enum TailError {
    /// Too many files in a row started below the lowest missing block.
    WalkedPastWindow,
    /// A block did not link to the canonical chain where it should.
    StitchedAcrossReorg,
    /// The files ran out with canonical blocks still missing.
    MissingBlocks,
}

/// Number of empty slots.
pub open spec fn missing_count<B>(s: Seq<Option<B>>) -> nat
    decreases s.len(),
{
    if s.len() == 0 {
        0
    } else {
        missing_count(s.drop_last()) + if s.last() is None {
            1nat
        } else {
            0nat
        }
    }
}

/// Index of the first empty slot.
pub open spec fn first_missing<B>(s: Seq<Option<B>>) -> Option<int>
    decreases s.len(),
{
    if s.len() == 0 {
        None
    } else if s[0] is None {
        Some(0)
    } else {
        match first_missing(s.drop_first()) {
            Some(i) => Some(i + 1),
            None => None,
        }
    }
}

/// Progress of a backward read of a canonical window: one slot per
/// height of the window, filled out of order as blocks are found.
pub struct TailState<B> {
    slots: Vec<Option<B>>,
    remaining: usize,
    below_floor_streak: usize,
}

impl<B> TailState<B> {
    pub closed spec fn slots_seq(&self) -> Seq<Option<B>> {
        self.slots@
    }

    pub closed spec fn remaining_spec(&self) -> nat {
        self.remaining as nat
    }

    pub closed spec fn streak(&self) -> nat {
        self.below_floor_streak as nat
    }

    /// `remaining` counts the empty slots.
    pub closed spec fn wf(&self) -> bool {
        self.remaining == missing_count(self.slots@)
    }

    /// A window of `len` empty slots.
    pub fn new(len: usize) -> (r: Self)
        ensures
            r.wf(),
            r.slots_seq().len() == len,
            forall|i: int| 0 <= i < len ==> (#[trigger] r.slots_seq()[i]) is None,
            r.remaining_spec() == len,
            r.streak() == 0,
    {
        let mut slots: Vec<Option<B>> = Vec::new();
        let mut k: usize = 0;
        while k < len
            invariant
                k <= len,
                slots@.len() == k,
                forall|i: int| 0 <= i < k ==> (#[trigger] slots@[i]) is None,
                missing_count(slots@) == k,
            decreases len - k,
        {
            let ghost before = slots@;
            slots.push(None);
            assert(slots@.drop_last() =~= before);
            k += 1;
        }
        TailState { slots, remaining: len, below_floor_streak: 0 }
    }

    pub fn remaining(&self) -> (r: usize)
        ensures
            r == self.remaining_spec(),
    {
        self.remaining
    }

    /// Position of the lowest height still missing.
    pub fn lowest_missing(&self) -> (r: Option<usize>)
        ensures
            match first_missing(self.slots_seq()) {
                Some(i) => 0 <= i < self.slots_seq().len() && r is Some && r.unwrap() as int == i,
                None => r is None,
            },
    {
        let mut k: usize = 0;
        assert(self.slots@.skip(0) =~= self.slots@);
        while k < self.slots.len()
            invariant
                k <= self.slots@.len(),
                forall|j: int| 0 <= j < k ==> (#[trigger] self.slots@[j]) is Some,
                first_missing(self.slots@) == match first_missing(self.slots@.skip(k as int)) {
                    Some(i) => Some(i + k),
                    None => None::<int>,
                },
            decreases self.slots.len() - k,
        {
            let ghost rest = self.slots@.skip(k as int);
            assert(rest[0] == self.slots@[k as int]);
            assert(rest.drop_first() =~= self.slots@.skip(k + 1));
            if self.slots[k].is_none() {
                return Some(k);
            }
            k += 1;
        }
        None
    }

    /// Called before reading a file whose first block is at
    /// `first_height` (when it could be found): counts consecutive files
    /// that start below the lowest missing height of the window starting
    /// at `canonical_start`, and gives up after `OUT_OF_ORDER_FILE_BACKOFF`.
    pub fn check_file(&mut self, first_height: Option<u64>, canonical_start: u64) -> (r: Result<(), TailError>)
        requires
            old(self).wf(),
            old(self).streak() < usize::MAX,
        ensures
            final(self).wf(),
            final(self).slots_seq() == old(self).slots_seq(),
            final(self).remaining_spec() == old(self).remaining_spec(),
            match (first_missing(old(self).slots_seq()), first_height) {
                (Some(i), Some(h)) => if h < canonical_start + i {
                    &&& final(self).streak() == old(self).streak() + 1
                    &&& (r is Err <==> final(self).streak() >= OUT_OF_ORDER_FILE_BACKOFF)
                    &&& r is Err ==> r == Err::<(), TailError>(TailError::WalkedPastWindow)
                } else {
                    final(self).streak() == 0 && r is Ok
                },
                _ => final(self).streak() == old(self).streak() && r is Ok,
            },
    {
        let missing = self.lowest_missing();
        match (missing, first_height) {
            (Some(missing_idx), Some(first)) => {
                let lowest: u128 = canonical_start as u128 + missing_idx as u128;
                if (first as u128) < lowest {
                    self.below_floor_streak = self.below_floor_streak + 1;
                    if self.below_floor_streak >= OUT_OF_ORDER_FILE_BACKOFF {
                        return Err(TailError::WalkedPastWindow);
                    }
                } else {
                    self.below_floor_streak = 0;
                }
                Ok(())
            },
            _ => Ok(()),
        }
    }

    /// Whether a block found at window position `offset` is still wanted.
    pub fn wants(&self, offset: usize) -> (r: bool)
        ensures
            r == (offset < self.slots_seq().len() && self.slots_seq()[offset as int] is None),
    {
        offset < self.slots.len() && self.slots[offset].is_none()
    }

    /// Stores the block for window position `offset`; `true` once the
    /// window is complete.
    pub fn fill(&mut self, offset: usize, block: B) -> (done: bool)
        requires
            old(self).wf(),
            offset < old(self).slots_seq().len(),
            old(self).slots_seq()[offset as int] is None,
        ensures
            final(self).wf(),
            final(self).slots_seq() == old(self).slots_seq().update(offset as int, Some(block)),
            final(self).remaining_spec() == old(self).remaining_spec() - 1,
            final(self).streak() == old(self).streak(),
            done == (final(self).remaining_spec() == 0),
    {
        let ghost before = self.slots@;
        self.slots.set(offset, Some(block));
        proof {
            lemma_missing_update(before, offset as int, Some(block));
        }
        self.remaining = self.remaining - 1;
        self.remaining == 0
    }

    /// The blocks in height order, or `MissingBlocks` if a slot is empty.
    pub fn finish(self) -> (r: Result<Vec<B>, TailError>)
        requires
            self.wf(),
        ensures
            self.remaining_spec() > 0 ==> r == Err::<Vec<B>, TailError>(TailError::MissingBlocks),
            self.remaining_spec() == 0 ==> (r matches Ok(v) && v@.len() == self.slots_seq().len()
                && forall|i: int| 0 <= i < v@.len() ==> Some(#[trigger] v@[i]) == self.slots_seq()[i]),
    {
        if self.remaining > 0 {
            return Err(TailError::MissingBlocks);
        }
        let ghost all = self.slots@;
        let n = self.slots.len();
        proof {
            lemma_none_counted(all);
        }
        let mut out: Vec<B> = Vec::new();
        let mut k: usize = 0;
        for slot in it: self.slots.into_iter()
            invariant
                all == it.seq(),
                k == it.index(),
                forall|i: int| 0 <= i < all.len() ==> (#[trigger] all[i]) is Some,
                out@.len() == k,
                k <= all.len(),
                all.len() == n,
                forall|i: int| 0 <= i < k ==> Some(#[trigger] out@[i]) == all[i],
        {
            assert(k < all.len());
            assert(all[k as int] == slot);
            match slot {
                Some(b) => out.push(b),
                None => {},
            }
            k += 1;
        }
        Ok(out)
    }
}

/// Filling an empty slot lowers the count by one.
proof fn lemma_missing_update<B>(s: Seq<Option<B>>, i: int, v: Option<B>)
    requires
        0 <= i < s.len(),
        s[i] is None,
        v is Some,
    ensures
        missing_count(s.update(i, v)) + 1 == missing_count(s),
    decreases s.len(),
{
    let t = s.update(i, v);
    if i == s.len() - 1 {
        assert(t.drop_last() =~= s.drop_last());
    } else {
        assert(t.drop_last() =~= s.drop_last().update(i, v));
        lemma_missing_update(s.drop_last(), i, v);
    }
}

/// No empty slot is counted as none.
proof fn lemma_none_counted<B>(s: Seq<Option<B>>)
    requires
        missing_count(s) == 0,
    ensures
        forall|i: int| 0 <= i < s.len() ==> (#[trigger] s[i]) is Some,
    decreases s.len(),
{
    if s.len() > 0 {
        lemma_none_counted(s.drop_last());
        assert forall|i: int| 0 <= i < s.len() implies (#[trigger] s[i]) is Some by {
            if i < s.len() - 1 {
                assert(s[i] == s.drop_last()[i]);
            }
        }
    }
}

/// Start of the chunk read before `end`, walking a file backwards.
pub fn tail_chunk_start(end: usize) -> (r: usize)
    ensures
        r == if end >= TAIL_CHUNK {
            (end - TAIL_CHUNK) as usize
        } else {
            0
        },
{
    end.saturating_sub(TAIL_CHUNK)
}

/// How many leading bytes of a chunk (those before its first block
/// magic) are carried into the chunk before it, so a block straddling
/// the boundary is stitched back together. No magic carries it all.
pub fn spillover_len(first_magic: Option<usize>, buf_len: usize) -> (r: usize)
    ensures
        r == match first_magic {
            Some(m) => m,
            None => buf_len,
        },
{
    match first_magic {
        Some(m) => m,
        None => buf_len,
    }
}

/// A first-block height that was found and is at most `start`.
pub open spec fn at_or_below(h: Option<u64>, start: u64) -> bool {
    match h {
        Some(v) => v <= start,
        None => false,
    }
}

/// Read the window backwards from the newest files when any of the last
/// few files (their first block heights, where found) starts at or below
/// the window start; never for a window starting at genesis.
pub fn prefers_tail(canonical_start: u64, recent_first_heights: &[Option<u64>]) -> (r: bool)
    ensures
        r == (canonical_start != 0 && exists|i: int|
            0 <= i < recent_first_heights@.len() && at_or_below(
                #[trigger] recent_first_heights@[i],
                canonical_start,
            )),
{
    if canonical_start == 0 {
        return false;
    }
    let mut k: usize = 0;
    while k < recent_first_heights.len()
        invariant
            canonical_start != 0,
            k <= recent_first_heights@.len(),
            forall|i: int|
                0 <= i < k ==> !at_or_below(#[trigger] recent_first_heights@[i], canonical_start),
        decreases recent_first_heights.len() - k,
    {
        match recent_first_heights[k] {
            Some(h) => {
                if h <= canonical_start {
                    assert(at_or_below(recent_first_heights@[k as int], canonical_start));
                    assert(exists|i: int|
                        0 <= i < recent_first_heights@.len() && at_or_below(
                            #[trigger] recent_first_heights@[i],
                            canonical_start,
                        ));
                    return true;
                }
            },
            None => {},
        }
        k += 1;
    }
    false
}

/// Parser threads actually used: at least one, at most the channel
/// capacity.
pub fn clamp_parser_threads(n: usize) -> (r: usize)
    ensures
        r == if n < 1 {
            1
        } else if n > CHANNEL_CAPACITY {
            CHANNEL_CAPACITY
        } else {
            n
        },
{
    if n < 1 {
        1
    } else if n > CHANNEL_CAPACITY {
        CHANNEL_CAPACITY
    } else {
        n
    }
}

/// The soft open-files limit to set: `target` capped at `hard`, only when
/// that raises the current `soft` limit.
pub fn raised_fd_limit(soft: u64, hard: u64, target: u64) -> (r: Option<u64>)
    ensures
        ({
            let wanted = if (if soft > target { soft } else { target }) > hard {
                hard
            } else {
                if soft > target { soft } else { target }
            };
            if wanted > soft { r == Some(wanted) } else { r is None }
        }),
{
    let raised = if soft > target { soft } else { target };
    let new_soft = if raised > hard { hard } else { raised };
    if new_soft > soft {
        Some(new_soft)
    } else {
        None
    }
}

} // verus!
